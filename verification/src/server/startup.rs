//! The steps by which a server comes up: what is to be done next, given how the last step went.
use crate::ram::schema::map::SchemasMap;
use crate::ram::types::Id;
use vstd::prelude::*;

verus! {

#[derive(Debug, Clone)]
pub struct ServerOptions {
    pub chunk_count: usize,
    pub memory_size: usize,
    pub standalone: bool,
    pub is_meta: bool,
    pub meta_members: Vec<String>,
    pub address: String,
    pub backup_storage: Option<String>,
    pub meta_storage: Option<String>,
    pub group_name: String,
}

/// What a server knows of the cluster.
pub struct ServerMeta {
    pub schemas: SchemasMap,
}

/// Why the cluster did not do what it was asked to.
#[derive(Debug)]
pub enum ExecError {
    CannotConstructClient,
    Other(String),
}

/// Why a server did not come up.
#[derive(Debug)]
pub enum ServerError {
    CannotJoinCluster,
    CannotJoinClusterGroup(ExecError),
    CannotInitMemberTable,
    CannotSetServerWeight,
    CannotInitConsistentHashTable,
    CannotLoadMetaClient,
    CannotInitializeSchemaServer(ExecError),
    StandaloneMustAlsoBeMetaServer,
}

/// How far a server has come.
#[derive(Debug)]
pub enum Stage {
    StartMeta,
    JoinMeta,
    Bootstrap,
    StartMembership,
    ConnectMeta,
    JoinGroup,
    LoadTable,
    InitTable,
    LoadSchemas,
    OpenChunks,
    Running,
    Failed(ServerError),
}

/// How a step went.
#[derive(Debug)]
pub enum Outcome {
    Done,
    /// The cluster answered, but with a refusal.
    Refused,
    Error(ExecError),
}

/// What is to be done at a stage, and with what.
#[derive(Debug)]
pub enum Action<'a> {
    /// Start the raft service at the address, with its log on disk or in memory, and register the
    /// schemas of the group with it.
    StartMeta { address: &'a String, disk: &'a Option<String>, group: &'a String },
    /// Join the meta servers.
    JoinMeta { members: &'a Vec<String> },
    /// Start a meta cluster of one.
    Bootstrap,
    /// Start the membership and the weight services.
    StartMembership,
    /// Connect to the meta servers and prepare for their events.
    ConnectMeta { members: &'a Vec<String> },
    /// Join the group under the address.
    JoinGroup { address: &'a String, group: &'a String },
    /// Load the group's hash table.
    LoadTable { group: &'a String },
    /// Set the weight of the address in the table, and initialize the table.
    InitTable { address: &'a String, weight: u64 },
    /// Load the group's schemas.
    LoadSchemas { group: &'a String },
    /// Make the chunks and register the services.
    OpenChunks { count: usize, size: usize, backup: &'a Option<String> },
    /// Nothing is left to do.
    Finished,
}

/// The stage at which a server starts: a meta server starts the meta service first, and a server
/// that stands alone must be one.
pub open spec fn initial(opts: ServerOptions) -> Stage {
    if opts.is_meta {
        Stage::StartMeta
    } else if opts.standalone {
        Stage::Failed(ServerError::StandaloneMustAlsoBeMetaServer)
    } else {
        Stage::ConnectMeta
    }
}

/// The stage after a step. Without other meta servers a new cluster is started; any other failure
/// ends the start-up with its own error.
pub open spec fn after(stage: Stage, outcome: Outcome) -> Stage {
    match stage {
        Stage::StartMeta => Stage::JoinMeta,
        Stage::JoinMeta => match outcome {
            Outcome::Done => Stage::StartMembership,
            Outcome::Error(ExecError::CannotConstructClient) => Stage::Bootstrap,
            _ => Stage::Failed(ServerError::CannotJoinCluster),
        },
        Stage::Bootstrap => Stage::StartMembership,
        Stage::StartMembership => Stage::ConnectMeta,
        Stage::ConnectMeta => match outcome {
            Outcome::Done => Stage::JoinGroup,
            _ => Stage::Failed(ServerError::CannotLoadMetaClient),
        },
        Stage::JoinGroup => match outcome {
            Outcome::Error(e) => Stage::Failed(ServerError::CannotJoinClusterGroup(e)),
            _ => Stage::LoadTable,
        },
        Stage::LoadTable => match outcome {
            Outcome::Done => Stage::InitTable,
            _ => Stage::Failed(ServerError::CannotInitConsistentHashTable),
        },
        Stage::InitTable => match outcome {
            Outcome::Done => Stage::LoadSchemas,
            _ => Stage::Failed(ServerError::CannotInitMemberTable),
        },
        Stage::LoadSchemas => match outcome {
            Outcome::Error(e) => Stage::Failed(ServerError::CannotInitializeSchemaServer(e)),
            _ => Stage::OpenChunks,
        },
        Stage::OpenChunks => Stage::Running,
        Stage::Running => Stage::Running,
        Stage::Failed(e) => Stage::Failed(e),
    }
}

/// What the options say is to be done at a stage.
pub open spec fn action_of(opts: &ServerOptions, stage: Stage) -> Action<'_> {
    match stage {
        Stage::StartMeta => Action::StartMeta {
            address: &opts.address,
            disk: &opts.meta_storage,
            group: &opts.group_name,
        },
        Stage::JoinMeta => Action::JoinMeta { members: &opts.meta_members },
        Stage::Bootstrap => Action::Bootstrap,
        Stage::StartMembership => Action::StartMembership,
        Stage::ConnectMeta => Action::ConnectMeta { members: &opts.meta_members },
        Stage::JoinGroup => Action::JoinGroup { address: &opts.address, group: &opts.group_name },
        Stage::LoadTable => Action::LoadTable { group: &opts.group_name },
        Stage::InitTable => Action::InitTable {
            address: &opts.address,
            weight: opts.memory_size as u64,
        },
        Stage::LoadSchemas => Action::LoadSchemas { group: &opts.group_name },
        Stage::OpenChunks => Action::OpenChunks {
            count: opts.chunk_count,
            size: opts.memory_size,
            backup: &opts.backup_storage,
        },
        Stage::Running => Action::Finished,
        Stage::Failed(_) => Action::Finished,
    }
}

impl Stage {
    /// The stage at which a server starts.
    pub fn first(opts: &ServerOptions) -> (stage: Stage)
        ensures
            stage == initial(*opts),
            stage is StartMeta <==> opts.is_meta,
            stage is Failed <==> !opts.is_meta && opts.standalone,
            stage is Failed ==> stage->Failed_0 == ServerError::StandaloneMustAlsoBeMetaServer,
            stage is ConnectMeta <==> !opts.is_meta && !opts.standalone,
    {
        if opts.is_meta {
            return Stage::StartMeta;
        }
        if opts.standalone {
            return Stage::Failed(ServerError::StandaloneMustAlsoBeMetaServer);
        }
        Stage::ConnectMeta
    }

    /// The stage after a step.
    pub fn advance(self, outcome: Outcome) -> (stage: Stage)
        ensures
            stage == after(self, outcome),
            outcome is Done && !(self is Failed) ==> !(stage is Failed),
            self matches Stage::Failed(e) ==> stage == Stage::Failed(e),
            self is Running ==> stage is Running,
            self is JoinMeta && outcome == Outcome::Error(ExecError::CannotConstructClient)
                ==> stage is Bootstrap,
    {
        match self {
            Stage::StartMeta => Stage::JoinMeta,
            Stage::JoinMeta => match outcome {
                Outcome::Done => Stage::StartMembership,
                Outcome::Error(ExecError::CannotConstructClient) => Stage::Bootstrap,
                _ => Stage::Failed(ServerError::CannotJoinCluster),
            },
            Stage::Bootstrap => Stage::StartMembership,
            Stage::StartMembership => Stage::ConnectMeta,
            Stage::ConnectMeta => match outcome {
                Outcome::Done => Stage::JoinGroup,
                _ => Stage::Failed(ServerError::CannotLoadMetaClient),
            },
            Stage::JoinGroup => match outcome {
                Outcome::Error(e) => Stage::Failed(ServerError::CannotJoinClusterGroup(e)),
                _ => Stage::LoadTable,
            },
            Stage::LoadTable => match outcome {
                Outcome::Done => Stage::InitTable,
                _ => Stage::Failed(ServerError::CannotInitConsistentHashTable),
            },
            Stage::InitTable => match outcome {
                Outcome::Done => Stage::LoadSchemas,
                _ => Stage::Failed(ServerError::CannotInitMemberTable),
            },
            Stage::LoadSchemas => match outcome {
                Outcome::Error(e) => Stage::Failed(ServerError::CannotInitializeSchemaServer(e)),
                _ => Stage::OpenChunks,
            },
            Stage::OpenChunks => Stage::Running,
            Stage::Running => Stage::Running,
            Stage::Failed(e) => Stage::Failed(e),
        }
    }

    /// What is to be done at this stage.
    pub fn action<'a>(&self, opts: &'a ServerOptions) -> (action: Action<'a>)
        ensures
            action == action_of(opts, *self),
            self is StartMeta <==> action is StartMeta,
            self is JoinMeta <==> action is JoinMeta,
            self is Bootstrap <==> action is Bootstrap,
            self is StartMembership <==> action is StartMembership,
            self is ConnectMeta <==> action is ConnectMeta,
            self is JoinGroup <==> action is JoinGroup,
            self is LoadTable <==> action is LoadTable,
            self is InitTable <==> action is InitTable,
            self is LoadSchemas <==> action is LoadSchemas,
            self is OpenChunks <==> action is OpenChunks,
            action matches Action::StartMeta { address, disk, group } ==> *address == opts.address
                && *disk == opts.meta_storage && *group == opts.group_name,
            action matches Action::JoinMeta { members } ==> *members == opts.meta_members,
            action matches Action::ConnectMeta { members } ==> *members == opts.meta_members,
            action matches Action::JoinGroup { address, group } ==> *address == opts.address
                && *group == opts.group_name,
            action matches Action::LoadTable { group } ==> *group == opts.group_name,
            action matches Action::InitTable { address, weight } ==> *address == opts.address
                && weight == opts.memory_size,
            action matches Action::LoadSchemas { group } ==> *group == opts.group_name,
            action matches Action::OpenChunks { count, size, backup } ==> count == opts.chunk_count
                && size == opts.memory_size && *backup == opts.backup_storage,
    {
        match self {
            Stage::StartMeta => Action::StartMeta {
                address: &opts.address,
                disk: &opts.meta_storage,
                group: &opts.group_name,
            },
            Stage::JoinMeta => Action::JoinMeta { members: &opts.meta_members },
            Stage::Bootstrap => Action::Bootstrap,
            Stage::StartMembership => Action::StartMembership,
            Stage::ConnectMeta => Action::ConnectMeta { members: &opts.meta_members },
            Stage::JoinGroup => Action::JoinGroup {
                address: &opts.address,
                group: &opts.group_name,
            },
            Stage::LoadTable => Action::LoadTable { group: &opts.group_name },
            Stage::InitTable => Action::InitTable {
                address: &opts.address,
                weight: opts.memory_size as u64,
            },
            Stage::LoadSchemas => Action::LoadSchemas { group: &opts.group_name },
            Stage::OpenChunks => Action::OpenChunks {
                count: opts.chunk_count,
                size: opts.memory_size,
                backup: &opts.backup_storage,
            },
            Stage::Running => Action::Finished,
            Stage::Failed(_) => Action::Finished,
        }
    }
}

/// The address at which a server listens: one that stands alone has an address of its own kind.
pub fn server_address<'a>(opts: &'a ServerOptions, standalone_address: &'a String) -> (address:
    &'a String)
    ensures
        address == if opts.standalone {
            standalone_address
        } else {
            &opts.address
        },
{
    if opts.standalone {
        standalone_address
    } else {
        &opts.address
    }
}

/// Why a server cannot be reached.
#[derive(Debug, PartialEq, Eq, Structural, Clone, Copy)]
pub enum LookupError {
    /// The hash table has no such server.
    NoSuchServer,
}

/// The word of an id by which the hash table places it.
pub fn placing_word(id: &Id) -> (word: u64)
    ensures
        word == id.higher,
{
    id.higher
}

/// The name under which a server is reached, given what the hash table says of its id.
pub fn member_name(name: Option<String>) -> (r: Result<String, LookupError>)
    ensures
        match r {
            Ok(n) => name == Some(n),
            Err(e) => name is None && e == LookupError::NoSuchServer,
        },
{
    match name {
        Some(n) => Ok(n),
        None => Err(LookupError::NoSuchServer),
    }
}

/// The stage after the first `n` steps of a start-up.
pub open spec fn stage_after(opts: ServerOptions, outcomes: Seq<Outcome>, n: nat) -> Stage
    decreases n,
{
    if n == 0 {
        initial(opts)
    } else {
        after(stage_after(opts, outcomes, (n - 1) as nat), outcomes[n - 1])
    }
}

/// How many steps are left at most.
pub open spec fn steps_left(stage: Stage) -> int {
    match stage {
        Stage::StartMeta => 10,
        Stage::JoinMeta => 9,
        Stage::Bootstrap => 8,
        Stage::StartMembership => 7,
        Stage::ConnectMeta => 6,
        Stage::JoinGroup => 5,
        Stage::LoadTable => 4,
        Stage::InitTable => 3,
        Stage::LoadSchemas => 2,
        Stage::OpenChunks => 1,
        _ => 0,
    }
}

/// A start-up comes to its end, whatever the outcomes of its steps: after ten steps the server runs
/// or has failed.
pub proof fn lemma_startup_ends(opts: ServerOptions, outcomes: Seq<Outcome>, n: nat)
    ensures
        steps_left(stage_after(opts, outcomes, n)) <= if n < 10 { 10 - n } else { 0 },
        n >= 10 ==> stage_after(opts, outcomes, n) is Running || stage_after(opts, outcomes, n) is Failed,
    decreases n,
{
    if n > 0 {
        lemma_startup_ends(opts, outcomes, (n - 1) as nat);
    }
}

/// The step went well enough to go on.
pub open spec fn passes(stage: Stage, outcome: Outcome) -> bool {
    match stage {
        Stage::JoinMeta => outcome is Done || outcome == Outcome::Error(
            ExecError::CannotConstructClient,
        ),
        Stage::ConnectMeta => outcome is Done,
        Stage::JoinGroup => !(outcome is Error),
        Stage::LoadTable => outcome is Done,
        Stage::InitTable => outcome is Done,
        Stage::LoadSchemas => !(outcome is Error),
        _ => true,
    }
}

/// A server fails at the first step that does not go well, and at no other, unless it was to stand
/// alone without being a meta server; and once it has failed it stays failed.
pub proof fn lemma_first_failure_counts(opts: ServerOptions, outcomes: Seq<Outcome>, n: nat)
    ensures
        stage_after(opts, outcomes, n) is Failed <==> (initial(opts) is Failed || exists|i: int|
            0 <= i < n && !#[trigger] passes(
                stage_after(opts, outcomes, i as nat),
                outcomes[i],
            )),
        stage_after(opts, outcomes, n) is Failed ==> stage_after(opts, outcomes, n + 1)
            == stage_after(opts, outcomes, n),
    decreases n,
{
    if n > 0 {
        let m = (n - 1) as nat;
        lemma_first_failure_counts(opts, outcomes, m);
        let here = stage_after(opts, outcomes, m);
        if here is Failed {
            if !(initial(opts) is Failed) {
                let i = choose|i: int|
                    0 <= i < m && !#[trigger] passes(
                        stage_after(opts, outcomes, i as nat),
                        outcomes[i],
                    );
                assert(0 <= i < n);
            }
        } else if !passes(here, outcomes[m as int]) {
            assert(stage_after(opts, outcomes, n) is Failed);
        } else {
            assert(!(stage_after(opts, outcomes, n) is Failed));
            assert forall|i: int| 0 <= i < n implies #[trigger] passes(
                stage_after(opts, outcomes, i as nat),
                outcomes[i],
            ) by {}
        }
    }
}

/// The group that an action is about.
pub open spec fn group_named(action: Action<'_>) -> Option<String> {
    match action {
        Action::StartMeta { group, .. } => Some(*group),
        Action::JoinGroup { group, .. } => Some(*group),
        Action::LoadTable { group } => Some(*group),
        Action::LoadSchemas { group } => Some(*group),
        _ => None,
    }
}

/// The address that an action is about.
pub open spec fn address_named(action: Action<'_>) -> Option<String> {
    match action {
        Action::StartMeta { address, .. } => Some(*address),
        Action::JoinGroup { address, .. } => Some(*address),
        Action::InitTable { address, .. } => Some(*address),
        _ => None,
    }
}

/// The meta servers that an action is about.
pub open spec fn members_named(action: Action<'_>) -> Option<Vec<String>> {
    match action {
        Action::JoinMeta { members } => Some(*members),
        Action::ConnectMeta { members } => Some(*members),
        _ => None,
    }
}

/// Whatever step it takes, a server speaks of its own group, address and meta servers: it is a
/// member of the group whose table and schemas it loads, under the address that has its weight. The
/// weight is the memory that the chunks share, and the stores are those of the options.
pub proof fn lemma_actions_go_by_options(opts: ServerOptions, stage: Stage)
    ensures
        ({
            let action = action_of(&opts, stage);
            &&& group_named(action) matches Some(group) ==> group == opts.group_name
            &&& address_named(action) matches Some(address) ==> address == opts.address
            &&& members_named(action) matches Some(members) ==> members == opts.meta_members
            &&& action matches Action::StartMeta { disk, .. } ==> *disk == opts.meta_storage
            &&& action matches Action::InitTable { weight, .. } ==> weight == opts.memory_size
            &&& action matches Action::OpenChunks { count, size, backup } ==> count
                == opts.chunk_count && size == opts.memory_size && *backup == opts.backup_storage
            &&& action is Finished <==> stage is Running || stage is Failed
        }),
{
}

/// The action at the step `n` of a start-up.
pub open spec fn step_at(opts: &ServerOptions, outcomes: Seq<Outcome>, n: nat) -> Action<'_> {
    action_of(opts, stage_after(*opts, outcomes, n))
}

/// What must have come right before a step, and how it must have gone.
pub proof fn lemma_steps_in_order(opts: &ServerOptions, outcomes: Seq<Outcome>, n: nat)
    ensures
        ({
            let here = step_at(opts, outcomes, n);
            let before = step_at(opts, outcomes, (n - 1) as nat);
            let went = outcomes[n - 1];
            &&& here is StartMeta ==> n == 0 && opts.is_meta
            &&& here is JoinMeta ==> n > 0 && before is StartMeta
            &&& here is Bootstrap ==> n > 0 && before is JoinMeta && went == Outcome::Error(
                ExecError::CannotConstructClient,
            )
            &&& here is StartMembership ==> n > 0 && (before is Bootstrap || before is JoinMeta
                && went is Done)
            &&& here is ConnectMeta ==> if n == 0 {
                !opts.is_meta && !opts.standalone
            } else {
                before is StartMembership
            }
            &&& here is JoinGroup ==> n > 0 && before is ConnectMeta && went is Done
            &&& here is LoadTable ==> n > 0 && before is JoinGroup && !(went is Error)
            &&& here is InitTable ==> n > 0 && before is LoadTable && went is Done
            &&& here is LoadSchemas ==> n > 0 && before is InitTable && went is Done
            &&& here is OpenChunks ==> n > 0 && before is LoadSchemas && !(went is Error)
            &&& stage_after(*opts, outcomes, n) is Running ==> n > 0 && (before is OpenChunks
                || stage_after(*opts, outcomes, (n - 1) as nat) is Running)
        }),
{
}

/// A server that stands alone without being a meta server fails at once, and for that reason; any
/// other reason is that of the step which went wrong.
pub proof fn lemma_failure_tells_step(opts: &ServerOptions, outcomes: Seq<Outcome>, n: nat) -> (i: nat)
    requires
        stage_after(*opts, outcomes, n) is Failed,
    ensures
        ({
            let e = stage_after(*opts, outcomes, n)->Failed_0;
            let went = outcomes[i as int];
            let step = step_at(opts, outcomes, i);
            &&& e is StandaloneMustAlsoBeMetaServer <==> opts.standalone && !opts.is_meta
            &&& !(e is StandaloneMustAlsoBeMetaServer) ==> i < n && !(went is Done)
            &&& e is CannotJoinCluster ==> step is JoinMeta && went != Outcome::Error(
                ExecError::CannotConstructClient,
            )
            &&& e is CannotLoadMetaClient ==> step is ConnectMeta
            &&& e matches ServerError::CannotJoinClusterGroup(why) ==> step is JoinGroup && went
                == Outcome::Error(why)
            &&& e is CannotInitConsistentHashTable ==> step is LoadTable
            &&& e is CannotInitMemberTable ==> step is InitTable
            &&& e matches ServerError::CannotInitializeSchemaServer(why) ==> step is LoadSchemas
                && went == Outcome::Error(why)
            &&& !(e is CannotSetServerWeight)
        }),
    decreases n,
{
    if n == 0 {
        0
    } else if stage_after(*opts, outcomes, (n - 1) as nat) is Failed {
        lemma_failure_tells_step(opts, outcomes, (n - 1) as nat)
    } else {
        lemma_first_is_kept(opts, outcomes, (n - 1) as nat);
        (n - 1) as nat
    }
}

proof fn lemma_first_is_kept(opts: &ServerOptions, outcomes: Seq<Outcome>, n: nat)
    ensures
        opts.standalone && !opts.is_meta ==> stage_after(*opts, outcomes, n) is Failed,
    decreases n,
{
    if n > 0 {
        lemma_first_is_kept(opts, outcomes, (n - 1) as nat);
    }
}

/// Where every step goes well, the server runs: a meta server starts and joins the meta servers
/// first, and then every server connects to them, joins the group, loads and initializes the table,
/// loads the schemas and opens the chunks.
pub proof fn lemma_good_start_runs(opts: &ServerOptions, outcomes: Seq<Outcome>)
    requires
        opts.is_meta || !opts.standalone,
        outcomes.len() >= 9,
        forall|i: int| 0 <= i < 9 ==> #[trigger] outcomes[i] is Done,
    ensures
        ({
            let from: nat = if opts.is_meta {
                3
            } else {
                0
            };
            &&& opts.is_meta ==> step_at(opts, outcomes, 0) is StartMeta && step_at(
                opts,
                outcomes,
                1,
            ) is JoinMeta && step_at(opts, outcomes, 2) is StartMembership
            &&& step_at(opts, outcomes, from) is ConnectMeta
            &&& step_at(opts, outcomes, from + 1) is JoinGroup
            &&& step_at(opts, outcomes, from + 2) is LoadTable
            &&& step_at(opts, outcomes, from + 3) is InitTable
            &&& step_at(opts, outcomes, from + 4) is LoadSchemas
            &&& step_at(opts, outcomes, from + 5) is OpenChunks
            &&& stage_after(*opts, outcomes, from + 6) is Running
        }),
{
    reveal_with_fuel(stage_after, 10);
    assert(forall|i: int| 0 <= i < 9 ==> #[trigger] outcomes[i] is Done);
    assert(outcomes[0] is Done && outcomes[1] is Done && outcomes[2] is Done);
    assert(outcomes[3] is Done && outcomes[4] is Done && outcomes[5] is Done);
    assert(outcomes[6] is Done && outcomes[7] is Done && outcomes[8] is Done);
}

/// Without other meta servers a meta server starts a cluster of its own and goes on as if it had
/// joined one.
pub proof fn lemma_alone_bootstraps(opts: &ServerOptions, outcomes: Seq<Outcome>)
    requires
        opts.is_meta,
        outcomes.len() >= 3,
        outcomes[1] == Outcome::Error(ExecError::CannotConstructClient),
    ensures
        step_at(opts, outcomes, 2) is Bootstrap,
        step_at(opts, outcomes, 3) is StartMembership,
{
    reveal_with_fuel(stage_after, 5);
}

} // verus!
