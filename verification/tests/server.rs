use neb::ram::schema::map::SchemasMap;
use neb::ram::types::Id;
use neb::server::startup::{
    member_name, placing_word, server_address, Action, ExecError, LookupError, Outcome, ServerError,
    ServerMeta, ServerOptions, Stage,
};

fn options(is_meta: bool, standalone: bool) -> ServerOptions {
    ServerOptions {
        chunk_count: 2,
        memory_size: 4096,
        standalone,
        is_meta,
        meta_members: vec!["m:1".to_string()],
        address: "a:1".to_string(),
        backup_storage: None,
        meta_storage: Some("disk".to_string()),
        group_name: "g".to_string(),
    }
}

fn failure() -> Outcome {
    Outcome::Error(ExecError::Other("no".to_string()))
}

/// Runs a start-up in which the step with the given name has the given outcome and all others go
/// well; gives the names of the steps and the last stage.
fn run(opts: &ServerOptions, at: &str, outcome: Outcome) -> (Vec<String>, Stage) {
    let mut stage = Stage::first(opts);
    let mut steps = vec![];
    let mut special = Some(outcome);
    for _ in 0..20 {
        let name = match stage.action(opts) {
            Action::Finished => break,
            action => format!("{:?}", action).split(' ').next().unwrap().to_string(),
        };
        let o = if name == at { special.take().unwrap() } else { Outcome::Done };
        steps.push(name);
        stage = stage.advance(o);
    }
    (steps, stage)
}

#[test]
fn a_meta_server_comes_up() {
    let (steps, stage) = run(&options(true, true), "", Outcome::Done);
    assert!(matches!(stage, Stage::Running));
    assert_eq!(
        steps,
        vec![
            "StartMeta", "JoinMeta", "StartMembership", "ConnectMeta", "JoinGroup", "LoadTable",
            "InitTable", "LoadSchemas", "OpenChunks"
        ]
    );
}

#[test]
fn the_first_meta_server_starts_a_cluster() {
    let alone = Outcome::Error(ExecError::CannotConstructClient);
    let (steps, stage) = run(&options(true, false), "JoinMeta", alone);
    assert!(matches!(stage, Stage::Running));
    assert_eq!(steps[2], "Bootstrap");
    assert_eq!(steps.len(), 10);
}

#[test]
fn other_servers_start_with_the_cluster() {
    let (steps, stage) = run(&options(false, false), "", Outcome::Done);
    assert!(matches!(stage, Stage::Running));
    assert_eq!(steps[0], "ConnectMeta");
}

#[test]
fn a_server_that_stands_alone_must_be_a_meta_server() {
    let (steps, stage) = run(&options(false, true), "", Outcome::Done);
    assert!(steps.is_empty());
    assert!(matches!(stage, Stage::Failed(ServerError::StandaloneMustAlsoBeMetaServer)));
}

#[test]
fn each_failure_has_its_error() {
    let o = options(true, false);
    let failed = |at: &str, outcome: Outcome| match run(&o, at, outcome).1 {
        Stage::Failed(e) => e,
        _ => panic!("the server came up"),
    };
    assert!(matches!(failed("JoinMeta", failure()), ServerError::CannotJoinCluster));
    assert!(matches!(failed("JoinMeta", Outcome::Refused), ServerError::CannotJoinCluster));
    assert!(matches!(failed("ConnectMeta", failure()), ServerError::CannotLoadMetaClient));
    match failed("JoinGroup", failure()) {
        ServerError::CannotJoinClusterGroup(ExecError::Other(text)) => assert_eq!(text, "no"),
        _ => panic!("another error"),
    }
    assert!(matches!(failed("LoadTable", failure()), ServerError::CannotInitConsistentHashTable));
    assert!(matches!(failed("InitTable", failure()), ServerError::CannotInitMemberTable));
    assert!(matches!(
        failed("LoadSchemas", Outcome::Error(ExecError::CannotConstructClient)),
        ServerError::CannotInitializeSchemaServer(ExecError::CannotConstructClient)
    ));
    assert!(matches!(run(&o, "JoinGroup", Outcome::Refused).1, Stage::Running));
}

#[test]
fn actions_are_done_with_the_options() {
    let o = options(true, false);
    match Stage::StartMeta.action(&o) {
        Action::StartMeta { address, disk, group } => {
            assert_eq!((address.as_str(), group.as_str()), ("a:1", "g"));
            assert_eq!(disk.as_deref(), Some("disk"));
        }
        _ => panic!("another action"),
    }
    assert!(matches!(Stage::InitTable.action(&o), Action::InitTable { weight: 4096, .. }));
    assert!(matches!(Stage::OpenChunks.action(&o), Action::OpenChunks { count: 2, size: 4096, .. }));
    let failed = Stage::Failed(ServerError::CannotSetServerWeight).advance(Outcome::Done);
    assert!(matches!(failed, Stage::Failed(ServerError::CannotSetServerWeight)));
    assert!(matches!(Stage::Running.advance(failure()), Stage::Running));
}

#[test]
fn servers_are_found() {
    let alone = "alone".to_string();
    assert_eq!(server_address(&options(true, true), &alone), "alone");
    assert_eq!(server_address(&options(true, false), &alone), "a:1");
    assert_eq!(placing_word(&Id::new(5, 6)), 5);
    assert_eq!(member_name(Some("s".to_string())), Ok("s".to_string()));
    assert_eq!(member_name(None), Err(LookupError::NoSuchServer));
    let meta = ServerMeta { schemas: SchemasMap::new() };
    assert!(meta.schemas.get(&1).is_none());
}
