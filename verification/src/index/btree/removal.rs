//! Taking children out of an inner node.
use super::external::same_but_nodes;
use super::grow::{child_put, put_child, split_view};
use super::node::{
    below, bound_of, duplicate_bound, keys_of, ptrs_of, right_of, EmptyNode, InView, NodeCellRef,
    NodeData,
};
use super::tree::BPlusTree;
use crate::index::key::{ascending, is_upper_bound, key_views, EntryKey};
use std::collections::BTreeSet;
use vstd::prelude::*;

verus! {

/// What is to be taken out of a row: a key under each emptied child, and the nodes that splits
/// added, each with the key that parts it from its left neighbour.
pub struct NodeRemoval {
    pub empty_pages: Vec<EntryKey>,
    pub split: Vec<(NodeCellRef, EntryKey)>,
}

#[verifier::ext_equal]
pub struct RemovalView {
    pub empty_pages: Seq<Seq<u8>>,
    pub split: Seq<(NodeCellRef, Seq<u8>)>,
}

impl View for NodeRemoval {
    type V = RemovalView;

    open spec fn view(&self) -> RemovalView {
        RemovalView {
            empty_pages: key_views(self.empty_pages@),
            split: self.split@.map_values(|s: (NodeCellRef, EntryKey)| (s.0, s.1@)),
        }
    }
}

impl NodeRemoval {
    pub fn new() -> (r: NodeRemoval)
        ensures
            r@ == (RemovalView { empty_pages: Seq::empty(), split: Seq::empty() }),
    {
        let r = NodeRemoval { empty_pages: Vec::new(), split: Vec::new() };
        assert(r@ =~= (RemovalView { empty_pages: Seq::empty(), split: Seq::empty() }));
        r
    }

    pub fn push_page(&mut self, key: EntryKey)
        ensures
            final(self)@ == (RemovalView {
                empty_pages: old(self)@.empty_pages.push(key@),
                ..old(self)@
            }),
    {
        let ghost before = self.empty_pages@;
        self.empty_pages.push(key);
        assert(key_views(self.empty_pages@) =~= key_views(before).push(key@));
    }

    pub fn push_split(&mut self, split: Option<(NodeCellRef, EntryKey)>)
        ensures
            final(self)@ == (RemovalView {
                split: match split_view(split) {
                    Some(s) => old(self)@.split.push(s),
                    None => old(self)@.split,
                },
                ..old(self)@
            }),
    {
        match split {
            Some(s) => {
                let ghost before = self@.split;
                self.split.push(s);
                assert(self@.split =~= before.push((s.0, s.1@)));
            },
            None => {},
        }
    }
}

/// The items whose positions are not in `poses`, in order.
pub open spec fn without<T>(s: Seq<T>, poses: Set<usize>) -> Seq<T>
    decreases s.len(),
{
    if s.len() == 0 {
        Seq::empty()
    } else {
        let rest = without(s.drop_last(), poses);
        if poses.contains((s.len() - 1) as usize) {
            rest
        } else {
            rest.push(s.last())
        }
    }
}

/// The first `n` items, or all if there are fewer.
pub open spec fn prefix<T>(s: Seq<T>, n: int) -> Seq<T> {
    if n < s.len() {
        s.take(n)
    } else {
        s
    }
}

/// The keys that stay between the children that stay.
pub open spec fn kept_keys(keys: Seq<Seq<u8>>, ptrs: Seq<NodeCellRef>, poses: Set<usize>) -> Seq<
    Seq<u8>,
> {
    let n = without(ptrs, poses).len() as int;
    prefix(
        without(keys, poses),
        if n == 0 {
            0
        } else {
            n - 1
        },
    )
}

/// Where a reference leads past up to `n` emptied nodes.
pub open spec fn past_empty(nodes: Seq<NodeData>, r: NodeCellRef, n: nat) -> NodeCellRef
    decreases n,
{
    if n == 0 {
        r
    } else {
        match r {
            NodeCellRef::Slot(s) => if s < nodes.len() && nodes[s as int] is Empty {
                past_empty(nodes, nodes[s as int]->Empty_0.right, (n - 1) as nat)
            } else {
                r
            },
            _ => r,
        }
    }
}

/// The arena once the emptied node at `slot` refers past the emptied nodes to its right.
pub open spec fn shortcut(nodes: Seq<NodeData>, slot: int) -> Seq<NodeData> {
    match nodes[slot] {
        NodeData::Empty(e) => nodes.update(
            slot,
            NodeData::Empty(EmptyNode { right: past_empty(nodes, e.right, nodes.len()), ..e }),
        ),
        _ => nodes,
    }
}

/// The arena once that is done for those of the first `k` references whose positions are in
/// `poses`.
pub open spec fn shortcut_all(
    nodes: Seq<NodeData>,
    ptrs: Seq<NodeCellRef>,
    poses: Set<usize>,
    k: nat,
) -> Seq<NodeData>
    decreases k,
{
    if k == 0 {
        nodes
    } else {
        let rest = shortcut_all(nodes, ptrs, poses, (k - 1) as nat);
        if poses.contains((k - 1) as usize) {
            match ptrs[k - 1] {
                NodeCellRef::Slot(s) => shortcut(rest, s as int),
                _ => rest,
            }
        } else {
            rest
        }
    }
}

/// Shortcuts touch emptied nodes only, and of those only the ones that are referred to.
pub proof fn lemma_shortcut_frame(
    nodes: Seq<NodeData>,
    ptrs: Seq<NodeCellRef>,
    poses: Set<usize>,
    k: nat,
)
    requires
        k <= ptrs.len(),
        forall|i: int|
            0 <= i < k ==> (#[trigger] ptrs[i] matches NodeCellRef::Slot(s) ==> s < nodes.len()),
    ensures
        shortcut_all(nodes, ptrs, poses, k).len() == nodes.len(),
        forall|x: int|
            0 <= x < nodes.len() ==> {
                let after = #[trigger] shortcut_all(nodes, ptrs, poses, k)[x];
                &&& !(nodes[x] is Empty) ==> after == nodes[x]
                &&& nodes[x] is Empty ==> after is Empty && after->Empty_0.left
                    == nodes[x]->Empty_0.left
                &&& (forall|i: int| 0 <= i < k ==> #[trigger] ptrs[i] != NodeCellRef::Slot(x as usize))
                    ==> after == nodes[x]
            },
    decreases k,
{
    if k > 0 {
        lemma_shortcut_frame(nodes, ptrs, poses, (k - 1) as nat);
        let rest = shortcut_all(nodes, ptrs, poses, (k - 1) as nat);
        assert(ptrs[k - 1] == ptrs[k - 1]);
        assert forall|x: int| 0 <= x < nodes.len() implies {
            let after = #[trigger] shortcut_all(nodes, ptrs, poses, k)[x];
            &&& !(nodes[x] is Empty) ==> after == nodes[x]
            &&& nodes[x] is Empty ==> after is Empty && after->Empty_0.left == nodes[x]->Empty_0.left
            &&& (forall|i: int| 0 <= i < k ==> #[trigger] ptrs[i] != NodeCellRef::Slot(x as usize))
                ==> after == nodes[x]
        } by {
            assert(rest[x] == rest[x]);
        }
    }
}

/// Where emptied nodes lead, more steps lead too.
proof fn lemma_past_stable(nodes: Seq<NodeData>, r: NodeCellRef, n: nat, k: nat, t: int)
    requires
        past_empty(nodes, r, n) == NodeCellRef::Slot(t as usize),
        0 <= t < nodes.len() <= usize::MAX,
        !(nodes[t] is Empty),
        n <= k,
    ensures
        past_empty(nodes, r, k) == NodeCellRef::Slot(t as usize),
    decreases n,
{
    if n > 0 {
        match r {
            NodeCellRef::Slot(s) => {
                if s < nodes.len() && nodes[s as int] is Empty {
                    lemma_past_stable(
                        nodes,
                        nodes[s as int]->Empty_0.right,
                        (n - 1) as nat,
                        (k - 1) as nat,
                        t,
                    );
                }
            },
            _ => {},
        }
    }
}

/// A shortcut leads to where the emptied nodes led before.
proof fn lemma_shortcut_leads(nodes: Seq<NodeData>, x: int, r: NodeCellRef, n: nat, t: int)
    requires
        0 <= x < nodes.len() <= usize::MAX,
        n <= nodes.len(),
        past_empty(nodes, r, n) == NodeCellRef::Slot(t as usize),
        0 <= t < nodes.len(),
        !(nodes[t] is Empty),
    ensures
        past_empty(shortcut(nodes, x), r, n) == NodeCellRef::Slot(t as usize),
    decreases n,
{
    let after = shortcut(nodes, x);
    if n > 0 {
        match r {
            NodeCellRef::Slot(s) => {
                if s < nodes.len() && nodes[s as int] is Empty {
                    let right = nodes[s as int]->Empty_0.right;
                    if s == x {
                        lemma_past_stable(nodes, right, (n - 1) as nat, nodes.len(), t);
                        let goal = NodeCellRef::Slot(t as usize);
                        assert(after[t] == nodes[t]);
                        assert(past_empty(after, goal, (n - 1) as nat) == goal);
                        assert(after[x]->Empty_0.right == goal);
                    } else {
                        lemma_shortcut_leads(nodes, x, right, (n - 1) as nat, t);
                    }
                }
            },
            _ => {},
        }
    }
}

/// Shortcuts lead to where the emptied nodes led before.
proof fn lemma_shortcuts_lead(
    nodes: Seq<NodeData>,
    ptrs: Seq<NodeCellRef>,
    poses: Set<usize>,
    k: nat,
    r: NodeCellRef,
    t: int,
)
    requires
        k <= ptrs.len(),
        nodes.len() <= usize::MAX,
        forall|i: int|
            0 <= i < k ==> (#[trigger] ptrs[i] matches NodeCellRef::Slot(s) ==> s < nodes.len()),
        past_empty(nodes, r, nodes.len()) == NodeCellRef::Slot(t as usize),
        0 <= t < nodes.len(),
        !(nodes[t] is Empty),
    ensures
        past_empty(shortcut_all(nodes, ptrs, poses, k), r, nodes.len()) == NodeCellRef::Slot(
            t as usize,
        ),
    decreases k,
{
    if k > 0 {
        lemma_shortcuts_lead(nodes, ptrs, poses, (k - 1) as nat, r, t);
        let rest = shortcut_all(nodes, ptrs, poses, (k - 1) as nat);
        lemma_shortcut_frame(nodes, ptrs, poses, (k - 1) as nat);
        assert(rest[t] == nodes[t]);
        match ptrs[k - 1] {
            NodeCellRef::Slot(s) => {
                lemma_shortcut_leads(rest, s as int, r, nodes.len(), t);
            },
            _ => {},
        }
    }
}

/// Emptied nodes lead to the same place when a node that is not emptied changes.
proof fn lemma_same_empties(a: Seq<NodeData>, b: Seq<NodeData>, r: NodeCellRef, n: nat, slot: int)
    requires
        a.len() == b.len(),
        0 <= slot < a.len(),
        !(a[slot] is Empty),
        !(b[slot] is Empty),
        forall|x: int| 0 <= x < a.len() && x != slot ==> #[trigger] a[x] == b[x],
    ensures
        past_empty(a, r, n) == past_empty(b, r, n),
    decreases n,
{
    if n > 0 {
        match r {
            NodeCellRef::Slot(s) => {
                if s < a.len() && s != slot {
                    assert(a[s as int] == b[s as int]);
                }
                if s < a.len() && a[s as int] is Empty {
                    lemma_same_empties(a, b, a[s as int]->Empty_0.right, (n - 1) as nat, slot);
                }
            },
            _ => {},
        }
    }
}

fn skip_empty(nodes: &Vec<NodeData>, r: NodeCellRef) -> (out: NodeCellRef)
    ensures
        out == past_empty(nodes@, r, nodes@.len()),
{
    let mut at = r;
    let mut left: usize = nodes.len();
    assert(nodes.len() == nodes@.len());
    while left > 0
        invariant
            past_empty(nodes@, r, nodes@.len()) == past_empty(nodes@, at, left as nat),
        decreases left,
    {
        match at {
            NodeCellRef::Slot(s) => {
                if s >= nodes.len() {
                    return at;
                }
                match &nodes[s] {
                    NodeData::Empty(e) => {
                        at = e.right;
                    },
                    _ => {
                        return at;
                    },
                }
            },
            _ => {
                return at;
            },
        }
        left -= 1;
    }
    at
}

/// Lets the emptied node at `slot` refer past the emptied nodes to its right.
fn take_shortcut(nodes: &mut Vec<NodeData>, slot: usize)
    requires
        slot < old(nodes)@.len(),
    ensures
        final(nodes)@ == shortcut(old(nodes)@, slot as int),
{
    let ghost before = nodes@;
    let right = match &nodes[slot] {
        NodeData::Empty(e) => skip_empty(nodes, e.right),
        _ => {
            return ;
        },
    };
    match &mut nodes[slot] {
        NodeData::Empty(e) => {
            e.right = right;
        },
        _ => {},
    }
    assert(nodes@ =~= shortcut(before, slot as int));
}

fn filter_ptrs(ptrs: &Vec<NodeCellRef>, poses: &BTreeSet<usize>) -> (out: Vec<NodeCellRef>)
    ensures
        out@ == without(ptrs@, poses@),
{
    broadcast use vstd::std_specs::btree::group_btree_axioms;

    let mut out: Vec<NodeCellRef> = Vec::new();
    let mut i: usize = 0;
    while i < ptrs.len()
        invariant
            i <= ptrs@.len(),
            out@ == without(ptrs@.take(i as int), poses@),
        decreases ptrs@.len() - i,
    {
        broadcast use vstd::std_specs::btree::group_btree_axioms;

        assert(ptrs@.take(i + 1).drop_last() =~= ptrs@.take(i as int));
        if !poses.contains(&i) {
            out.push(ptrs[i]);
        }
        i += 1;
    }
    assert(ptrs@.take(i as int) =~= ptrs@);
    out
}

fn filter_keys(keys: &Vec<EntryKey>, poses: &BTreeSet<usize>, limit: usize) -> (out: Vec<EntryKey>)
    ensures
        key_views(out@) == prefix(without(key_views(keys@), poses@), limit as int),
{
    let ghost all = key_views(keys@);
    let mut out: Vec<EntryKey> = Vec::new();
    let mut i: usize = 0;
    assert(key_views(out@) =~= prefix(without(all.take(0), poses@), limit as int));
    while i < keys.len()
        invariant
            i <= keys@.len(),
            all == key_views(keys@),
            key_views(out@) == prefix(without(all.take(i as int), poses@), limit as int),
        decreases keys@.len() - i,
    {
        broadcast use vstd::std_specs::btree::group_btree_axioms;

        let ghost before = out@;
        assert(all.take(i + 1).drop_last() =~= all.take(i as int));
        assert(all.take(i + 1).last() == keys@[i as int]@);
        let ghost kept = without(all.take(i as int), poses@);
        if !poses.contains(&i) {
            if out.len() < limit {
                assert(kept.len() < limit) by {
                    assert(key_views(before).len() == before.len());
                }
                out.push(keys[i].duplicate());
                assert(key_views(out@) =~= key_views(before).push(keys@[i as int]@));
            } else {
                assert(kept.len() >= limit) by {
                    assert(key_views(before).len() == before.len());
                }
                assert(prefix(kept.push(keys@[i as int]@), limit as int) =~= prefix(
                    kept,
                    limit as int,
                ));
            }
        }
        i += 1;
    }
    assert(all.take(i as int) =~= all);
    out
}

/// An inner node loses exactly as many keys as it loses children, but for the last child.
pub proof fn lemma_kept_len(keys: Seq<Seq<u8>>, ptrs: Seq<NodeCellRef>, poses: Set<usize>)
    requires
        ptrs.len() == keys.len() + 1,
    ensures
        kept_keys(keys, ptrs, poses).len() == if without(ptrs, poses).len() == 0 {
            0
        } else {
            without(ptrs, poses).len() - 1
        },
{
    lemma_without_len(keys, ptrs.drop_last(), poses);
}

proof fn lemma_without_len(keys: Seq<Seq<u8>>, ptrs: Seq<NodeCellRef>, poses: Set<usize>)
    requires
        ptrs.len() == keys.len(),
    ensures
        without(keys, poses).len() == without(ptrs, poses).len(),
    decreases keys.len(),
{
    if keys.len() > 0 {
        lemma_without_len(keys.drop_last(), ptrs.drop_last(), poses);
    }
}

/// The node to the right, in which an only child will be put.
pub open spec fn right_node_ok(nodes: Seq<NodeData>, slot: int) -> bool {
    let n = nodes[slot];
    &&& bound_of(n) is Some
    &&& past_empty(nodes, right_of(n), nodes.len()) matches NodeCellRef::Slot(t) && {
        &&& t < nodes.len()
        &&& t != slot
        &&& nodes[t as int] is Internal
        &&& ascending(keys_of(nodes[t as int]))
        &&& ptrs_of(nodes[t as int]).len() == keys_of(nodes[t as int]).len() + 1
        &&& below(bound_of(n)->0, bound_of(nodes[t as int]))
    }
}

/// `mid` is the arena once the inner node at `slot` has no child left.
pub open spec fn given_away(nodes: Seq<NodeData>, mid: Seq<NodeData>, slot: int) -> bool {
    &&& mid.len() == nodes.len()
    &&& mid[slot] is Internal
    &&& mid[slot]->Internal_0@ == (InView { ptrs: Seq::empty(), ..nodes[slot]->Internal_0@ })
    &&& forall|x: int| 0 <= x < nodes.len() && x != slot ==> #[trigger] mid[x] == nodes[x]
}

/// What giving the only child of the node at `slot` to its right neighbour comes to: the node has
/// no child left, and the neighbour holds it.
pub open spec fn remnant_given(
    nodes: Seq<NodeData>,
    after: Seq<NodeData>,
    page_size: int,
    slot: int,
    r: Option<(NodeCellRef, Seq<u8>)>,
) -> bool {
    let n = nodes[slot];
    let t = past_empty(nodes, right_of(n), nodes.len())->Slot_0 as int;
    exists|mid: Seq<NodeData>, pos: int|
        #[trigger] given_away(nodes, mid, slot) && #[trigger] is_upper_bound(
            keys_of(nodes[t]),
            bound_of(n)->0,
            pos,
        ) && child_put(
            mid,
            after,
            page_size,
            t,
            bound_of(n)->0,
            ptrs_of(n)[0],
            pos,
            0,
            r,
        )
}

/// Notes that the node at `slot`, which has no keys left, goes, and gives its last child, if it
/// still has one, to the node to its right.
fn merge_innode_remnant(
    tree: &mut BPlusTree,
    slot: usize,
    prev_key: &EntryKey,
    removal: &mut NodeRemoval,
)
    requires
        slot < old(tree).nodes@.len(),
        old(tree).nodes@[slot as int] is Internal,
        keys_of(old(tree).nodes@[slot as int]).len() == 0,
        ptrs_of(old(tree).nodes@[slot as int]).len() <= 1,
        ptrs_of(old(tree).nodes@[slot as int]).len() == 1 ==> right_node_ok(
            old(tree).nodes@,
            slot as int,
        ),
    ensures
        same_but_nodes(*final(tree), *old(tree)),
        final(removal)@.empty_pages == old(removal)@.empty_pages.push(prev_key@),
        ptrs_of(final(tree).nodes@[slot as int]).len() == 0,
        ptrs_of(old(tree).nodes@[slot as int]).len() == 0 ==> {
            &&& final(tree).nodes@ == old(tree).nodes@
            &&& final(removal)@.split == old(removal)@.split
        },
        ptrs_of(old(tree).nodes@[slot as int]).len() == 1 ==> exists|
            r: Option<(NodeCellRef, Seq<u8>)>,
        | #[trigger]
            remnant_given(
                old(tree).nodes@,
                final(tree).nodes@,
                old(tree).page_size as int,
                slot as int,
                r,
            ) && final(removal)@.split == (match r {
                Some(s) => old(removal)@.split.push(s),
                None => old(removal)@.split,
            }),
{
    removal.push_page(prev_key.duplicate());
    let (bound, right) = match &tree.nodes[slot] {
        NodeData::Internal(node) => {
            if node.ptrs.len() == 0 {
                return ;
            }
            (duplicate_bound(&node.right_bound), skip_empty(&tree.nodes, node.right))
        },
        _ => {
            assert(false);
            return ;
        },
    };
    let key = match bound {
        Some(k) => k,
        None => {
            assert(false);
            return ;
        },
    };
    let next: usize = match right {
        NodeCellRef::Slot(t) => t,
        _ => {
            assert(false);
            return ;
        },
    };
    let pos: usize = match &tree.nodes[next] {
        NodeData::Internal(node) => node.search(&key),
        _ => {
            assert(false);
            return ;
        },
    };
    let ghost before = tree.nodes@;
    let child = match &mut tree.nodes[slot] {
        NodeData::Internal(node) => match node.ptrs.pop() {
            Some(child) => child,
            None => NodeCellRef::Nil,
        },
        _ => NodeCellRef::Nil,
    };
    let ghost mid = tree.nodes@;
    assert(given_away(before, mid, slot as int)) by {
        assert(mid[slot as int]->Internal_0.ptrs@ =~= Seq::<NodeCellRef>::empty());
    }
    let split = put_child(tree, next, key, child, pos, false);
    assert(is_upper_bound(keys_of(before[next as int]), bound_of(before[slot as int])->0, pos as int));
    assert(remnant_given(
        before,
        tree.nodes@,
        old(tree).page_size as int,
        slot as int,
        split_view(split),
    ));
    removal.push_split(split);
}

/// `after` and `out` are what taking the children at `poses` out of the inner node at `slot` makes
/// of the arena and of what is left to the row above.
#[verifier::opaque]
pub open spec fn removal_applied(
    nodes: Seq<NodeData>,
    after: Seq<NodeData>,
    page_size: int,
    slot: int,
    poses: Set<usize>,
    given: RemovalView,
    out: RemovalView,
    prev: Option<Seq<u8>>,
    shortcuts: bool,
) -> bool {
    if poses.is_empty() {
        after == nodes && out == given
    } else {
        let n = nodes[slot]->Internal_0;
        let ptrs = without(n@.ptrs, poses);
        let keys = kept_keys(n@.keys, n@.ptrs, poses);
        let base = if shortcuts {
            shortcut_all(nodes, n@.ptrs, poses, n@.ptrs.len())
        } else {
            nodes
        };
        let emptied = NodeData::Empty(EmptyNode { left: None, right: n.right });
        if keys.len() > 0 {
            &&& out == given
            &&& after.len() == base.len()
            &&& after[slot] is Internal
            &&& after[slot]->Internal_0@ == (InView { keys, ptrs, ..n@ })
            &&& forall|x: int| 0 <= x < base.len() && x != slot ==> #[trigger] after[x] == base[x]
        } else {
            match prev {
                None => out == given && after == base.update(slot, emptied),
                Some(k) => {
                    &&& out.empty_pages == given.empty_pages.push(k)
                    &&& if ptrs.len() == 0 {
                        out.split == given.split && after == base.update(slot, emptied)
                    } else {
                        exists|bare: Seq<NodeData>, put: Seq<NodeData>, r: Option<
                            (NodeCellRef, Seq<u8>),
                        >|
                            {
                                &&& bare.len() == base.len()
                                &&& bare[slot] is Internal
                                &&& bare[slot]->Internal_0@ == (InView { keys, ptrs, ..n@ })
                                &&& forall|x: int|
                                    0 <= x < base.len() && x != slot ==> #[trigger] bare[x] == base[x]
                                &&& #[trigger] remnant_given(bare, put, page_size, slot, r)
                                &&& after == put.update(slot, emptied)
                                &&& out.split == (match r {
                                    Some(s) => given.split.push(s),
                                    None => given.split,
                                })
                            }
                    }
                },
            }
        }
    }
}

/// The keys that a row above will need: `None` only before the first one.
pub open spec fn opt_ref(key: Option<&EntryKey>) -> Option<Seq<u8>> {
    match key {
        Some(k) => Some(k@),
        None => None,
    }
}

/// Takes the children at `poses` out of the inner node at `slot`. A node without keys goes: the row
/// above is told of `prev_key`, and a child that is left moves to the right. With
/// `remove_children_right_nodes` the children that go, which are emptied nodes, no longer refer to
/// each other.
pub(crate) fn apply_removal(
    tree: &mut BPlusTree,
    slot: usize,
    poses: &mut BTreeSet<usize>,
    node_removal: &mut NodeRemoval,
    prev_key: Option<&EntryKey>,
    remove_children_right_nodes: bool,
)
    requires
        slot < old(tree).nodes@.len(),
        old(tree).nodes@[slot as int] is Internal,
        ({
            let n = old(tree).nodes@[slot as int];
            let poses = old(poses)@;
            &&& ptrs_of(n).len() == keys_of(n).len() + 1
            &&& remove_children_right_nodes ==> forall|i: int|
                0 <= i < ptrs_of(n).len() ==> (#[trigger] ptrs_of(n)[i] matches NodeCellRef::Slot(s)
                    ==> s < old(tree).nodes@.len())
            &&& !poses.is_empty() && prev_key is Some && without(ptrs_of(n), poses).len() == 1
                ==> right_node_ok(old(tree).nodes@, slot as int)
        }),
    ensures
        same_but_nodes(*final(tree), *old(tree)),
        final(poses)@ == Set::<usize>::empty(),
        removal_applied(
            old(tree).nodes@,
            final(tree).nodes@,
            old(tree).page_size as int,
            slot as int,
            old(poses)@,
            old(node_removal)@,
            final(node_removal)@,
            opt_ref(prev_key),
            remove_children_right_nodes,
        ),
{
    broadcast use vstd::std_specs::btree::group_btree_axioms;

    proof {
        reveal(removal_applied);
    }
    if poses.is_empty() {
        assert(poses@ =~= Set::<usize>::empty());
        return ;
    }
    let ghost before = tree.nodes@;
    let ghost n = before[slot as int]->Internal_0;
    let ghost gone = poses@;
    let (ptrs, keys, old_ptrs, right) = match &tree.nodes[slot] {
        NodeData::Internal(node) => {
            let ptrs = filter_ptrs(&node.ptrs, poses);
            let limit: usize = if ptrs.len() == 0 {
                0
            } else {
                ptrs.len() - 1
            };
            let keys = filter_keys(&node.keys, poses, limit);
            (ptrs, keys, copy_ptrs(&node.ptrs), node.right)
        },
        _ => {
            assert(false);
            return ;
        },
    };
    if remove_children_right_nodes {
        drop_child_links(&mut tree.nodes, &old_ptrs, poses);
        proof {
            lemma_shortcut_frame(before, n@.ptrs, gone, n@.ptrs.len());
        }
    }
    let ghost base = tree.nodes@;
    assert(base[slot as int] == before[slot as int]);
    let none_left = keys.len() == 0;
    let some_child = ptrs.len() > 0;
    proof {
        lemma_kept_len(n@.keys, n@.ptrs, gone);
        assert(key_views(keys@) == kept_keys(n@.keys, n@.ptrs, gone));
    }
    match &mut tree.nodes[slot] {
        NodeData::Internal(node) => {
            node.keys = keys;
            node.ptrs = ptrs;
        },
        _ => {},
    }
    let ghost bare = tree.nodes@;
    let ghost given = node_removal@;
    if none_left {
        let ghost mut put = bare;
        match prev_key {
            Some(k) => {
                proof {
                    if some_child {
                        let t = past_empty(before, n.right, before.len())->Slot_0 as int;
                        assert(tree.nodes.len() == before.len());
                        if remove_children_right_nodes {
                            lemma_shortcuts_lead(before, n@.ptrs, gone, n@.ptrs.len(), n.right, t);
                        }
                        lemma_same_empties(base, bare, n.right, base.len(), slot as int);
                        assert(bare[t] == before[t]);
                        assert(right_node_ok(bare, slot as int));
                    }
                }
                merge_innode_remnant(tree, slot, k, node_removal);
                proof {
                    put = tree.nodes@;
                }
            },
            None => {},
        }
        let ghost emptied = NodeData::Empty(EmptyNode { left: None, right });
        tree.nodes[slot] = NodeData::Empty(EmptyNode { left: None, right });
        proof {
            assert(tree.nodes@ =~= put.update(slot as int, emptied));
            if prev_key is None || !some_child {
                assert(tree.nodes@ =~= base.update(slot as int, emptied));
            }
        }
    }
    poses.clear();
}

/// Whether the inner node at `slot` has no neighbour to its right and one child left when the
/// children at `poses` go.
pub(crate) fn last_child_alone(nodes: &Vec<NodeData>, slot: usize, poses: &BTreeSet<usize>) -> (r: bool)
    requires
        slot < nodes@.len(),
        nodes@[slot as int] is Internal,
    ensures
        r == (without(ptrs_of(nodes@[slot as int]), poses@).len() == 1 && !(right_of(
            nodes@[slot as int],
        ) is Slot)),
{
    match &nodes[slot] {
        NodeData::Internal(node) => {
            let alone = match node.right {
                NodeCellRef::Slot(_) => false,
                _ => true,
            };
            alone && filter_ptrs(&node.ptrs, poses).len() == 1
        },
        _ => false,
    }
}

/// Takes the children at `poses` out of the inner node at `slot`, which stays.
pub(crate) fn drop_children(tree: &mut BPlusTree, slot: usize, poses: &BTreeSet<usize>)
    requires
        slot < old(tree).nodes@.len(),
        old(tree).nodes@[slot as int] is Internal,
    ensures
        same_but_nodes(*final(tree), *old(tree)),
        final(tree).nodes@.len() == old(tree).nodes@.len(),
        final(tree).nodes@[slot as int] is Internal,
        ({
            let n = old(tree).nodes@[slot as int]->Internal_0@;
            final(tree).nodes@[slot as int]->Internal_0@ == (InView {
                keys: kept_keys(n.keys, n.ptrs, poses@),
                ptrs: without(n.ptrs, poses@),
                ..n
            })
        }),
        forall|x: int|
            0 <= x < old(tree).nodes@.len() && x != slot ==> #[trigger] final(tree).nodes@[x] == old(
                tree,
            ).nodes@[x],
{
    let (ptrs, keys) = match &tree.nodes[slot] {
        NodeData::Internal(node) => {
            let ptrs = filter_ptrs(&node.ptrs, poses);
            let limit: usize = if ptrs.len() == 0 {
                0
            } else {
                ptrs.len() - 1
            };
            (ptrs, filter_keys(&node.keys, poses, limit))
        },
        _ => {
            assert(false);
            return ;
        },
    };
    match &mut tree.nodes[slot] {
        NodeData::Internal(node) => {
            node.keys = keys;
            node.ptrs = ptrs;
        },
        _ => {},
    }
}

fn copy_ptrs(ptrs: &Vec<NodeCellRef>) -> (out: Vec<NodeCellRef>)
    ensures
        out@ == ptrs@,
{
    let mut out: Vec<NodeCellRef> = Vec::new();
    let mut i: usize = 0;
    while i < ptrs.len()
        invariant
            i <= ptrs@.len(),
            out@ == ptrs@.take(i as int),
        decreases ptrs@.len() - i,
    {
        assert(ptrs@.take(i + 1) =~= ptrs@.take(i as int).push(ptrs@[i as int]));
        out.push(ptrs[i]);
        i += 1;
    }
    assert(ptrs@.take(i as int) =~= ptrs@);
    out
}

/// Unlinks the children that go from each other.
fn drop_child_links(nodes: &mut Vec<NodeData>, ptrs: &Vec<NodeCellRef>, poses: &BTreeSet<usize>)
    requires
        forall|i: int|
            0 <= i < ptrs@.len() ==> (#[trigger] ptrs@[i] matches NodeCellRef::Slot(s) ==> s < old(
                nodes,
            )@.len()),
    ensures
        final(nodes)@ == shortcut_all(old(nodes)@, ptrs@, poses@, ptrs@.len()),
{
    let ghost before = nodes@;
    let mut i: usize = 0;
    while i < ptrs.len()
        invariant
            i <= ptrs@.len(),
            nodes@ == shortcut_all(before, ptrs@, poses@, i as nat),
            forall|i: int|
                0 <= i < ptrs@.len() ==> (#[trigger] ptrs@[i] matches NodeCellRef::Slot(s) ==> s
                    < before.len()),
        decreases ptrs@.len() - i,
    {
        broadcast use vstd::std_specs::btree::group_btree_axioms;

        proof {
            lemma_shortcut_frame(before, ptrs@, poses@, i as nat);
        }
        if poses.contains(&i) {
            match ptrs[i] {
                NodeCellRef::Slot(s) => {
                    assert(ptrs@[i as int] == NodeCellRef::Slot(s));
                    take_shortcut(nodes, s);
                },
                _ => {},
            }
        }
        i += 1;
    }
}

/// Of a run without some positions all the others stay, in their order, and none else.
pub proof fn lemma_without_places<T>(s: Seq<T>, poses: Set<usize>) -> (places: Seq<int>)
    requires
        s.len() <= usize::MAX,
    ensures
        places.len() == without(s, poses).len(),
        forall|a: int, b: int|
            0 <= a < b < places.len() ==> #[trigger] places[a] < #[trigger] places[b],
        forall|a: int|
            0 <= a < places.len() ==> {
                &&& 0 <= #[trigger] places[a] < s.len()
                &&& !poses.contains(places[a] as usize)
                &&& s[places[a]] == without(s, poses)[a]
            },
        forall|i: int|
            0 <= i < s.len() && !poses.contains(#[trigger] (i as usize)) ==> places.contains(i),
    decreases s.len(),
{
    if s.len() == 0 {
        Seq::empty()
    } else {
        let last = s.len() - 1;
        let before = lemma_without_places(s.drop_last(), poses);
        if poses.contains(last as usize) {
            before
        } else {
            let places = before.push(last);
            assert forall|i: int|
                0 <= i < s.len() && !poses.contains(#[trigger] (i as usize)) implies places.contains(i) by {
                if i < last {
                    let a = choose|a: int| 0 <= a < before.len() && before[a] == i;
                    assert(places[a] == i);
                } else {
                    assert(places[before.len() as int] == i);
                }
            }
            places
        }
    }
}

/// A reference leads past emptied nodes, and past nothing else.
pub proof fn lemma_past_empty(nodes: Seq<NodeData>, r: NodeCellRef, n: nat)
    ensures
        past_empty(nodes, r, 0) == r,
        n > 0 ==> (r matches NodeCellRef::Slot(s) ==> (s < nodes.len() && nodes[s as int] is Empty
            ==> past_empty(nodes, r, n) == past_empty(
            nodes,
            nodes[s as int]->Empty_0.right,
            (n - 1) as nat,
        ))),
        r matches NodeCellRef::Slot(s) ==> (s >= nodes.len() || !(nodes[s as int] is Empty)
            ==> past_empty(nodes, r, n) == r),
        !(r is Slot) ==> past_empty(nodes, r, n) == r,
{
}

/// What becomes of an inner node that loses children: with a key left it stays, with the children
/// that do not go; else it is emptied, and leads to where the node to its right was. Only a node that
/// goes is told to the row above, and only if the key before it is known.
pub proof fn lemma_removal_outcome(
    nodes: Seq<NodeData>,
    after: Seq<NodeData>,
    page_size: int,
    slot: int,
    poses: Set<usize>,
    given: RemovalView,
    out: RemovalView,
    prev: Option<Seq<u8>>,
    shortcuts: bool,
)
    requires
        removal_applied(nodes, after, page_size, slot, poses, given, out, prev, shortcuts),
        0 <= slot < nodes.len() <= usize::MAX,
        nodes[slot] is Internal,
        forall|i: int|
            0 <= i < ptrs_of(nodes[slot]).len() ==> (
            #[trigger] ptrs_of(nodes[slot])[i] matches NodeCellRef::Slot(s) ==> s < nodes.len()),
    ensures
        poses.is_empty() ==> after == nodes && out == given,
        !poses.is_empty() ==> {
            let n = nodes[slot]->Internal_0;
            let left = kept_keys(n@.keys, n@.ptrs, poses);
            &&& left.len() > 0 ==> {
                &&& after[slot] is Internal
                &&& after[slot]->Internal_0@.keys == left
                &&& after[slot]->Internal_0@.ptrs == without(n@.ptrs, poses)
                &&& right_of(after[slot]) == right_of(nodes[slot])
                &&& bound_of(after[slot]) == bound_of(nodes[slot])
                &&& out == given
            }
            &&& left.len() == 0 && (prev is None || without(n@.ptrs, poses).len() == 0) ==> {
                &&& after[slot] == NodeData::Empty(EmptyNode { left: None, right: n.right })
            }
            &&& left.len() == 0 ==> out.empty_pages == match prev {
                Some(k) => given.empty_pages.push(k),
                None => given.empty_pages,
            }
        },
{
    reveal(removal_applied);
    if !poses.is_empty() {
        let n = nodes[slot]->Internal_0;
        assert forall|i: int| 0 <= i < n@.ptrs.len() implies (
        #[trigger] n@.ptrs[i] matches NodeCellRef::Slot(s) ==> s < nodes.len()) by {
            assert(ptrs_of(nodes[slot])[i] == n@.ptrs[i]);
        }
        lemma_shortcut_frame(nodes, n@.ptrs, poses, n@.ptrs.len());
    }
}

} // verus!
