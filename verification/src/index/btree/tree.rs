//! The tree: an arena of nodes, the keys marked as deleted, and pages that await storage.
use super::node::{keys_of, NodeData};
use super::shape::{flat, leaf_link, lemma_leaf_link, shape_ok};
use crate::index::key::EntryKey;
use crate::ram::types::Id;
use vstd::prelude::*;

verus! {

/// A set of keys that are in a tree but no longer count as present.
pub struct DeletionSet {
    pub keys: Vec<EntryKey>,
}

impl View for DeletionSet {
    type V = Set<Seq<u8>>;

    open spec fn view(&self) -> Set<Seq<u8>> {
        Set::new(|k: Seq<u8>| exists|i: int| 0 <= i < self.keys@.len() && #[trigger] self.keys@[i]@ == k)
    }
}

impl DeletionSet {
    pub fn new() -> (set: DeletionSet)
        ensures
            set@ == Set::<Seq<u8>>::empty(),
    {
        let set = DeletionSet { keys: Vec::new() };
        assert(set@ =~= Set::<Seq<u8>>::empty());
        set
    }

    pub fn contains(&self, key: &EntryKey) -> (r: bool)
        ensures
            r == self@.contains(key@),
    {
        let mut i: usize = 0;
        while i < self.keys.len()
            invariant
                i <= self.keys.len(),
                forall|j: int| 0 <= j < i ==> #[trigger] self.keys@[j]@ != key@,
            decreases self.keys.len() - i,
        {
            if self.keys[i].same(key) {
                return true;
            }
            i += 1;
        }
        false
    }

    /// Adds a key; tells whether it was new.
    pub fn insert(&mut self, key: EntryKey) -> (r: bool)
        ensures
            r == !old(self)@.contains(key@),
            final(self)@ == old(self)@.insert(key@),
    {
        if self.contains(&key) {
            assert(self@.insert(key@) =~= self@);
            return false;
        }
        let ghost before = self.keys@;
        self.keys.push(key);
        proof {
            assert(self.keys@[before.len() as int]@ == key@);
            assert forall|k: Seq<u8>| old(self)@.insert(key@).contains(k) implies self@.contains(k) by {
                if k != key@ {
                    let i = choose|i: int| 0 <= i < before.len() && #[trigger] before[i]@ == k;
                    assert(self.keys@[i]@ == k);
                }
            }
            assert(self@ =~= old(self)@.insert(key@));
        }
        true
    }

    /// Takes a key out.
    pub fn remove(&mut self, key: &EntryKey)
        ensures
            final(self)@ == old(self)@.remove(key@),
    {
        let mut kept: Vec<EntryKey> = Vec::new();
        let mut i: usize = 0;
        while i < self.keys.len()
            invariant
                i <= self.keys.len(),
                forall|j: int| 0 <= j < i && #[trigger] self.keys@[j]@ != key@ ==> exists|l: int|
                    0 <= l < kept@.len() && kept@[l]@ == self.keys@[j]@,
                forall|l: int| 0 <= l < kept@.len() ==> #[trigger] kept@[l]@ != key@ && self@.contains(
                    kept@[l]@,
                ),
            decreases self.keys.len() - i,
        {
            if !self.keys[i].same(key) {
                let ghost before = kept@;
                kept.push(self.keys[i].duplicate());
                proof {
                    assert(self.keys@[i as int]@ == kept@[before.len() as int]@);
                    assert forall|j: int| 0 <= j < i + 1 && #[trigger] self.keys@[j]@ != key@ implies exists|
                        l: int,
                    | 0 <= l < kept@.len() && kept@[l]@ == self.keys@[j]@ by {
                        if j < i {
                            let l = choose|l: int| 0 <= l < before.len() && before[l]@ == self.keys@[j]@;
                            assert(kept@[l]@ == self.keys@[j]@);
                        }
                    }
                }
            }
            i += 1;
        }
        let ghost before = *self;
        self.keys = kept;
        assert(self@ =~= before@.remove(key@));
    }
}

/// The keys that are not deleted, in order.
pub open spec fn live(keys: Seq<Seq<u8>>, deleted: Set<Seq<u8>>) -> Seq<Seq<u8>>
    decreases keys.len(),
{
    if keys.len() == 0 {
        Seq::empty()
    } else if deleted.contains(keys[0]) {
        live(keys.drop_first(), deleted)
    } else {
        seq![keys[0]] + live(keys.drop_first(), deleted)
    }
}

/// A page that differs from what is stored.
#[derive(Clone, Copy, Debug, PartialEq, Eq, Structural)]
pub enum ChangingNode {
    Modified(usize),
    Deleted(Id),
}

pub struct BPlusTree {
    pub nodes: Vec<NodeData>,
    pub root: usize,
    /// How many keys a node can hold.
    pub page_size: usize,
    /// How many keys count as present.
    pub len: usize,
    pub deleted: DeletionSet,
    pub head_page_id: Id,
    /// Pages to store or to drop from storage, oldest first.
    pub changed: Vec<ChangingNode>,
    /// The slots of the tree's nodes, row by row from the leaves up.
    pub rows: Ghost<Seq<Seq<int>>>,
}

impl BPlusTree {
    pub open spec fn wf(&self) -> bool {
        &&& shape_ok(self.nodes@, self.rows@, self.page_size as int)
        &&& self.rows@.last()[0] == self.root
        &&& self.page_size >= 2
    }

    /// The leaf slots from left to right.
    pub open spec fn leaves(&self) -> Seq<int> {
        self.rows@[0]
    }

    /// All keys that the leaves hold, in order, deleted or not.
    pub open spec fn keys(&self) -> Seq<Seq<u8>> {
        flat(self.nodes@, self.rows@[0])
    }

    /// The keys that count as present, in order.
    pub open spec fn present(&self) -> Seq<Seq<u8>> {
        live(self.keys(), self.deleted@)
    }
}

/// `rand::random`: any word may come.
#[verifier::external_body]
fn random_word() -> u64 {
    rand::random::<u64>()
}

/// An id of two random words. Any id may come, though hardly one that a page has.
pub fn random_id() -> Id {
    Id::new(random_word(), random_word())
}

impl BPlusTree {
    /// An id for a new page, left to chance as in `random_id`.
    pub fn new_page_id(&self) -> Id {
        random_id()
    }
}

/// The leaf at `i`, its slot and its neighbours.
pub proof fn lemma_leaf(tree: &BPlusTree, i: int)
    requires
        tree.wf(),
        0 <= i < tree.leaves().len(),
    ensures
        leaf_link(tree.nodes@, tree.leaves(), i),
        tree.leaves().no_duplicates(),
        tree.leaves().index_of(tree.leaves()[i]) == i,
        keys_of(tree.nodes@[tree.leaves()[i]]).len() <= usize::MAX,
        forall|j: int|
            0 <= j < tree.leaves().len() ==> 0 <= #[trigger] tree.leaves()[j] < tree.nodes@.len()
                <= usize::MAX,
{
    lemma_leaf_link(tree.nodes@, tree.rows@, tree.page_size as int, i);
    assert(tree.nodes.len() == tree.nodes@.len());
    let page = tree.nodes@[tree.leaves()[i]]->External_0;
    assert(page.keys.len() == page.keys@.len());
}

} // verus!
