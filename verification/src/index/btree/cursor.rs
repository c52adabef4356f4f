//! Cursors over the keys of a tree.
use super::node::{keys_of, NodeCellRef, NodeData};
use super::shape::{flat, lemma_flat_split};
use super::tree::{lemma_leaf, live, BPlusTree};
use crate::index::key::EntryKey;
use vstd::prelude::*;

verus! {

/// The direction in which a cursor walks.
#[derive(Clone, Copy, Debug, PartialEq, Eq, Structural)]
pub enum ScanOrder {
    Forward,
    Backward,
}

/// A place in a tree: the page and position of the current key, which is not a deleted one.
/// A cursor without page has come to its end.
pub struct RTCursor {
    pub index: usize,
    pub ordering: ScanOrder,
    pub page: Option<usize>,
    pub current: Option<EntryKey>,
}

/// How many keys stand left of the leaf at `i`.
pub open spec fn offset(tree: &BPlusTree, i: int) -> int {
    flat(tree.nodes@, tree.leaves().take(i)).len() as int
}

/// The keys from a place on, in walking order, deleted ones among them.
pub open spec fn ahead_of(tree: &BPlusTree, i: int, index: int, ordering: ScanOrder) -> Seq<Seq<u8>> {
    let here = keys_of(tree.nodes@[tree.leaves()[i]]).len() as int;
    match ordering {
        ScanOrder::Forward => tree.keys().skip(offset(tree, i) + index),
        ScanOrder::Backward => tree.keys().take(
            offset(tree, i) + if index < here {
                index + 1
            } else {
                here
            },
        ).reverse(),
    }
}

impl RTCursor {
    /// The number of the cursor's leaf, counted from the left.
    pub open spec fn leaf(&self, tree: &BPlusTree) -> int {
        tree.leaves().index_of(self.page->0 as int)
    }

    pub open spec fn wf(&self, tree: &BPlusTree) -> bool {
        match self.page {
            None => self.current is None,
            Some(s) => {
                let keys = keys_of(tree.nodes@[s as int]);
                &&& tree.leaves().contains(s as int)
                &&& self.index < keys.len()
                &&& self.current matches Some(k) && k@ == keys[self.index as int]
                &&& !tree.deleted@.contains(keys[self.index as int])
            },
        }
    }

    /// The keys that the cursor has yet to show, the current one first.
    pub open spec fn ahead(&self, tree: &BPlusTree) -> Seq<Seq<u8>> {
        match self.page {
            None => Seq::empty(),
            Some(s) => live(
                ahead_of(tree, self.leaf(tree), self.index as int, self.ordering),
                tree.deleted@,
            ),
        }
    }
}

pub proof fn lemma_leaf_keys_in_flat(tree: &BPlusTree, i: int)
    requires
        0 <= i < tree.leaves().len(),
    ensures
        ({
            let here = keys_of(tree.nodes@[tree.leaves()[i]]);
            &&& 0 <= offset(tree, i)
            &&& offset(tree, i + 1) == offset(tree, i) + here.len()
            &&& offset(tree, i + 1) <= tree.keys().len()
            &&& forall|j: int|
                0 <= j < here.len() ==> #[trigger] here[j] == tree.keys()[offset(tree, i) + j]
        }),
        offset(tree, 0) == 0,
        offset(tree, tree.leaves().len() as int) == tree.keys().len(),
{
    let row = tree.leaves();
    let nodes = tree.nodes@;
    lemma_flat_split(nodes, row, i);
    lemma_flat_split(nodes, row, i + 1);
    lemma_flat_split(nodes, row.take(i + 1), i);
    assert(row.take(i + 1).take(i) =~= row.take(i));
    assert(row.take(i + 1).skip(i) =~= seq![row[i]]);
    let one = seq![row[i]];
    assert(one.drop_first() =~= Seq::<int>::empty());
    assert(flat(nodes, one) =~= keys_of(nodes[row[i]]) + flat(nodes, Seq::<int>::empty()));
    assert(flat(nodes, row.skip(i)) =~= keys_of(nodes[row[i]]) + flat(nodes, row.skip(i + 1))) by {
        assert(row.skip(i)[0] == row[i]);
        assert(row.skip(i).drop_first() =~= row.skip(i + 1));
    }
    assert(row.take(0) =~= Seq::<int>::empty());
    assert(row.take(row.len() as int) =~= row);
}

proof fn lemma_live_step(keys: Seq<Seq<u8>>, p: int, deleted: Set<Seq<u8>>)
    requires
        0 <= p < keys.len(),
    ensures
        deleted.contains(keys[p]) ==> live(keys.skip(p), deleted) == live(keys.skip(p + 1), deleted),
        !deleted.contains(keys[p]) ==> live(keys.skip(p), deleted) == seq![keys[p]] + live(
            keys.skip(p + 1),
            deleted,
        ),
{
    assert(keys.skip(p).drop_first() =~= keys.skip(p + 1));
}

proof fn lemma_live_back_step(keys: Seq<Seq<u8>>, e: int, deleted: Set<Seq<u8>>)
    requires
        0 < e <= keys.len(),
    ensures
        deleted.contains(keys[e - 1]) ==> live(keys.take(e).reverse(), deleted) == live(
            keys.take(e - 1).reverse(),
            deleted,
        ),
        !deleted.contains(keys[e - 1]) ==> live(keys.take(e).reverse(), deleted) == seq![keys[e - 1]]
            + live(keys.take(e - 1).reverse(), deleted),
{
    assert(keys.take(e).reverse().drop_first() =~= keys.take(e - 1).reverse());
    assert(keys.take(e).reverse()[0] == keys[e - 1]);
}

impl RTCursor {
    /// A cursor at the first key from the place on, in walking order, that is not deleted.
    pub fn new(pos: usize, page: usize, ordering: ScanOrder, tree: &BPlusTree) -> (c: RTCursor)
        requires
            tree.wf(),
            tree.leaves().contains(page as int),
            pos <= keys_of(tree.nodes@[page as int]).len(),
            ordering is Backward ==> pos < keys_of(tree.nodes@[page as int]).len() || tree.keys().len()
                == 0,
        ensures
            c.wf(tree),
            c.ordering == ordering,
            c.ahead(tree) == live(
                ahead_of(tree, tree.leaves().index_of(page as int), pos as int, ordering),
                tree.deleted@,
            ),
    {
        let mut c = RTCursor { index: pos, ordering, page: Some(page), current: None };
        c.settle(tree);
        c
    }

    /// Moves on from the cursor's place to the first key that is not deleted.
    fn settle(&mut self, tree: &BPlusTree)
        requires
            tree.wf(),
            old(self).page matches Some(s) && tree.leaves().contains(s as int),
            old(self).index <= keys_of(tree.nodes@[old(self).page->0 as int]).len(),
            old(self).ordering is Backward ==> old(self).index < keys_of(
                tree.nodes@[old(self).page->0 as int],
            ).len() || tree.keys().len() == 0,
        ensures
            final(self).wf(tree),
            final(self).ordering == old(self).ordering,
            final(self).ahead(tree) == live(
                ahead_of(
                    tree,
                    old(self).leaf(tree),
                    old(self).index as int,
                    old(self).ordering,
                ),
                tree.deleted@,
            ),
    {
        match self.ordering {
            ScanOrder::Forward => self.settle_forward(tree),
            ScanOrder::Backward => self.settle_backward(tree),
        }
    }

    fn settle_forward(&mut self, tree: &BPlusTree)
        requires
            tree.wf(),
            old(self).page matches Some(s) && tree.leaves().contains(s as int),
            old(self).index <= keys_of(tree.nodes@[old(self).page->0 as int]).len(),
            old(self).ordering is Forward,
        ensures
            final(self).wf(tree),
            final(self).ordering is Forward,
            final(self).ahead(tree) == live(
                tree.keys().skip(offset(tree, old(self).leaf(tree)) + old(self).index),
                tree.deleted@,
            ),
    {
        let ghost target = live(
            tree.keys().skip(offset(tree, self.leaf(tree)) + self.index),
            tree.deleted@,
        );
        let mut slot: usize = self.page.unwrap();
        let mut index: usize = self.index;
        let ghost mut i: int = self.leaf(tree);
        loop
            invariant
                tree.wf(),
                0 <= i < tree.leaves().len(),
                tree.leaves()[i] == slot,
                index <= keys_of(tree.nodes@[slot as int]).len(),
                self.ordering is Forward,
                target == live(
                    tree.keys().skip(offset(tree, old(self).leaf(tree)) + old(self).index),
                    tree.deleted@,
                ),
                target == live(tree.keys().skip(offset(tree, i) + index), tree.deleted@),
            decreases tree.leaves().len() - i, keys_of(tree.nodes@[slot as int]).len() - index,
        {
            proof {
                lemma_leaf(tree, i);
                lemma_leaf_keys_in_flat(tree, i);
            }
            match &tree.nodes[slot] {
                NodeData::External(page) => {
                    if index < page.keys.len() {
                        let key = &page.keys[index];
                        proof {
                            assert(keys_of(tree.nodes@[slot as int])[index as int] == key@);
                            lemma_live_step(tree.keys(), offset(tree, i) + index, tree.deleted@);
                        }
                        if !tree.deleted.contains(key) {
                            self.page = Some(slot);
                            self.index = index;
                            self.current = Some(key.duplicate());
                            proof {
                                assert(tree.leaves().index_of(slot as int) == i);
                            }
                            return ;
                        }
                        index += 1;
                    } else {
                        match page.next {
                            NodeCellRef::Slot(s) => {
                                proof {
                                    assert(i + 1 < tree.leaves().len());
                                    lemma_leaf_keys_in_flat(tree, i + 1);
                                    i = i + 1;
                                }
                                slot = s;
                                index = 0;
                            },
                            _ => {
                                self.page = None;
                                self.current = None;
                                proof {
                                    assert(i + 1 == tree.leaves().len());
                                    assert(tree.keys().skip(tree.keys().len() as int) =~= Seq::empty());
                                }
                                return ;
                            },
                        }
                    }
                },
                _ => {
                    assert(false);
                    return ;
                },
            }
        }
    }

    fn settle_backward(&mut self, tree: &BPlusTree)
        requires
            tree.wf(),
            old(self).page matches Some(s) && tree.leaves().contains(s as int),
            old(self).index < keys_of(tree.nodes@[old(self).page->0 as int]).len() || tree.keys().len()
                == 0,
            old(self).ordering is Backward,
        ensures
            final(self).wf(tree),
            final(self).ordering is Backward,
            final(self).ahead(tree) == live(
                ahead_of(tree, old(self).leaf(tree), old(self).index as int, ScanOrder::Backward),
                tree.deleted@,
            ),
    {
        let ghost target = live(
            ahead_of(tree, self.leaf(tree), self.index as int, ScanOrder::Backward),
            tree.deleted@,
        );
        let mut slot: usize = self.page.unwrap();
        let mut index: usize = self.index;
        let ghost mut i: int = self.leaf(tree);
        loop
            invariant
                tree.wf(),
                0 <= i < tree.leaves().len(),
                tree.leaves()[i] == slot,
                index < keys_of(tree.nodes@[slot as int]).len() || tree.keys().len() == 0,
                self.ordering is Backward,
                target == live(
                    ahead_of(
                        tree,
                        old(self).leaf(tree),
                        old(self).index as int,
                        ScanOrder::Backward,
                    ),
                    tree.deleted@,
                ),
                target == live(
                    ahead_of(tree, i, index as int, ScanOrder::Backward),
                    tree.deleted@,
                ),
            decreases i, index,
        {
            proof {
                lemma_leaf(tree, i);
                lemma_leaf_keys_in_flat(tree, i);
            }
            match &tree.nodes[slot] {
                NodeData::External(page) => {
                    if index < page.keys.len() {
                        let key = &page.keys[index];
                        proof {
                            assert(keys_of(tree.nodes@[slot as int])[index as int] == key@);
                            lemma_live_back_step(
                                tree.keys(),
                                offset(tree, i) + index + 1,
                                tree.deleted@,
                            );
                        }
                        if !tree.deleted.contains(key) {
                            self.page = Some(slot);
                            self.index = index;
                            self.current = Some(key.duplicate());
                            proof {
                                assert(tree.leaves().index_of(slot as int) == i);
                            }
                            return ;
                        }
                    }
                    if index > 0 && index < page.keys.len() {
                        index -= 1;
                    } else {
                        match page.prev {
                            NodeCellRef::Slot(s) => {
                                proof {
                                    assert(i > 0);
                                    lemma_leaf_keys_in_flat(tree, i - 1);
                                    i = i - 1;
                                    assert(tree.leaves()[i] == s);
                                    lemma_leaf(tree, i);
                                }
                                slot = s;
                                index = match &tree.nodes[s] {
                                    NodeData::External(p) => p.keys.len() - 1,
                                    _ => 0,
                                };
                            },
                            _ => {
                                self.page = None;
                                self.current = None;
                                proof {
                                    assert(i == 0);
                                    assert(tree.keys().take(0).reverse() =~= Seq::empty());
                                }
                                return ;
                            },
                        }
                    }
                },
                _ => {
                    assert(false);
                    return ;
                },
            }
        }
    }

    /// Moves to the next key in walking order; tells whether there is one.
    pub fn next(&mut self, tree: &BPlusTree) -> (r: bool)
        requires
            tree.wf(),
            old(self).wf(tree),
        ensures
            final(self).wf(tree),
            final(self).ordering == old(self).ordering,
            old(self).ahead(tree).len() == 0 ==> !r && final(self).ahead(tree).len() == 0,
            old(self).ahead(tree).len() > 0 ==> final(self).ahead(tree) == old(self).ahead(
                tree,
            ).drop_first(),
            r == (final(self).ahead(tree).len() > 0),
    {
        let slot: usize = match self.page {
            Some(s) => s,
            None => {
                return false;
            },
        };
        let ghost i = self.leaf(tree);
        let ghost before = self.ahead(tree);
        proof {
            lemma_leaf(tree, i);
            assert(tree.leaves()[i] == slot);
            lemma_leaf_keys_in_flat(tree, i);
            match self.ordering {
                ScanOrder::Forward => {
                    lemma_live_step(tree.keys(), offset(tree, i) + self.index, tree.deleted@);
                },
                ScanOrder::Backward => {
                    lemma_live_back_step(
                        tree.keys(),
                        offset(tree, i) + self.index + 1,
                        tree.deleted@,
                    );
                },
            }
        }
        match self.ordering {
            ScanOrder::Forward => {
                self.index = self.index + 1;
                self.settle_forward(tree);
                assert(before.drop_first() =~= self.ahead(tree));
            },
            ScanOrder::Backward => {
                if self.index > 0 {
                    self.index = self.index - 1;
                    self.settle_backward(tree);
                    assert(before.drop_first() =~= self.ahead(tree));
                } else {
                    let prev = match &tree.nodes[slot] {
                        NodeData::External(page) => page.prev,
                        _ => NodeCellRef::Nil,
                    };
                    match prev {
                        NodeCellRef::Slot(s) => {
                            proof {
                                assert(i > 0);
                                lemma_leaf_keys_in_flat(tree, i - 1);
                                assert(tree.leaves()[i - 1] == s);
                                assert(tree.leaves().index_of(s as int) == i - 1);
                                lemma_leaf(tree, i - 1);
                            }
                            self.page = Some(s);
                            self.index = match &tree.nodes[s] {
                                NodeData::External(p) => p.keys.len() - 1,
                                _ => 0,
                            };
                            self.settle_backward(tree);
                            assert(before.drop_first() =~= self.ahead(tree));
                        },
                        _ => {
                            proof {
                                assert(i == 0);
                                assert(tree.keys().take(0).reverse() =~= Seq::empty());
                                assert(before =~= seq![tree.keys()[0]]);
                            }
                            self.page = None;
                            self.current = None;
                        },
                    }
                }
            },
        }
        proof {
            lemma_current_is_first(self, tree);
        }
        self.current.is_some()
    }

    /// The current key, if the cursor has not come to its end.
    pub fn current(&self, tree: &BPlusTree) -> (r: Option<&EntryKey>)
        requires
            tree.wf(),
            self.wf(tree),
        ensures
            r is Some <==> self.ahead(tree).len() > 0,
            r matches Some(k) ==> k@ == self.ahead(tree)[0],
    {
        proof {
            lemma_current_is_first(self, tree);
        }
        self.current.as_ref()
    }
}

/// A cursor's current key is the first of those ahead.
pub proof fn lemma_current_is_first(c: &RTCursor, tree: &BPlusTree)
    requires
        tree.wf(),
        c.wf(tree),
    ensures
        c.current is Some <==> c.ahead(tree).len() > 0,
        c.current matches Some(k) ==> k@ == c.ahead(tree)[0],
{
    if c.page is Some {
        let i = c.leaf(tree);
        lemma_leaf_keys_in_flat(tree, i);
        match c.ordering {
            ScanOrder::Forward => {
                lemma_live_step(tree.keys(), offset(tree, i) + c.index, tree.deleted@);
            },
            ScanOrder::Backward => {
                lemma_live_back_step(tree.keys(), offset(tree, i) + c.index + 1, tree.deleted@);
            },
        }
    }
}

} // verus!
