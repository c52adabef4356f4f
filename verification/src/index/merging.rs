//! Merging runs of keys: the least next key comes first, of equal ones that of the earlier run.
use crate::index::key::{group_key_order, key_le, key_lt, not_descending};
use vstd::multiset::Multiset;
use vstd::prelude::*;

verus! {

/// Runs of keys that are being merged: how far each run was read, and the keys read so far, each
/// with the number of its run.
#[verifier::ext_equal]
pub struct Merge {
    pub next: Seq<int>,
    pub out: Seq<(Seq<u8>, int)>,
}

pub open spec fn has_more(runs: Seq<Seq<Seq<u8>>>, next: Seq<int>, p: int) -> bool {
    0 <= p < runs.len() && next[p] < runs[p].len()
}

/// The key that comes next in a run.
pub open spec fn head(runs: Seq<Seq<Seq<u8>>>, next: Seq<int>, p: int) -> Seq<u8> {
    runs[p][next[p]]
}

/// The run's next key is the least, and no earlier run has the same one.
pub open spec fn is_least(runs: Seq<Seq<Seq<u8>>>, next: Seq<int>, p: int) -> bool {
    &&& has_more(runs, next, p)
    &&& forall|q: int| #[trigger]
        has_more(runs, next, q) ==> if q < p {
            key_lt(head(runs, next, p), head(runs, next, q))
        } else {
            key_le(head(runs, next, p), head(runs, next, q))
        }
}

/// The merge after `n` keys, or after all of them.
pub open spec fn merge_steps(runs: Seq<Seq<Seq<u8>>>, n: nat) -> Merge
    decreases n,
{
    if n == 0 {
        Merge { next: Seq::new(runs.len(), |i: int| 0int), out: Seq::empty() }
    } else {
        let before = merge_steps(runs, (n - 1) as nat);
        if exists|p: int| is_least(runs, before.next, p) {
            let p = choose|p: int| is_least(runs, before.next, p);
            Merge {
                next: before.next.update(p, before.next[p] + 1),
                out: before.out.push((head(runs, before.next, p), p)),
            }
        } else {
            before
        }
    }
}

/// The number of keys in all runs.
pub open spec fn total(runs: Seq<Seq<Seq<u8>>>) -> nat
    decreases runs.len(),
{
    if runs.len() == 0 {
        0
    } else {
        total(runs.drop_last()) + runs.last().len()
    }
}

/// All keys of the runs, the least first, each with the number of its run.
pub open spec fn merged(runs: Seq<Seq<Seq<u8>>>) -> Seq<(Seq<u8>, int)> {
    merge_steps(runs, total(runs)).out
}

/// What is read of the runs is within them and as much as came out.
pub open spec fn merge_ok(runs: Seq<Seq<Seq<u8>>>, m: Merge) -> bool {
    &&& m.next.len() == runs.len()
    &&& forall|i: int| 0 <= i < runs.len() ==> 0 <= #[trigger] m.next[i] <= runs[i].len()
    &&& forall|k: int| 0 <= k < m.out.len() ==> 0 <= (#[trigger] m.out[k]).1 < runs.len()
}

pub proof fn lemma_merge_ok(runs: Seq<Seq<Seq<u8>>>, n: nat)
    ensures
        merge_ok(runs, merge_steps(runs, n)),
    decreases n,
{
    if n > 0 {
        lemma_merge_ok(runs, (n - 1) as nat);
    }
}

/// There is a least run as long as one has more.
pub proof fn lemma_least_exists(runs: Seq<Seq<Seq<u8>>>, next: Seq<int>, upto: int) -> (p: int)
    requires
        0 <= upto <= runs.len(),
        exists|q: int| q < upto && has_more(runs, next, q),
    ensures
        has_more(runs, next, p),
        p < upto,
        forall|q: int| #[trigger]
            has_more(runs, next, q) && q < upto ==> if q < p {
                key_lt(head(runs, next, p), head(runs, next, q))
            } else {
                key_le(head(runs, next, p), head(runs, next, q))
            },
    decreases upto,
{
    broadcast use group_key_order;

    if exists|q: int| q < upto - 1 && has_more(runs, next, q) {
        let p = lemma_least_exists(runs, next, upto - 1);
        let last = upto - 1;
        if has_more(runs, next, last) && key_lt(head(runs, next, last), head(runs, next, p)) {
            assert forall|q: int| #[trigger] has_more(runs, next, q) && q < upto implies if q < last {
                key_lt(head(runs, next, last), head(runs, next, q))
            } else {
                key_le(head(runs, next, last), head(runs, next, q))
            } by {
                if q < last {
                    let a = head(runs, next, last);
                    let b = head(runs, next, p);
                    let c = head(runs, next, q);
                    assert(key_lt(b, c) || b == c);
                }
            }
            last
        } else {
            p
        }
    } else {
        upto - 1
    }
}

pub proof fn lemma_least_unique(runs: Seq<Seq<Seq<u8>>>, next: Seq<int>, p: int, q: int)
    requires
        is_least(runs, next, p),
        is_least(runs, next, q),
    ensures
        p == q,
{
    broadcast use group_key_order;

    assert(has_more(runs, next, p) && has_more(runs, next, q));
}

/// One more step of a merge that takes the key of run `p`.
pub proof fn lemma_step(runs: Seq<Seq<Seq<u8>>>, n: nat, p: int)
    requires
        is_least(runs, merge_steps(runs, n).next, p),
    ensures
        ({
            let m = merge_steps(runs, n);
            merge_steps(runs, n + 1) == (Merge {
                next: m.next.update(p, m.next[p] + 1),
                out: m.out.push((head(runs, m.next, p), p)),
            })
        }),
{
    let m = merge_steps(runs, n);
    let c = choose|p: int| is_least(runs, m.next, p);
    lemma_least_unique(runs, m.next, p, c);
}

/// What came out of a merge stays, and a merge that has ended stays as it is.
pub proof fn lemma_steps_extend(runs: Seq<Seq<Seq<u8>>>, n: nat, m: nat)
    requires
        n <= m,
    ensures
        merge_steps(runs, n).out.is_prefix_of(merge_steps(runs, m).out),
        (forall|p: int| !has_more(runs, merge_steps(runs, n).next, p)) ==> merge_steps(runs, m)
            == merge_steps(runs, n),
    decreases m,
{
    if n < m {
        lemma_steps_extend(runs, n, (m - 1) as nat);
        let before = merge_steps(runs, (m - 1) as nat);
        let after = merge_steps(runs, m);
        assert(before.out.is_prefix_of(after.out));
    }
}

pub open spec fn sum(s: Seq<int>) -> int
    decreases s.len(),
{
    if s.len() == 0 {
        0
    } else {
        sum(s.drop_last()) + s.last()
    }
}

pub proof fn lemma_sum_update(s: Seq<int>, i: int, x: int)
    requires
        0 <= i < s.len(),
    ensures
        sum(s.update(i, x)) == sum(s) - s[i] + x,
    decreases s.len(),
{
    if i == s.len() - 1 {
        assert(s.update(i, x).drop_last() =~= s.drop_last());
    } else {
        lemma_sum_update(s.drop_last(), i, x);
        assert(s.update(i, x).drop_last() =~= s.drop_last().update(i, x));
    }
}

pub proof fn lemma_sum_zero(n: nat)
    ensures
        sum(Seq::new(n, |i: int| 0int)) == 0,
    decreases n,
{
    if n > 0 {
        lemma_sum_zero((n - 1) as nat);
        assert(Seq::new(n, |i: int| 0int).drop_last() =~= Seq::new((n - 1) as nat, |i: int| 0int));
    }
}

/// As much was read as came out; and as many steps were made, unless the runs have ended.
pub proof fn lemma_steps_count(runs: Seq<Seq<Seq<u8>>>, n: nat)
    ensures
        sum(merge_steps(runs, n).next) == merge_steps(runs, n).out.len(),
        merge_steps(runs, n).out.len() <= n,
        merge_steps(runs, n).out.len() < n ==> forall|p: int|
            !has_more(runs, merge_steps(runs, n).next, p),
    decreases n,
{
    if n == 0 {
        lemma_sum_zero(runs.len());
    } else {
        let before = merge_steps(runs, (n - 1) as nat);
        lemma_steps_count(runs, (n - 1) as nat);
        lemma_merge_ok(runs, (n - 1) as nat);
        if exists|p: int| is_least(runs, before.next, p) {
            let p = choose|p: int| is_least(runs, before.next, p);
            lemma_sum_update(before.next, p, before.next[p] + 1);
            assert(has_more(runs, before.next, p));
        } else {
            assert forall|p: int| !has_more(runs, before.next, p) by {
                if has_more(runs, before.next, p) {
                    assert(p < runs.len() && has_more(runs, before.next, p));
                    let least = lemma_least_exists(runs, before.next, runs.len() as int);
                    assert(is_least(runs, before.next, least));
                }
            }
        }
    }
}

/// The runs have ended when all was read.
pub proof fn lemma_all_read(runs: Seq<Seq<Seq<u8>>>, next: Seq<int>)
    requires
        next.len() == runs.len(),
        forall|i: int| 0 <= i < runs.len() ==> 0 <= #[trigger] next[i] <= runs[i].len(),
    ensures
        sum(next) <= total(runs),
        sum(next) == total(runs) ==> forall|p: int| !has_more(runs, next, p),
    decreases runs.len(),
{
    if runs.len() > 0 {
        let r = runs.drop_last();
        let x = next.drop_last();
        assert forall|i: int| 0 <= i < r.len() implies 0 <= #[trigger] x[i] <= r[i].len() by {
            assert(x[i] == next[i]);
        }
        lemma_all_read(r, x);
        let last = runs.len() - 1;
        assert(0 <= next[last] <= runs[last].len());
        if sum(next) == total(runs) {
            assert forall|p: int| !has_more(runs, next, p) by {
                if 0 <= p < r.len() {
                    assert(!has_more(r, x, p));
                }
            }
        }
    }
}

/// After all keys the runs have ended.
pub proof fn lemma_merged_all(runs: Seq<Seq<Seq<u8>>>)
    ensures
        forall|p: int| !has_more(runs, merge_steps(runs, total(runs)).next, p),
        merged(runs).len() == total(runs),
{
    let n = total(runs);
    lemma_steps_count(runs, n);
    lemma_merge_ok(runs, n);
    let m = merge_steps(runs, n);
    lemma_all_read(runs, m.next);
    if m.out.len() < n {
        lemma_sum_of_ended(runs, m.next);
    }
}

/// Runs that have ended were read as a whole.
pub proof fn lemma_sum_of_ended(runs: Seq<Seq<Seq<u8>>>, next: Seq<int>)
    requires
        next.len() == runs.len(),
        forall|i: int| 0 <= i < runs.len() ==> 0 <= #[trigger] next[i] <= runs[i].len(),
        forall|p: int| !has_more(runs, next, p),
    ensures
        sum(next) == total(runs),
    decreases runs.len(),
{
    if runs.len() > 0 {
        let r = runs.drop_last();
        let x = next.drop_last();
        assert forall|i: int| 0 <= i < r.len() implies 0 <= #[trigger] x[i] <= r[i].len() by {
            assert(x[i] == next[i]);
        }
        assert forall|p: int| !has_more(r, x, p) by {
            if has_more(r, x, p) {
                assert(has_more(runs, next, p));
            }
        }
        lemma_sum_of_ended(r, x);
        assert(!has_more(runs, next, runs.len() - 1));
        assert(next[runs.len() - 1] <= runs[runs.len() - 1].len());
    }
}

/// The key that a merge takes next is the next one of all keys; when no run has more, it has all.
pub proof fn lemma_next_key(runs: Seq<Seq<Seq<u8>>>, n: nat)
    requires
        merge_steps(runs, n).out.len() == n,
    ensures
        n <= merged(runs).len(),
        forall|p: int| #[trigger]
            is_least(runs, merge_steps(runs, n).next, p) ==> n < merged(runs).len() && merged(runs)[n as int]
                == (head(runs, merge_steps(runs, n).next, p), p),
        (forall|p: int| !has_more(runs, merge_steps(runs, n).next, p)) ==> merged(runs).len() == n,
{
    let t = total(runs);
    lemma_merged_all(runs);
    let m = merge_steps(runs, n);
    lemma_steps_count(runs, n);
    lemma_merge_ok(runs, n);
    lemma_all_read(runs, m.next);
    lemma_steps_extend(runs, n, t);
    assert forall|p: int| #[trigger] is_least(runs, m.next, p) implies n < merged(runs).len()
        && merged(runs)[n as int] == (head(runs, m.next, p), p) by {
        lemma_step(runs, n, p);
        if n == t {
            assert(!has_more(runs, m.next, p));
        }
        lemma_steps_extend(runs, n + 1, t);
        assert(merge_steps(runs, n + 1).out[n as int] == (head(runs, m.next, p), p));
    }
    if forall|p: int| !has_more(runs, m.next, p) {
        lemma_sum_of_ended(runs, m.next);
    }
}

/// No run descends.
pub open spec fn runs_ascend(runs: Seq<Seq<Seq<u8>>>) -> bool {
    forall|p: int| 0 <= p < runs.len() ==> not_descending(#[trigger] runs[p])
}

pub proof fn lemma_steps_ascend(runs: Seq<Seq<Seq<u8>>>, n: nat)
    requires
        runs_ascend(runs),
    ensures
        ({
            let m = merge_steps(runs, n);
            &&& forall|i: int, j: int|
                0 <= i < j < m.out.len() ==> key_le((#[trigger] m.out[i]).0, (#[trigger] m.out[j]).0)
            &&& m.out.len() > 0 ==> forall|p: int| #[trigger]
                has_more(runs, m.next, p) ==> key_le(m.out.last().0, head(runs, m.next, p))
        }),
    decreases n,
{
    broadcast use group_key_order;

    if n > 0 {
        let before = merge_steps(runs, (n - 1) as nat);
        let after = merge_steps(runs, n);
        lemma_steps_ascend(runs, (n - 1) as nat);
        lemma_merge_ok(runs, (n - 1) as nat);
        if exists|p: int| is_least(runs, before.next, p) {
            let p = choose|p: int| is_least(runs, before.next, p);
            let key = head(runs, before.next, p);
            assert(has_more(runs, before.next, p));
            assert forall|i: int, j: int| 0 <= i < j < after.out.len() implies key_le(
                (#[trigger] after.out[i]).0,
                (#[trigger] after.out[j]).0,
            ) by {
                let last = before.out.len() - 1;
                if j == before.out.len() {
                    assert(after.out[i] == before.out[i]);
                    assert(key_le(before.out[last].0, key));
                    if i < last {
                        assert(key_le(before.out[i].0, before.out[last].0));
                    }
                } else {
                    assert(after.out[i] == before.out[i]);
                    assert(after.out[j] == before.out[j]);
                }
            }
            assert forall|q: int| #[trigger] has_more(runs, after.next, q) implies key_le(
                after.out.last().0,
                head(runs, after.next, q),
            ) by {
                if q == p {
                    assert(not_descending(runs[p]));
                    assert(key_le(runs[p][before.next[p]], runs[p][before.next[p] + 1]));
                } else {
                    assert(has_more(runs, before.next, q));
                }
            }
        }
    }
}

/// Keys that are merged from runs which do not descend do not descend either.
pub proof fn lemma_merged_ascends(runs: Seq<Seq<Seq<u8>>>)
    requires
        runs_ascend(runs),
    ensures
        forall|i: int, j: int|
            0 <= i < j < merged(runs).len() ==> key_le(
                (#[trigger] merged(runs)[i]).0,
                (#[trigger] merged(runs)[j]).0,
            ),
        merged(runs).len() == total(runs),
{
    lemma_steps_ascend(runs, total(runs));
    lemma_merged_all(runs);
}

/// Each key that came out of a merge is one of its run.
pub proof fn lemma_steps_from_runs(runs: Seq<Seq<Seq<u8>>>, n: nat, k: int)
    requires
        0 <= k < merge_steps(runs, n).out.len(),
    ensures
        ({
            let (key, p) = merge_steps(runs, n).out[k];
            0 <= p < runs.len() && runs[p].contains(key)
        }),
    decreases n,
{
    let before = merge_steps(runs, (n - 1) as nat);
    lemma_merge_ok(runs, (n - 1) as nat);
    if k < before.out.len() {
        lemma_steps_from_runs(runs, (n - 1) as nat, k);
    } else {
        let p = choose|p: int| is_least(runs, before.next, p);
        assert(has_more(runs, before.next, p));
        assert(0 <= before.next[p]);
        assert(runs[p][before.next[p]] == head(runs, before.next, p));
    }
}

/// There are no keys where all runs are empty, and only there.
pub proof fn lemma_total_zero(runs: Seq<Seq<Seq<u8>>>)
    ensures
        total(runs) == 0 <==> forall|p: int| 0 <= p < runs.len() ==> (#[trigger] runs[p]).len() == 0,
    decreases runs.len(),
{
    if runs.len() > 0 {
        let front = runs.drop_last();
        lemma_total_zero(front);
        if total(runs) == 0 {
            assert forall|p: int| 0 <= p < runs.len() implies (#[trigger] runs[p]).len() == 0 by {
                if p < front.len() {
                    assert(front[p].len() == 0);
                }
            }
        }
        if forall|p: int| 0 <= p < runs.len() ==> (#[trigger] runs[p]).len() == 0 {
            assert forall|p: int| 0 <= p < front.len() implies (#[trigger] front[p]).len() == 0 by {
                assert(runs[p].len() == 0);
            }
            assert(runs[runs.len() - 1].len() == 0);
        }
    }
}

/// What was read of a run came out of the merge.
pub proof fn lemma_read_came_out(runs: Seq<Seq<Seq<u8>>>, n: nat, p: int, j: int)
    requires
        0 <= p < runs.len(),
        0 <= j < merge_steps(runs, n).next[p],
    ensures
        exists|k: int|
            0 <= k < merge_steps(runs, n).out.len() && (#[trigger] merge_steps(runs, n).out[k]).0
                == runs[p][j],
    decreases n,
{
    let m = merge_steps(runs, n);
    if n > 0 {
        let before = merge_steps(runs, (n - 1) as nat);
        lemma_merge_ok(runs, (n - 1) as nat);
        if j < before.next[p] {
            lemma_read_came_out(runs, (n - 1) as nat, p, j);
            let k = choose|k: int|
                0 <= k < before.out.len() && (#[trigger] before.out[k]).0 == runs[p][j];
            assert(m.out[k].0 == runs[p][j]);
        } else {
            let q = choose|q: int| is_least(runs, before.next, q);
            assert(has_more(runs, before.next, q));
            assert(q == p && j == before.next[p]);
            assert(m.out[before.out.len() as int].0 == runs[p][j]);
        }
    }
}

/// All keys of the runs, each as often as it stands in them.
pub open spec fn gathered(runs: Seq<Seq<Seq<u8>>>) -> Multiset<Seq<u8>>
    decreases runs.len(),
{
    if runs.len() == 0 {
        Multiset::empty()
    } else {
        gathered(runs.drop_last()).add(runs.last().to_multiset())
    }
}

/// The keys that came out of a merge, without the numbers of their runs.
pub open spec fn keys_out(out: Seq<(Seq<u8>, int)>) -> Seq<Seq<u8>> {
    out.map_values(|e: (Seq<u8>, int)| e.0)
}

/// What was read of the runs.
pub open spec fn takes(runs: Seq<Seq<Seq<u8>>>, next: Seq<int>) -> Seq<Seq<Seq<u8>>> {
    Seq::new(runs.len(), |i: int| runs[i].take(next[i]))
}

proof fn lemma_gathered_push(runs: Seq<Seq<Seq<u8>>>, p: int, key: Seq<u8>)
    requires
        0 <= p < runs.len(),
    ensures
        gathered(runs.update(p, runs[p].push(key))) == gathered(runs).insert(key),
    decreases runs.len(),
{
    broadcast use vstd::multiset::group_multiset_axioms;

    let more = runs.update(p, runs[p].push(key));
    if p == runs.len() - 1 {
        assert(more.drop_last() =~= runs.drop_last());
        runs.last().to_multiset_ensures();
        assert(gathered(more) =~= gathered(runs).insert(key));
    } else {
        assert(more.drop_last() =~= runs.drop_last().update(p, runs[p].push(key)));
        lemma_gathered_push(runs.drop_last(), p, key);
        assert(more.last() == runs.last());
        assert(gathered(more) =~= gathered(runs).insert(key));
    }
}

proof fn lemma_gathered_nothing(runs: Seq<Seq<Seq<u8>>>)
    requires
        forall|i: int| 0 <= i < runs.len() ==> (#[trigger] runs[i]).len() == 0,
    ensures
        gathered(runs) == Multiset::<Seq<u8>>::empty(),
    decreases runs.len(),
{
    broadcast use vstd::multiset::group_multiset_axioms;

    if runs.len() > 0 {
        let front = runs.drop_last();
        assert forall|i: int| 0 <= i < front.len() implies (#[trigger] front[i]).len() == 0 by {
            assert(front[i] == runs[i]);
        }
        lemma_gathered_nothing(front);
        assert(runs[runs.len() - 1].len() == 0);
        assert(runs.last() =~= Seq::<Seq<u8>>::empty());
        runs.last().to_multiset_ensures();
        assert(runs.last().to_multiset() =~= Multiset::empty());
        assert(gathered(runs) =~= Multiset::empty());
    }
}

/// What came out of a merge is what was read of the runs.
proof fn lemma_steps_gather(runs: Seq<Seq<Seq<u8>>>, n: nat)
    ensures
        keys_out(merge_steps(runs, n).out).to_multiset() == gathered(
            takes(runs, merge_steps(runs, n).next),
        ),
    decreases n,
{
    let m = merge_steps(runs, n);
    if n == 0 {
        let none = takes(runs, m.next);
        assert forall|i: int| 0 <= i < none.len() implies (#[trigger] none[i]).len() == 0 by {}
        lemma_gathered_nothing(none);
        assert(keys_out(m.out) =~= Seq::<Seq<u8>>::empty());
        keys_out(m.out).to_multiset_ensures();
        assert(keys_out(m.out).to_multiset() =~= Multiset::empty());
    } else {
        let before = merge_steps(runs, (n - 1) as nat);
        lemma_steps_gather(runs, (n - 1) as nat);
        lemma_merge_ok(runs, (n - 1) as nat);
        if exists|p: int| is_least(runs, before.next, p) {
            let p = choose|p: int| is_least(runs, before.next, p);
            let key = head(runs, before.next, p);
            let read = takes(runs, before.next);
            assert(has_more(runs, before.next, p));
            assert(0 <= before.next[p] <= runs[p].len());
            assert(runs[p].take(before.next[p] + 1) =~= read[p].push(key));
            assert(takes(runs, m.next) =~= read.update(p, read[p].push(key)));
            lemma_gathered_push(read, p, key);
            assert(keys_out(m.out) =~= keys_out(before.out).push(key));
            keys_out(before.out).to_multiset_ensures();
        }
    }
}

/// A merge loses no key and makes up none: what comes out is what all runs hold, each key as often
/// as it stands in them.
pub proof fn lemma_merged_gathers(runs: Seq<Seq<Seq<u8>>>)
    ensures
        keys_out(merged(runs)).to_multiset() == gathered(runs),
{
    let n = total(runs);
    let m = merge_steps(runs, n);
    lemma_steps_gather(runs, n);
    lemma_merged_all(runs);
    lemma_merge_ok(runs, n);
    assert forall|i: int| 0 <= i < runs.len() implies #[trigger] takes(runs, m.next)[i] == runs[i] by {
        assert(0 <= m.next[i] <= runs[i].len());
        assert(!has_more(runs, m.next, i));
        assert(runs[i].take(runs[i].len() as int) =~= runs[i]);
    }
    assert(takes(runs, m.next) =~= runs);
}

/// No earlier run has a key left that is not after what came out of a later one.
proof fn lemma_earlier_runs_first(runs: Seq<Seq<Seq<u8>>>, n: nat)
    requires
        runs_ascend(runs),
    ensures
        ({
            let m = merge_steps(runs, n);
            &&& forall|a: int, q: int|
                0 <= a < m.out.len() && 0 <= q < m.out[a].1 && #[trigger] has_more(runs, m.next, q)
                    ==> key_lt((#[trigger] m.out[a]).0, head(runs, m.next, q))
            &&& forall|a: int, b: int|
                0 <= a < b < m.out.len() && (#[trigger] m.out[a]).0 == (#[trigger] m.out[b]).0
                    ==> m.out[a].1 <= m.out[b].1
        }),
    decreases n,
{
    broadcast use group_key_order;

    if n > 0 {
        let before = merge_steps(runs, (n - 1) as nat);
        let after = merge_steps(runs, n);
        lemma_earlier_runs_first(runs, (n - 1) as nat);
        lemma_merge_ok(runs, (n - 1) as nat);
        if exists|p: int| is_least(runs, before.next, p) {
            let p = choose|p: int| is_least(runs, before.next, p);
            let key = head(runs, before.next, p);
            let last = before.out.len() as int;
            assert(has_more(runs, before.next, p));
            assert forall|a: int, q: int|
                0 <= a < after.out.len() && 0 <= q < after.out[a].1 && #[trigger] has_more(
                    runs,
                    after.next,
                    q,
                ) implies key_lt((#[trigger] after.out[a]).0, head(runs, after.next, q)) by {
                assert(has_more(runs, before.next, q));
                if a < last {
                    assert(after.out[a] == before.out[a]);
                    assert(key_lt(before.out[a].0, head(runs, before.next, q)));
                    if q == p {
                        assert(not_descending(runs[p]));
                        assert(key_le(runs[p][before.next[p]], runs[p][before.next[p] + 1]));
                    }
                }
            }
            assert forall|a: int, b: int|
                0 <= a < b < after.out.len() && (#[trigger] after.out[a]).0 == (#[trigger] after.out[b]).0 implies after.out[a].1
                <= after.out[b].1 by {
                assert(after.out[a] == before.out[a]);
                if b < last {
                    assert(after.out[b] == before.out[b]);
                } else if before.out[a].1 > p {
                    assert(key_lt(before.out[a].0, head(runs, before.next, p)));
                }
            }
        }
    }
}

/// Of equal keys those of earlier runs come out first.
pub proof fn lemma_ties_by_run(runs: Seq<Seq<Seq<u8>>>, a: int, b: int)
    requires
        runs_ascend(runs),
        0 <= a < b < merged(runs).len(),
        merged(runs)[a].0 == merged(runs)[b].0,
    ensures
        merged(runs)[a].1 <= merged(runs)[b].1,
{
    lemma_earlier_runs_first(runs, total(runs));
}

} // verus!
