//! Histograms of one field: exact ones of small partitions of the cells.
use crate::index::key::{bytes_before, group_key_order, key_le, key_lt};
use crate::index::key::not_descending;
use vstd::array::array_as_slice;
use vstd::prelude::*;
use vstd::relations::{antisymmetric, reflexive, sorted_by, strongly_connected, total_ordering, transitive};
use vstd::seq_lib::{
    group_to_multiset_ensures, lemma_sorted_unique, to_multiset_build, to_multiset_insert,
};

verus! {

/// How many cells make a partition.
pub const HISTOGRAM_PARTITATION_SIZE: usize = 1024;

/// How many buckets the histogram of a partition has.
pub const HISTOGRAM_PARTITATION_BUCKETS: usize = 256;

/// How many buckets the histogram of a chunk has.
pub const HISTOGRAM_TARGET_BUCKETS: usize = 100;

/// The bounds of the buckets of a chunk's histogram are one more than its buckets.
pub const HISTOGRAM_TARGET_BOUNDS: usize = 101;

/// What a value is ordered by.
pub type HistogramKey = [u8; 8];

pub open spec fn hist_views(keys: Seq<HistogramKey>) -> Seq<Seq<u8>> {
    keys.map_values(|k: HistogramKey| k@)
}

/// The order of keys.
pub open spec fn by_key() -> spec_fn(Seq<u8>, Seq<u8>) -> bool {
    |a: Seq<u8>, b: Seq<u8>| key_le(a, b)
}

proof fn lemma_by_key_total()
    ensures
        total_ordering(by_key()),
{
    broadcast use group_key_order;

    let r = by_key();
    assert(reflexive(r));
    assert(antisymmetric(r));
    assert forall|x: Seq<u8>, y: Seq<u8>, z: Seq<u8>| #[trigger] r(x, y) && #[trigger] r(y, z) implies r(
        x,
        z,
    ) by {
        assert(key_lt(x, y) || x == y);
        assert(key_lt(y, z) || y == z);
    }
    assert(transitive(r));
    assert(strongly_connected(r));
}

/// The keys in their order.
pub open spec fn in_order(keys: Seq<Seq<u8>>) -> Seq<Seq<u8>> {
    keys.sort_by(by_key())
}

/// Keys that do not descend and are the same keys as others are those in their order.
proof fn lemma_in_order(keys: Seq<Seq<u8>>, sorted: Seq<Seq<u8>>)
    requires
        not_descending(sorted),
        sorted.to_multiset() == keys.to_multiset(),
    ensures
        sorted == in_order(keys),
{
    let leq = by_key();
    lemma_by_key_total();
    keys.lemma_sort_by_ensures(leq);
    assert(sorted_by(sorted, leq)) by {
        assert forall|i: int, j: int| 0 <= i < j < sorted.len() implies #[trigger] leq(
            sorted[i],
            sorted[j],
        ) by {
            assert(key_le(sorted[i], sorted[j]));
        }
    }
    lemma_sorted_unique(sorted, in_order(keys), leq);
}

/// Keys in their order do not descend, and are as many as before.
pub proof fn lemma_in_order_ascends(keys: Seq<Seq<u8>>)
    ensures
        not_descending(in_order(keys)),
        in_order(keys).len() == keys.len(),
        in_order(keys).to_multiset() == keys.to_multiset(),
{
    let leq = by_key();
    lemma_by_key_total();
    keys.lemma_sort_by_ensures(leq);
    assert forall|i: int, j: int| 0 <= i < j < in_order(keys).len() implies key_le(
        #[trigger] in_order(keys)[i],
        #[trigger] in_order(keys)[j],
    ) by {
        assert(leq(in_order(keys)[i], in_order(keys)[j]));
    }
    broadcast use group_to_multiset_ensures;

    assert(in_order(keys).to_multiset().len() == in_order(keys).len());
    assert(keys.to_multiset().len() == keys.len());
}

/// The keys of a partition, sorted.
fn sort_keys(items: &Vec<HistogramKey>) -> (out: Vec<HistogramKey>)
    ensures
        hist_views(out@) == in_order(hist_views(items@)),
        out@.len() == items@.len(),
{
    let ghost all = hist_views(items@);
    let mut out: Vec<HistogramKey> = Vec::new();
    let mut i: usize = 0;
    assert(hist_views(out@) =~= Seq::empty());
    assert(all.take(0) =~= Seq::empty());
    while i < items.len()
        invariant
            i <= items@.len(),
            all == hist_views(items@),
            out@.len() == i,
            not_descending(hist_views(out@)),
            hist_views(out@).to_multiset() == all.take(i as int).to_multiset(),
        decreases items@.len() - i,
    {
        let key: HistogramKey = items[i];
        let ghost before = hist_views(out@);
        let mut lo: usize = 0;
        let mut hi: usize = out.len();
        while lo < hi
            invariant
                lo <= hi <= out@.len(),
                before == hist_views(out@),
                not_descending(before),
                forall|k: int| 0 <= k < lo ==> key_le(#[trigger] before[k], key@),
                forall|k: int| hi <= k < before.len() ==> key_lt(key@, #[trigger] before[k]),
            decreases hi - lo,
        {
            broadcast use group_key_order;

            let mid: usize = lo + (hi - lo) / 2;
            assert(before[mid as int] == out@[mid as int]@);
            if bytes_before(array_as_slice(&key), array_as_slice(&out[mid])) {
                assert forall|k: int| mid <= k < before.len() implies key_lt(key@, #[trigger] before[k]) by {
                    if mid < k {
                        assert(key_le(before[mid as int], before[k]));
                    }
                }
                hi = mid;
            } else {
                assert forall|k: int| 0 <= k <= mid implies key_le(#[trigger] before[k], key@) by {
                    if k < mid {
                        assert(key_le(before[k], before[mid as int]));
                    }
                }
                lo = mid + 1;
            }
        }
        out.insert(lo, key);
        proof {
            broadcast use group_key_order;

            let after = hist_views(out@);
            assert(after =~= before.insert(lo as int, key@));
            assert(not_descending(after)) by {
                assert forall|a: int, b: int| 0 <= a < b < after.len() implies key_le(
                    #[trigger] after[a],
                    #[trigger] after[b],
                ) by {
                    let a0 = if a < lo { a } else { a - 1 };
                    let b0 = if b < lo { b } else { b - 1 };
                    if a != lo && b != lo {
                        assert(after[a] == before[a0]);
                        assert(after[b] == before[b0]);
                    } else if a == lo {
                        assert(after[b] == before[b0]);
                    } else {
                        assert(after[a] == before[a0]);
                    }
                }
            }
            to_multiset_insert(before, lo as int, key@);
            assert(all.take(i + 1) =~= all.take(i as int).push(key@));
            to_multiset_build(all.take(i as int), key@);
        }
        i += 1;
    }
    proof {
        assert(all.take(i as int) =~= all);
        lemma_in_order(all, hist_views(out@));
    }
    out
}

/// The histogram of a field over the cells of a partition: bounds between its buckets, how many
/// values there are, and how many fall into a bucket.
pub struct FieldHistogram {
    pub tiles: Vec<HistogramKey>,
    pub count: usize,
    pub depth: usize,
}

/// How many of `n` values fall into a bucket of a partition.
pub open spec fn depth_of(n: nat) -> nat {
    n / 256
}

/// The bounds of the buckets of keys in their order: every `depth`-th key, and the last key.
pub open spec fn tiles_of(sorted: Seq<Seq<u8>>) -> Seq<Seq<u8>> {
    let tiles = Seq::new(256, |t: int| sorted[t * depth_of(sorted.len())]);
    if tiles.last() != sorted.last() {
        tiles.push(sorted.last())
    } else {
        tiles
    }
}

proof fn lemma_tile_inside(n: nat, t: int)
    requires
        n > 0,
        0 <= t < 256,
    ensures
        0 <= t * depth_of(n) < n,
{
    let d = depth_of(n) as int;
    assert(256 * d <= n);
    assert(0 <= t * d <= 255 * d) by (nonlinear_arith)
        requires
            0 <= t < 256,
            0 <= d,
    ;
}

/// What a histogram holds, keys by their bytes.
#[verifier::ext_equal]
pub struct HistogramView {
    pub tiles: Seq<Seq<u8>>,
    pub count: nat,
    pub depth: nat,
}

impl View for FieldHistogram {
    type V = HistogramView;

    open spec fn view(&self) -> HistogramView {
        HistogramView {
            tiles: hist_views(self.tiles@),
            count: self.count as nat,
            depth: self.depth as nat,
        }
    }
}

/// The histogram of the keys of a partition.
pub open spec fn histogram_of(keys: Seq<Seq<u8>>) -> HistogramView {
    HistogramView {
        tiles: tiles_of(in_order(keys)),
        count: keys.len(),
        depth: depth_of(keys.len()),
    }
}

impl FieldHistogram {
    /// The histogram of the values of a partition.
    pub fn compile(items: &Vec<HistogramKey>) -> (h: FieldHistogram)
        requires
            items@.len() > 0,
        ensures
            h@ == histogram_of(hist_views(items@)),
    {
        let sorted = sort_keys(items);
        let ghost keys = hist_views(sorted@);
        let ghost n = sorted@.len();
        let depth: usize = sorted.len() / HISTOGRAM_PARTITATION_BUCKETS;
        let mut tiles: Vec<HistogramKey> = Vec::new();
        let mut tile: usize = 0;
        while tile < HISTOGRAM_PARTITATION_BUCKETS
            invariant
                tile <= 256,
                n == sorted@.len(),
                n > 0,
                depth == depth_of(n),
                keys == hist_views(sorted@),
                tiles@.len() == tile,
                forall|t: int| 0 <= t < tile ==> (#[trigger] tiles@[t])@ == keys[t * depth_of(n)],
            decreases 256 - tile,
        {
            proof {
                lemma_tile_inside(n, tile as int);
                assert(sorted.len() == n);
            }
            tiles.push(sorted[tile * depth]);
            tile += 1;
        }
        let last: HistogramKey = sorted[sorted.len() - 1];
        let ghost plain = Seq::new(256, |t: int| keys[t * depth_of(n)]);
        proof {
            assert(hist_views(tiles@) =~= plain);
            assert(keys.last() == last@);
        }
        if !same_key(&tiles[HISTOGRAM_PARTITATION_BUCKETS - 1], &last) {
            tiles.push(last);
            assert(hist_views(tiles@) =~= plain.push(last@));
        }
        FieldHistogram { tiles, count: items.len(), depth }
    }
}

/// Whether two keys hold the same bytes.
fn same_key(a: &HistogramKey, b: &HistogramKey) -> (r: bool)
    ensures
        r == (a@ == b@),
{
    let x = array_as_slice(a);
    let y = array_as_slice(b);
    broadcast use group_key_order;

    !bytes_before(x, y) && !bytes_before(y, x)
}

/// The bounds of a partition's buckets do not descend; they start with the least key and end with
/// the greatest.
pub proof fn lemma_tiles_span(keys: Seq<Seq<u8>>)
    requires
        keys.len() > 0,
    ensures
        not_descending(tiles_of(in_order(keys))),
        tiles_of(in_order(keys))[0] == in_order(keys)[0],
        tiles_of(in_order(keys)).last() == in_order(keys).last(),
        256 <= tiles_of(in_order(keys)).len() <= 257,
{
    broadcast use group_key_order;

    let sorted = in_order(keys);
    let n = sorted.len();
    let tiles = tiles_of(sorted);
    lemma_in_order_ascends(keys);
    assert forall|i: int, j: int| 0 <= i < j < tiles.len() implies key_le(
        #[trigger] tiles[i],
        #[trigger] tiles[j],
    ) by {
        lemma_tile_inside(n, i);
        let d = depth_of(n) as int;
        if j < 256 {
            lemma_tile_inside(n, j);
            assert(i * d <= j * d) by (nonlinear_arith)
                requires
                    i < j,
                    0 <= d,
            ;
            if i * d < j * d {
                assert(key_le(sorted[i * d], sorted[j * d]));
            }
        } else {
            if i * d < n - 1 {
                assert(key_le(sorted[i * d], sorted[n - 1]));
            }
        }
    }
    assert(0 * depth_of(n) == 0);
}

/// A partition's histogram goes by the ranks of its keys: of `n` keys there is a bound every 256th
/// part of `n`, rounded down, counted in any order of the keys that does not descend; the last bound
/// is the greatest key. The histogram tells the number of keys, and how many lie from one bound to
/// the next.
pub proof fn lemma_bounds_by_rank(keys: Seq<Seq<u8>>, sorted: Seq<Seq<u8>>)
    requires
        keys.len() > 0,
        not_descending(sorted),
        sorted.to_multiset() == keys.to_multiset(),
    ensures
        ({
            let h = histogram_of(keys);
            let d = h.depth as int;
            &&& h.count == keys.len()
            &&& 256 * d <= keys.len() < 256 * d + 256
            &&& 256 <= h.tiles.len() <= 257
            &&& forall|t: int|
                0 <= t < 256 ==> #[trigger] h.tiles[t] == sorted[t * d]
            &&& h.tiles.last() == sorted.last()
            &&& h.tiles.len() == 257 <==> h.tiles[255] != sorted.last()
        }),
{
    lemma_in_order(keys, sorted);
    lemma_in_order_ascends(keys);
    lemma_tiles_span(keys);
    let h = histogram_of(keys);
    let d = h.depth as int;
    assert forall|t: int| 0 <= t < 256 implies #[trigger] h.tiles[t] == sorted[t * d] by {
        lemma_tile_inside(sorted.len(), t);
    }
    let plain = Seq::new(256, |t: int| sorted[t * depth_of(sorted.len())]);
    assert(plain.last() == plain[255]);
    assert(h.tiles[255] == plain[255]);
    assert(h.tiles == if plain.last() != sorted.last() {
        plain.push(sorted.last())
    } else {
        plain
    });
}

} // verus!
