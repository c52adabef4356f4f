//! Entry keys: byte strings compared byte by byte.
use smallvec::SmallVec;
use vstd::prelude::*;

verus! {

/// A key of the index. Its bytes are held in a `smallvec::SmallVec`, which keeps short keys inline.
#[verifier::external_body]
pub struct EntryKey {
    inner: SmallVec<[u8; 32]>,
}

/// The bytes that a key's small vector holds, first to last.
pub uninterp spec fn key_bytes(key: EntryKey) -> Seq<u8>;

impl View for EntryKey {
    type V = Seq<u8>;

    open spec fn view(&self) -> Seq<u8> {
        key_bytes(*self)
    }
}

/// `SmallVec::from_slice`: the new key holds the slice's bytes in order.
#[verifier::external_body]
fn key_from_slice(bytes: &[u8]) -> (key: EntryKey)
    ensures
        key_bytes(key) == bytes@,
{
    EntryKey { inner: SmallVec::from_slice(bytes) }
}

/// `SmallVec::as_slice`: the slice holds the key's bytes in order.
#[verifier::external_body]
fn key_as_slice(key: &EntryKey) -> (bytes: &[u8])
    ensures
        bytes@ == key_bytes(*key),
{
    key.inner.as_slice()
}

/// Byte strings in dictionary order: `a` comes strictly before `b`.
#[verifier::opaque]
pub open spec fn key_lt(a: Seq<u8>, b: Seq<u8>) -> bool
    decreases a.len(),
{
    if b.len() == 0 {
        false
    } else if a.len() == 0 {
        true
    } else {
        a[0] < b[0] || (a[0] == b[0] && key_lt(a.drop_first(), b.drop_first()))
    }
}

pub open spec fn key_le(a: Seq<u8>, b: Seq<u8>) -> bool {
    !key_lt(b, a)
}

/// No key comes before itself.
pub broadcast proof fn lemma_key_lt_irreflexive(a: Seq<u8>)
    ensures
        !(#[trigger] key_lt(a, a)),
    decreases a.len(),
{
    reveal(key_lt);
    if a.len() > 0 {
        lemma_key_lt_irreflexive(a.drop_first());
    }
}

/// The order of keys is transitive.
pub broadcast proof fn lemma_key_lt_transitive(a: Seq<u8>, b: Seq<u8>, c: Seq<u8>)
    requires
        #[trigger] key_lt(a, b),
        #[trigger] key_lt(b, c),
    ensures
        key_lt(a, c),
    decreases a.len(),
{
    reveal(key_lt);
    if a.len() > 0 && a[0] == b[0] && b[0] == c[0] {
        lemma_key_lt_transitive(a.drop_first(), b.drop_first(), c.drop_first());
    }
}

/// Of two different keys one comes first.
pub broadcast proof fn lemma_key_lt_total(a: Seq<u8>, b: Seq<u8>)
    ensures
        #[trigger] key_lt(a, b) || a == b || key_lt(b, a),
    decreases a.len(),
{
    reveal(key_lt);
    if a.len() == 0 && b.len() == 0 {
        assert(a =~= b);
    } else if a.len() > 0 && b.len() > 0 && a[0] == b[0] {
        lemma_key_lt_total(a.drop_first(), b.drop_first());
        if a.drop_first() == b.drop_first() {
            assert(a =~= seq![a[0]] + a.drop_first());
            assert(b =~= seq![b[0]] + b.drop_first());
        }
    }
}

/// No key comes before the empty key.
pub broadcast proof fn lemma_empty_key_first(a: Seq<u8>, b: Seq<u8>)
    requires
        b.len() == 0,
    ensures
        !(#[trigger] key_lt(a, b)),
{
    reveal(key_lt);
}

pub broadcast group group_key_order {
    lemma_key_lt_irreflexive,
    lemma_key_lt_transitive,
    lemma_key_lt_total,
    lemma_empty_key_first,
}

/// Strictly ascending keys.
pub open spec fn ascending(keys: Seq<Seq<u8>>) -> bool {
    forall|i: int, j: int| 0 <= i < j < keys.len() ==> key_lt(#[trigger] keys[i], #[trigger] keys[j])
}

/// No key comes after one further right.
pub open spec fn not_descending(keys: Seq<Seq<u8>>) -> bool {
    forall|i: int, j: int| 0 <= i < j < keys.len() ==> key_le(#[trigger] keys[i], #[trigger] keys[j])
}

/// The byte strings of a run of keys.
pub open spec fn key_views(keys: Seq<EntryKey>) -> Seq<Seq<u8>> {
    keys.map_values(|k: EntryKey| k@)
}

/// Whether `a` comes strictly before `b`.
pub fn bytes_before(a: &[u8], b: &[u8]) -> (r: bool)
    ensures
        r == key_lt(a@, b@),
{
    let mut i: usize = 0;
    proof {
        assert(a@.skip(0) =~= a@);
        assert(b@.skip(0) =~= b@);
    }
    while i < a.len() && i < b.len()
        invariant
            i <= a.len(),
            i <= b.len(),
            key_lt(a@, b@) == key_lt(a@.skip(i as int), b@.skip(i as int)),
        decreases a.len() - i,
    {
        proof {
            reveal(key_lt);
            assert(a@.skip(i as int).drop_first() =~= a@.skip(i + 1));
            assert(b@.skip(i as int).drop_first() =~= b@.skip(i + 1));
        }
        if a[i] < b[i] {
            return true;
        }
        if b[i] < a[i] {
            return false;
        }
        i += 1;
    }
    proof {
        reveal(key_lt);
    }
    i < b.len()
}

impl EntryKey {
    pub fn from_slice(bytes: &[u8]) -> (key: EntryKey)
        ensures
            key@ == bytes@,
    {
        key_from_slice(bytes)
    }

    pub fn as_slice(&self) -> (bytes: &[u8])
        ensures
            bytes@ == self@,
    {
        key_as_slice(self)
    }

    pub fn len(&self) -> (n: usize)
        ensures
            n == self@.len(),
    {
        key_as_slice(self).len()
    }

    /// Whether this key comes strictly before `other`.
    pub fn before(&self, other: &EntryKey) -> (r: bool)
        ensures
            r == key_lt(self@, other@),
    {
        bytes_before(self.as_slice(), other.as_slice())
    }

    /// Whether both keys hold the same bytes.
    pub fn same(&self, other: &EntryKey) -> (r: bool)
        ensures
            r == (self@ == other@),
    {
        let a = self.as_slice();
        let b = other.as_slice();
        if a.len() != b.len() {
            return false;
        }
        let mut i: usize = 0;
        while i < a.len()
            invariant
                i <= a.len(),
                a@ == self@,
                b@ == other@,
                a@.len() == b@.len(),
                forall|j: int| 0 <= j < i ==> a@[j] == b@[j],
            decreases a.len() - i,
        {
            if a[i] != b[i] {
                return false;
            }
            i += 1;
        }
        assert(a@ =~= b@);
        true
    }

    /// A copy of the key: `SmallVec::clone` copies the slice of its items in this way.
    pub fn duplicate(&self) -> (key: EntryKey)
        ensures
            key@ == self@,
    {
        EntryKey::from_slice(self.as_slice())
    }

    /// The key's bytes as a vector.
    pub fn to_vec(&self) -> (bytes: Vec<u8>)
        ensures
            bytes@ == self@,
    {
        slice_to_vec(self.as_slice())
    }
}

/// Copies a slice of bytes.
pub fn slice_to_vec(s: &[u8]) -> (v: Vec<u8>)
    ensures
        v@ == s@,
{
    let mut v: Vec<u8> = Vec::new();
    let mut i: usize = 0;
    while i < s.len()
        invariant
            i <= s.len(),
            v@ == s@.take(i as int),
        decreases s.len() - i,
    {
        assert(s@.take(i + 1) =~= s@.take(i as int).push(s@[i as int]));
        v.push(s[i]);
        i += 1;
    }
    assert(s@.take(i as int) =~= s@);
    v
}

/// Copies a run of keys.
pub fn duplicate_keys(keys: &Vec<EntryKey>) -> (out: Vec<EntryKey>)
    ensures
        key_views(out@) == key_views(keys@),
{
    let mut out: Vec<EntryKey> = Vec::new();
    let mut i: usize = 0;
    while i < keys.len()
        invariant
            i <= keys.len(),
            key_views(out@) == key_views(keys@).take(i as int),
        decreases keys.len() - i,
    {
        let ghost before = out@;
        out.push(keys[i].duplicate());
        assert(key_views(out@) =~= key_views(before).push(key_views(keys@)[i as int]));
        assert(key_views(keys@).take(i + 1) =~= key_views(keys@).take(i as int).push(
            key_views(keys@)[i as int],
        ));
        i += 1;
    }
    assert(key_views(keys@).take(i as int) =~= key_views(keys@));
    out
}

/// `pos` parts the keys before `key` from the others.
pub open spec fn is_lower_bound(keys: Seq<Seq<u8>>, key: Seq<u8>, pos: int) -> bool {
    &&& 0 <= pos <= keys.len()
    &&& forall|i: int| 0 <= i < pos ==> key_lt(#[trigger] keys[i], key)
    &&& forall|i: int| pos <= i < keys.len() ==> key_le(key, #[trigger] keys[i])
}

/// `pos` parts the keys up to and with `key` from those after it.
pub open spec fn is_upper_bound(keys: Seq<Seq<u8>>, key: Seq<u8>, pos: int) -> bool {
    &&& 0 <= pos <= keys.len()
    &&& forall|i: int| 0 <= i < pos ==> key_le(#[trigger] keys[i], key)
    &&& forall|i: int| pos <= i < keys.len() ==> key_lt(key, #[trigger] keys[i])
}

/// Binary search for the first key that does not come before `key`.
pub fn lower_bound(keys: &Vec<EntryKey>, key: &EntryKey) -> (pos: usize)
    requires
        ascending(key_views(keys@)),
    ensures
        is_lower_bound(key_views(keys@), key@, pos as int),
{
    let ghost views = key_views(keys@);
    let mut lo: usize = 0;
    let mut hi: usize = keys.len();
    while lo < hi
        invariant
            lo <= hi <= keys.len(),
            views == key_views(keys@),
            ascending(views),
            forall|i: int| 0 <= i < lo ==> key_lt(#[trigger] views[i], key@),
            forall|i: int| hi <= i < views.len() ==> key_le(key@, #[trigger] views[i]),
        decreases hi - lo,
    {
        broadcast use group_key_order;

        let mid: usize = lo + (hi - lo) / 2;
        assert(views[mid as int] == keys@[mid as int]@);
        if keys[mid].before(key) {
            lo = mid + 1;
        } else {
            hi = mid;
        }
    }
    lo
}

/// Binary search for the first key that comes after `key`.
pub fn upper_bound(keys: &Vec<EntryKey>, key: &EntryKey) -> (pos: usize)
    requires
        ascending(key_views(keys@)) || not_descending(key_views(keys@)),
    ensures
        is_upper_bound(key_views(keys@), key@, pos as int),
{
    let ghost views = key_views(keys@);
    proof {
        broadcast use group_key_order;

        assert(not_descending(views));
    }
    let mut lo: usize = 0;
    let mut hi: usize = keys.len();
    while lo < hi
        invariant
            lo <= hi <= keys.len(),
            views == key_views(keys@),
            not_descending(views),
            forall|i: int| 0 <= i < lo ==> key_le(#[trigger] views[i], key@),
            forall|i: int| hi <= i < views.len() ==> key_lt(key@, #[trigger] views[i]),
        decreases hi - lo,
    {
        broadcast use group_key_order;

        let mid: usize = lo + (hi - lo) / 2;
        assert(views[mid as int] == keys@[mid as int]@);
        if key.before(&keys[mid]) {
            hi = mid;
        } else {
            lo = mid + 1;
        }
    }
    lo
}

/// Keys are in dictionary order: where two differ first, the smaller byte comes first; and a key
/// comes before each longer one that begins with it.
pub proof fn lemma_dictionary_order(a: Seq<u8>, b: Seq<u8>, i: int)
    requires
        0 <= i <= a.len(),
        i < b.len(),
        a.take(i) == b.take(i),
        i == a.len() || a[i] < b[i],
    ensures
        key_lt(a, b),
        key_le(a, b),
        !key_lt(b, a),
    decreases i,
{
    broadcast use group_key_order;

    reveal_with_fuel(key_lt, 2);
    if i > 0 {
        assert(a.take(i)[0] == a[0]);
        assert(b.take(i)[0] == b[0]);
        assert(a.drop_first().take(i - 1) =~= a.take(i).drop_first());
        assert(b.drop_first().take(i - 1) =~= b.take(i).drop_first());
        lemma_dictionary_order(a.drop_first(), b.drop_first(), i - 1);
    }
}

} // verus!
