//! The memtable: the ordered table of keys and values that the store keeps
//! in memory. Keys are ordered lexicographically, byte by byte.
//!
//! The entries stand in a vector in ascending order of their keys, and are
//! found by binary search.
use vstd::prelude::*;

verus! {

/// A byte string kept inline while it is short; the storage is a
/// `tinyvec::TinyVec<[u8; 16]>`.
#[verifier::external_body]
pub struct ByteString {
    inner: tinyvec::TinyVec<[u8; 16]>,
}

/// The bytes that a byte string holds, in order.
pub uninterp spec fn byte_string_contents(s: ByteString) -> Seq<u8>;

/// Calls `TinyVec::from` on a slice, which copies the slice: inline where
/// it fits the array, to the heap where it does not. The contract claims
/// that the byte string holds the bytes of the slice.
#[verifier::external_body]
fn byte_string_from_slice(bytes: &[u8]) -> (s: ByteString)
    ensures
        byte_string_contents(s) == bytes@,
{
    ByteString { inner: tinyvec::TinyVec::from(bytes) }
}

/// Calls `TinyVec::as_slice`. The contract claims that the slice is the
/// bytes that the byte string holds.
#[verifier::external_body]
fn byte_string_as_slice(s: &ByteString) -> (bytes: &[u8])
    ensures
        bytes@ == byte_string_contents(*s),
{
    s.inner.as_slice()
}

/// Whether `a` comes before `b` in the lexicographic order of bytes: at the
/// first place where they differ `a` has the smaller byte, or `a` ends
/// there and `b` does not.
pub open spec fn lex_less(a: Seq<u8>, b: Seq<u8>) -> bool
    decreases a.len(),
{
    if b.len() == 0 {
        false
    } else if a.len() == 0 {
        true
    } else if a[0] != b[0] {
        a[0] < b[0]
    } else {
        lex_less(a.drop_first(), b.drop_first())
    }
}

/// No key comes before itself.
pub proof fn lemma_lex_less_irreflexive(a: Seq<u8>)
    ensures
        !lex_less(a, a),
    decreases a.len(),
{
    if a.len() > 0 {
        lemma_lex_less_irreflexive(a.drop_first());
    }
}

/// The order of keys is transitive.
pub proof fn lemma_lex_less_transitive(a: Seq<u8>, b: Seq<u8>, c: Seq<u8>)
    requires
        lex_less(a, b),
        lex_less(b, c),
    ensures
        lex_less(a, c),
    decreases a.len(),
{
    if a.len() > 0 && a[0] == b[0] && b[0] == c[0] {
        lemma_lex_less_transitive(a.drop_first(), b.drop_first(), c.drop_first());
    }
}

/// Of two different keys, one comes before the other.
pub proof fn lemma_lex_less_total(a: Seq<u8>, b: Seq<u8>)
    ensures
        lex_less(a, b) || lex_less(b, a) || a == b,
    decreases a.len(),
{
    if a.len() > 0 && b.len() > 0 && a[0] == b[0] {
        lemma_lex_less_total(a.drop_first(), b.drop_first());
        if a.drop_first() == b.drop_first() {
            assert(a =~= seq![a[0]] + a.drop_first());
            assert(b =~= seq![b[0]] + b.drop_first());
        }
    } else if a.len() == 0 && b.len() == 0 {
        assert(a =~= b);
    }
}

/// Of two keys, at most one comes before the other.
pub proof fn lemma_lex_less_asymmetric(a: Seq<u8>, b: Seq<u8>)
    requires
        lex_less(a, b),
    ensures
        !lex_less(b, a),
        a != b,
{
    lemma_lex_less_irreflexive(a);
    if lex_less(b, a) {
        lemma_lex_less_transitive(a, b, a);
    }
}

/// Whether `key` lies in the half-open interval from `start` to `end`.
pub open spec fn in_range(key: Seq<u8>, start: Seq<u8>, end: Seq<u8>) -> bool {
    !lex_less(key, start) && lex_less(key, end)
}

/// Whether the keys of `entries` ascend strictly.
pub open spec fn ascending(entries: Seq<(Seq<u8>, Seq<u8>)>) -> bool {
    forall|i: int, j: int|
        0 <= i < j < entries.len() ==> lex_less(
            (#[trigger] entries[i]).0,
            (#[trigger] entries[j]).0,
        )
}

/// The mapping that a sequence of keys with their values stands for.
pub open spec fn map_of(entries: Seq<(Seq<u8>, Seq<u8>)>) -> Map<Seq<u8>, Seq<u8>> {
    Map::new(
        |k: Seq<u8>| exists|i: int| 0 <= i < entries.len() && (#[trigger] entries[i]).0 == k,
        |k: Seq<u8>|
            entries[choose|i: int| 0 <= i < entries.len() && (#[trigger] entries[i]).0 == k].1,
    )
}

/// Whether `key` is the key of one of `entries`.
pub open spec fn holds_key(entries: Seq<(Seq<u8>, Seq<u8>)>, key: Seq<u8>) -> bool {
    exists|i: int| 0 <= i < entries.len() && (#[trigger] entries[i]).0 == key
}

/// Whether `found` is what a scan of `map` from `start` to `end` yields:
/// the keys of the map that lie in the interval, each with its value, in
/// ascending order.
pub open spec fn is_scan_of(
    found: Seq<(Seq<u8>, Seq<u8>)>,
    map: Map<Seq<u8>, Seq<u8>>,
    start: Seq<u8>,
    end: Seq<u8>,
) -> bool {
    &&& ascending(found)
    &&& forall|i: int|
        0 <= i < found.len() ==> {
            &&& in_range((#[trigger] found[i]).0, start, end)
            &&& map.contains_key(found[i].0)
            &&& map[found[i].0] == found[i].1
        }
    &&& forall|k: Seq<u8>|
        #![trigger map.contains_key(k)]
        map.contains_key(k) && in_range(k, start, end) ==> holds_key(found, k)
}

/// Whether every key of `a` is a key of `b`.
pub open spec fn keys_within(a: Seq<(Seq<u8>, Seq<u8>)>, b: Seq<(Seq<u8>, Seq<u8>)>) -> bool {
    forall|i: int| 0 <= i < a.len() ==> holds_key(b, (#[trigger] a[i]).0)
}

/// Two ascending sequences with the same keys have the same key at every
/// place.
pub proof fn lemma_same_keys_at(a: Seq<(Seq<u8>, Seq<u8>)>, b: Seq<(Seq<u8>, Seq<u8>)>, i: int)
    requires
        ascending(a),
        ascending(b),
        keys_within(a, b),
        keys_within(b, a),
        0 <= i < a.len(),
        i < b.len(),
    ensures
        a[i].0 == b[i].0,
    decreases i,
{
    assert(holds_key(b, a[i].0));
    assert(holds_key(a, b[i].0));
    let j = choose|j: int| 0 <= j < b.len() && (#[trigger] b[j]).0 == a[i].0;
    let k = choose|k: int| 0 <= k < a.len() && (#[trigger] a[k]).0 == b[i].0;
    if j < i {
        lemma_same_keys_at(a, b, j);
        assert(lex_less(a[j].0, a[i].0));
        lemma_lex_less_irreflexive(a[i].0);
    } else if k < i {
        lemma_same_keys_at(a, b, k);
        assert(lex_less(b[k].0, b[i].0));
        lemma_lex_less_irreflexive(b[i].0);
    } else if j > i && k > i {
        assert(lex_less(b[i].0, b[j].0));
        assert(lex_less(a[i].0, a[k].0));
        lemma_lex_less_asymmetric(a[i].0, b[i].0);
    }
}

/// A scan has one result: two sequences that both are what a scan of
/// `map` from `start` to `end` yields are the same sequence.
pub proof fn lemma_scan_unique(
    a: Seq<(Seq<u8>, Seq<u8>)>,
    b: Seq<(Seq<u8>, Seq<u8>)>,
    map: Map<Seq<u8>, Seq<u8>>,
    start: Seq<u8>,
    end: Seq<u8>,
)
    requires
        is_scan_of(a, map, start, end),
        is_scan_of(b, map, start, end),
    ensures
        a == b,
{
    assert forall|i: int| 0 <= i < a.len() implies holds_key(b, (#[trigger] a[i]).0) by {
        assert(map.contains_key(a[i].0));
    }
    assert forall|i: int| 0 <= i < b.len() implies holds_key(a, (#[trigger] b[i]).0) by {
        assert(map.contains_key(b[i].0));
    }
    if a.len() > b.len() {
        let n = b.len() as int;
        assert(holds_key(b, a[n].0));
        let j = choose|j: int| 0 <= j < b.len() && (#[trigger] b[j]).0 == a[n].0;
        lemma_same_keys_at(a, b, j);
        assert(lex_less(a[j].0, a[n].0));
        lemma_lex_less_irreflexive(a[n].0);
    }
    if b.len() > a.len() {
        let n = a.len() as int;
        assert(holds_key(a, b[n].0));
        let j = choose|j: int| 0 <= j < a.len() && (#[trigger] a[j]).0 == b[n].0;
        lemma_same_keys_at(a, b, j);
        assert(lex_less(b[j].0, b[n].0));
        lemma_lex_less_irreflexive(b[n].0);
    }
    assert forall|i: int| 0 <= i < a.len() implies a[i] == b[i] by {
        lemma_same_keys_at(a, b, i);
    }
    assert(a =~= b);
}

/// In an ascending sequence every entry is what the mapping holds under its
/// key.
pub proof fn lemma_map_of_entry(entries: Seq<(Seq<u8>, Seq<u8>)>, i: int)
    requires
        ascending(entries),
        0 <= i < entries.len(),
    ensures
        map_of(entries).contains_key(entries[i].0),
        map_of(entries)[entries[i].0] == entries[i].1,
{
    let k = entries[i].0;
    let j = choose|j: int| 0 <= j < entries.len() && (#[trigger] entries[j]).0 == k;
    lemma_lex_less_irreflexive(k);
    assert(j == i) by {
        if j < i {
            assert(lex_less(entries[j].0, entries[i].0));
        } else if i < j {
            assert(lex_less(entries[i].0, entries[j].0));
        }
    }
}

/// Putting a new key at its place in an ascending sequence keeps the
/// sequence ascending and adds the key to the mapping.
pub proof fn lemma_map_of_insert(
    entries: Seq<(Seq<u8>, Seq<u8>)>,
    at: int,
    key: Seq<u8>,
    value: Seq<u8>,
)
    requires
        ascending(entries),
        0 <= at <= entries.len(),
        forall|i: int| 0 <= i < at ==> lex_less((#[trigger] entries[i]).0, key),
        forall|i: int| at <= i < entries.len() ==> lex_less(key, (#[trigger] entries[i]).0),
    ensures
        ascending(entries.insert(at, (key, value))),
        map_of(entries.insert(at, (key, value))) == map_of(entries).insert(key, value),
{
    let after = entries.insert(at, (key, value));
    assert forall|i: int, j: int| 0 <= i < j < after.len() implies lex_less(
        (#[trigger] after[i]).0,
        (#[trigger] after[j]).0,
    ) by {
        let oi = if i < at { i } else { i - 1 };
        let oj = if j < at { j } else { j - 1 };
        if i != at && j != at {
            assert(after[i] == entries[oi]);
            assert(after[j] == entries[oj]);
        } else if i == at {
            assert(after[j] == entries[oj]);
        } else {
            assert(after[i] == entries[oi]);
        }
    }
    assert forall|k: Seq<u8>| map_of(after).contains_key(k) <==> map_of(entries).insert(
        key,
        value,
    ).contains_key(k) by {
        if map_of(after).contains_key(k) {
            let i = choose|i: int| 0 <= i < after.len() && (#[trigger] after[i]).0 == k;
            if i != at {
                let oi = if i < at { i } else { i - 1 };
                assert(entries[oi].0 == k);
            }
        }
        if map_of(entries).contains_key(k) {
            let i = choose|i: int| 0 <= i < entries.len() && (#[trigger] entries[i]).0 == k;
            let ni = if i < at { i } else { i + 1 };
            assert(after[ni].0 == k);
        }
        if k == key {
            assert(after[at].0 == k);
        }
    }
    assert forall|k: Seq<u8>| map_of(after).contains_key(k) implies map_of(after)[k] == map_of(
        entries,
    ).insert(key, value)[k] by {
        let i = choose|i: int| 0 <= i < after.len() && (#[trigger] after[i]).0 == k;
        lemma_map_of_entry(after, i);
        if i != at {
            let oi = if i < at { i } else { i - 1 };
            assert(after[i] == entries[oi]);
            lemma_map_of_entry(entries, oi);
            if oi < at {
                lemma_lex_less_asymmetric(entries[oi].0, key);
            } else {
                lemma_lex_less_asymmetric(key, entries[oi].0);
            }
        }
    }
    assert(map_of(after) =~= map_of(entries).insert(key, value));
}

/// Replacing the value of an entry of an ascending sequence keeps the
/// sequence ascending and replaces the value in the mapping.
pub proof fn lemma_map_of_update(entries: Seq<(Seq<u8>, Seq<u8>)>, at: int, value: Seq<u8>)
    requires
        ascending(entries),
        0 <= at < entries.len(),
    ensures
        ascending(entries.update(at, (entries[at].0, value))),
        map_of(entries.update(at, (entries[at].0, value))) == map_of(entries).insert(
            entries[at].0,
            value,
        ),
{
    let key = entries[at].0;
    let after = entries.update(at, (key, value));
    assert forall|i: int, j: int| 0 <= i < j < after.len() implies lex_less(
        (#[trigger] after[i]).0,
        (#[trigger] after[j]).0,
    ) by {
        assert(after[i].0 == entries[i].0);
        assert(after[j].0 == entries[j].0);
    }
    assert forall|k: Seq<u8>| map_of(after).contains_key(k) <==> map_of(entries).insert(
        key,
        value,
    ).contains_key(k) by {
        if map_of(after).contains_key(k) {
            let i = choose|i: int| 0 <= i < after.len() && (#[trigger] after[i]).0 == k;
            assert(entries[i].0 == k);
        }
        if map_of(entries).contains_key(k) {
            let i = choose|i: int| 0 <= i < entries.len() && (#[trigger] entries[i]).0 == k;
            assert(after[i].0 == k);
        }
        if k == key {
            assert(after[at].0 == k);
        }
    }
    assert forall|k: Seq<u8>| map_of(after).contains_key(k) implies map_of(after)[k] == map_of(
        entries,
    ).insert(key, value)[k] by {
        let i = choose|i: int| 0 <= i < after.len() && (#[trigger] after[i]).0 == k;
        lemma_map_of_entry(after, i);
        if i != at {
            assert(after[i] == entries[i]);
            lemma_map_of_entry(entries, i);
            if i < at {
                assert(lex_less(entries[i].0, entries[at].0));
                lemma_lex_less_asymmetric(entries[i].0, key);
            } else {
                assert(lex_less(entries[at].0, entries[i].0));
                lemma_lex_less_asymmetric(key, entries[i].0);
            }
        }
    }
    assert(map_of(after) =~= map_of(entries).insert(key, value));
}

/// Taking an entry out of an ascending sequence keeps the sequence
/// ascending and takes its key out of the mapping.
pub proof fn lemma_map_of_remove(entries: Seq<(Seq<u8>, Seq<u8>)>, at: int)
    requires
        ascending(entries),
        0 <= at < entries.len(),
    ensures
        ascending(entries.remove(at)),
        map_of(entries.remove(at)) == map_of(entries).remove(entries[at].0),
{
    let key = entries[at].0;
    let after = entries.remove(at);
    assert forall|i: int, j: int| 0 <= i < j < after.len() implies lex_less(
        (#[trigger] after[i]).0,
        (#[trigger] after[j]).0,
    ) by {
        let oi = if i < at { i } else { i + 1 };
        let oj = if j < at { j } else { j + 1 };
        assert(after[i] == entries[oi]);
        assert(after[j] == entries[oj]);
    }
    assert forall|k: Seq<u8>| map_of(after).contains_key(k) <==> map_of(entries).remove(
        key,
    ).contains_key(k) by {
        if map_of(after).contains_key(k) {
            let i = choose|i: int| 0 <= i < after.len() && (#[trigger] after[i]).0 == k;
            let oi = if i < at { i } else { i + 1 };
            assert(entries[oi].0 == k);
            if oi < at {
                assert(lex_less(entries[oi].0, entries[at].0));
                lemma_lex_less_asymmetric(entries[oi].0, key);
            } else {
                assert(lex_less(entries[at].0, entries[oi].0));
                lemma_lex_less_asymmetric(key, entries[oi].0);
            }
        }
        if map_of(entries).contains_key(k) && k != key {
            let i = choose|i: int| 0 <= i < entries.len() && (#[trigger] entries[i]).0 == k;
            let ni = if i < at { i } else { i - 1 };
            assert(after[ni].0 == k);
        }
    }
    assert forall|k: Seq<u8>| map_of(after).contains_key(k) implies map_of(after)[k] == map_of(
        entries,
    ).remove(key)[k] by {
        let i = choose|i: int| 0 <= i < after.len() && (#[trigger] after[i]).0 == k;
        lemma_map_of_entry(after, i);
        let oi = if i < at { i } else { i + 1 };
        assert(after[i] == entries[oi]);
        lemma_map_of_entry(entries, oi);
    }
    assert(map_of(after) =~= map_of(entries).remove(key));
}

/// Whether `a` comes before `b` in the lexicographic order of bytes.
pub fn key_less(a: &[u8], b: &[u8]) -> (less: bool)
    ensures
        less == lex_less(a@, b@),
{
    let mut i: usize = 0;
    assert(a@.skip(0) =~= a@);
    assert(b@.skip(0) =~= b@);
    while i < a.len() && i < b.len()
        invariant
            i <= a@.len(),
            i <= b@.len(),
            lex_less(a@, b@) == lex_less(a@.skip(i as int), b@.skip(i as int)),
        decreases a@.len() - i,
    {
        let ghost ra = a@.skip(i as int);
        let ghost rb = b@.skip(i as int);
        assert(ra[0] == a@[i as int]);
        assert(rb[0] == b@[i as int]);
        if a[i] != b[i] {
            return a[i] < b[i];
        }
        assert(ra.drop_first() =~= a@.skip(i + 1));
        assert(rb.drop_first() =~= b@.skip(i + 1));
        i = i + 1;
    }
    a.len() < b.len()
}

/// The ordered table of keys and values.
pub struct Memtable {
    table: Vec<(ByteString, ByteString)>,
}

/// The keys and values that a vector of byte strings holds.
pub open spec fn contents_of(table: Seq<(ByteString, ByteString)>) -> Seq<(Seq<u8>, Seq<u8>)> {
    Seq::new(
        table.len(),
        |i: int| (byte_string_contents(table[i].0), byte_string_contents(table[i].1)),
    )
}

impl View for Memtable {
    type V = Map<Seq<u8>, Seq<u8>>;

    /// The mapping from keys to values that the table holds.
    closed spec fn view(&self) -> Map<Seq<u8>, Seq<u8>> {
        map_of(contents_of(self.table@))
    }
}

impl Memtable {
    #[verifier::type_invariant]
    spec fn inv(self) -> bool {
        ascending(contents_of(self.table@))
    }

    /// An empty table.
    pub fn new() -> (memtable: Memtable)
        ensures
            memtable@ == Map::<Seq<u8>, Seq<u8>>::empty(),
    {
        let memtable = Memtable { table: Vec::new() };
        assert(memtable@ =~= Map::<Seq<u8>, Seq<u8>>::empty());
        memtable
    }

    /// The place of `key` in the table: the index of the first entry whose
    /// key does not come before `key`.
    fn lower_bound(&self, key: &[u8]) -> (at: usize)
        ensures
            at <= self.table@.len(),
            forall|i: int|
                0 <= i < at ==> lex_less((#[trigger] contents_of(self.table@)[i]).0, key@),
            forall|i: int|
                at <= i < self.table@.len() ==> !lex_less(
                    (#[trigger] contents_of(self.table@)[i]).0,
                    key@,
                ),
    {
        proof {
            use_type_invariant(self);
        }
        let ghost entries = contents_of(self.table@);
        let mut lo: usize = 0;
        let mut hi: usize = self.table.len();
        while lo < hi
            invariant
                lo <= hi <= self.table@.len(),
                entries == contents_of(self.table@),
                ascending(entries),
                forall|i: int| 0 <= i < lo ==> lex_less((#[trigger] entries[i]).0, key@),
                forall|i: int|
                    hi <= i < self.table@.len() ==> !lex_less((#[trigger] entries[i]).0, key@),
            decreases hi - lo,
        {
            let mid = lo + (hi - lo) / 2;
            let mid_key = byte_string_as_slice(&self.table[mid].0);
            assert(mid_key@ == entries[mid as int].0);
            if key_less(mid_key, key) {
                assert forall|i: int| 0 <= i < mid + 1 implies lex_less(
                    (#[trigger] entries[i]).0,
                    key@,
                ) by {
                    if i < mid {
                        assert(lex_less(entries[i].0, entries[mid as int].0));
                        lemma_lex_less_transitive(entries[i].0, entries[mid as int].0, key@);
                    }
                }
                lo = mid + 1;
            } else {
                assert forall|i: int| mid <= i < self.table@.len() implies !lex_less(
                    (#[trigger] entries[i]).0,
                    key@,
                ) by {
                    if mid < i && lex_less(entries[i].0, key@) {
                        assert(lex_less(entries[mid as int].0, entries[i].0));
                        lemma_lex_less_transitive(entries[mid as int].0, entries[i].0, key@);
                    }
                }
                hi = mid;
            }
        }
        lo
    }

    /// Whether the entry at `at`, the place of `key`, holds `key` itself.
    fn holds_at(&self, at: usize, key: &[u8]) -> (found: bool)
        requires
            at <= self.table@.len(),
            forall|i: int|
                0 <= i < at ==> lex_less((#[trigger] contents_of(self.table@)[i]).0, key@),
            forall|i: int|
                at <= i < self.table@.len() ==> !lex_less(
                    (#[trigger] contents_of(self.table@)[i]).0,
                    key@,
                ),
        ensures
            found == self@.contains_key(key@),
            found ==> at < self.table@.len() && contents_of(self.table@)[at as int].0 == key@,
            !found ==> forall|i: int|
                at <= i < self.table@.len() ==> lex_less(
                    key@,
                    (#[trigger] contents_of(self.table@)[i]).0,
                ),
    {
        proof {
            use_type_invariant(self);
        }
        let ghost entries = contents_of(self.table@);
        let found = at < self.table.len() && !key_less(
            key,
            byte_string_as_slice(&self.table[at].0),
        );
        proof {
            if found {
                lemma_lex_less_total(key@, entries[at as int].0);
                assert(entries[at as int].0 == key@);
                lemma_map_of_entry(entries, at as int);
            } else {
                assert forall|i: int| at <= i < self.table@.len() implies lex_less(
                    key@,
                    (#[trigger] entries[i]).0,
                ) by {
                    assert(lex_less(key@, entries[at as int].0));
                    if at < i {
                        assert(lex_less(entries[at as int].0, entries[i].0));
                        lemma_lex_less_transitive(key@, entries[at as int].0, entries[i].0);
                    }
                }
                if self@.contains_key(key@) {
                    let i = choose|i: int|
                        0 <= i < entries.len() && (#[trigger] entries[i]).0 == key@;
                    lemma_lex_less_irreflexive(key@);
                    if i < at {
                        assert(lex_less(entries[i].0, key@));
                    } else {
                        assert(lex_less(key@, entries[i].0));
                    }
                }
            }
        }
        found
    }

    /// Stores `value` under `key`, in place of what was stored there.
    pub fn insert_or_update(&mut self, key: &[u8], value: &[u8])
        ensures
            final(self)@ == old(self)@.insert(key@, value@),
    {
        proof {
            use_type_invariant(&*self);
        }
        let at = self.lower_bound(key);
        let found = self.holds_at(at, key);
        let ghost entries = contents_of(self.table@);
        let mut table: Vec<(ByteString, ByteString)> = Vec::new();
        core::mem::swap(&mut table, &mut self.table);
        let entry = (byte_string_from_slice(key), byte_string_from_slice(value));
        if found {
            table[at] = entry;
            proof {
                lemma_map_of_update(entries, at as int, value@);
                assert(contents_of(table@) =~= entries.update(at as int, (key@, value@)));
            }
        } else {
            table.insert(at, entry);
            proof {
                lemma_map_of_insert(entries, at as int, key@, value@);
                assert(contents_of(table@) =~= entries.insert(at as int, (key@, value@)));
            }
        }
        self.table = table;
    }

    /// The value stored under `key`, if there is one.
    pub fn get(&self, key: &[u8]) -> (value: Option<&[u8]>)
        ensures
            match value {
                Some(v) => self@.contains_key(key@) && self@[key@] == v@,
                None => !self@.contains_key(key@),
            },
    {
        proof {
            use_type_invariant(self);
        }
        let at = self.lower_bound(key);
        if self.holds_at(at, key) {
            proof {
                lemma_map_of_entry(contents_of(self.table@), at as int);
            }
            Some(byte_string_as_slice(&self.table[at].1))
        } else {
            None
        }
    }

    /// Takes `key` and its value out of the table, and says whether the key
    /// was there.
    pub fn delete(&mut self, key: &[u8]) -> (existed: bool)
        ensures
            existed == old(self)@.contains_key(key@),
            final(self)@ == old(self)@.remove(key@),
    {
        proof {
            use_type_invariant(&*self);
        }
        let at = self.lower_bound(key);
        let found = self.holds_at(at, key);
        if found {
            let ghost entries = contents_of(self.table@);
            let mut table: Vec<(ByteString, ByteString)> = Vec::new();
            core::mem::swap(&mut table, &mut self.table);
            let _removed = table.remove(at);
            proof {
                lemma_map_of_remove(entries, at as int);
                assert(contents_of(table@) =~= entries.remove(at as int));
            }
            self.table = table;
        } else {
            assert(self@ =~= old(self)@.remove(key@));
        }
        found
    }

    /// The entries whose keys lie in the half-open interval from `start` to
    /// `end`, in ascending order of their keys.
    pub fn scan(&self, start: &[u8], end: &[u8]) -> (it: Iter<'_>)
        ensures
            is_scan_of(it@, self@, start@, end@),
    {
        proof {
            use_type_invariant(self);
        }
        let from = self.lower_bound(start);
        let upto = self.lower_bound(end);
        let to = if upto < from {
            from
        } else {
            upto
        };
        let it = Iter { table: &self.table, pos: from, end: to };
        proof {
            let entries = contents_of(self.table@);
            let found = it@;
            assert forall|i: int| 0 <= i < found.len() implies found[i] == entries[from + i] by {}
            assert forall|i: int| 0 <= i < found.len() implies {
                &&& in_range((#[trigger] found[i]).0, start@, end@)
                &&& self@.contains_key(found[i].0)
                &&& self@[found[i].0] == found[i].1
            } by {
                assert(found[i] == entries[from + i]);
                lemma_map_of_entry(entries, from + i);
            }
            assert forall|i: int, j: int| 0 <= i < j < found.len() implies lex_less(
                (#[trigger] found[i]).0,
                (#[trigger] found[j]).0,
            ) by {
                assert(found[i] == entries[from + i]);
                assert(found[j] == entries[from + j]);
            }
            assert forall|k: Seq<u8>|
                #![trigger self@.contains_key(k)]
                self@.contains_key(k) && in_range(k, start@, end@) implies holds_key(
                found,
                k,
            ) by {
                let j = choose|j: int| 0 <= j < entries.len() && (#[trigger] entries[j]).0 == k;
                assert(from <= j) by {
                    if j < from {
                        assert(lex_less(entries[j].0, start@));
                    }
                }
                assert(j < upto) by {
                    if upto <= j {
                        assert(!lex_less(entries[j].0, end@));
                    }
                }
                assert(found[j - from].0 == k);
            }
        }
        it
    }
}

/// A cursor over the entries that a scan found. The entries are borrowed
/// from the table.
pub struct Iter<'a> {
    table: &'a Vec<(ByteString, ByteString)>,
    pos: usize,
    end: usize,
}

impl<'a> View for Iter<'a> {
    type V = Seq<(Seq<u8>, Seq<u8>)>;

    /// The entries that the cursor has yet to yield.
    closed spec fn view(&self) -> Seq<(Seq<u8>, Seq<u8>)> {
        contents_of(self.table@).subrange(self.pos as int, self.end as int)
    }
}

impl<'a> Iter<'a> {
    #[verifier::type_invariant]
    spec fn inv(self) -> bool {
        self.pos <= self.end <= self.table@.len()
    }

    /// Yields the next entry: its key and its value.
    pub fn next(&mut self) -> (item: Option<(&'a [u8], &'a [u8])>)
        ensures
            match item {
                Some((key, value)) => {
                    &&& old(self)@.len() > 0
                    &&& (key@, value@) == old(self)@.first()
                    &&& final(self)@ == old(self)@.drop_first()
                },
                None => old(self)@.len() == 0 && final(self)@ == old(self)@,
            },
    {
        proof {
            use_type_invariant(&*self);
        }
        if self.pos < self.end {
            let table = self.table;
            let entry = &table[self.pos];
            let key = byte_string_as_slice(&entry.0);
            let value = byte_string_as_slice(&entry.1);
            *self = Iter { table, pos: self.pos + 1, end: self.end };
            assert(self@ =~= old(self)@.drop_first());
            Some((key, value))
        } else {
            None
        }
    }
}

} // verus!
