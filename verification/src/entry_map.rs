//! A map from byte-string keys to metadata and payload, kept in ascending
//! key order.

use crate::byte_order::ByteOrder;
use crate::byte_order::bytes_equal;
use crate::byte_order::compare_bytes;
use crate::byte_order::lemma_byte_order_mirror;
use crate::byte_order::lemma_lex_lt_asymmetric;
use crate::byte_order::lemma_lex_lt_irreflexive;
use crate::byte_order::lemma_lex_lt_transitive;
use crate::byte_order::lex_lt;
use crate::cow_bytes::CowBytes;
use crate::cow_bytes::SlicedCowBytes;
use crate::key_info::KeyInfo;
use crate::key_info::lemma_key_info_determined_by_tier;
use crate::storage_preference::StoragePreference;
use vstd::prelude::*;

verus! {

/// What one entry holds, as plain values: the key's bytes, the tier its
/// metadata asks for, and the payload's bytes.
pub struct EntryView {
    pub key: Seq<u8>,
    pub tier: StoragePreference,
    pub value: Seq<u8>,
}

/// The keys of the entries are strictly ascending, so no key occurs twice.
pub open spec fn entries_ascending(s: Seq<EntryView>) -> bool {
    forall|i: int, j: int| 0 <= i < j < s.len() ==> lex_lt(#[trigger] s[i].key, #[trigger] s[j].key)
}

/// Some entry of `s` has the key `key`.
pub open spec fn has_key(s: Seq<EntryView>, key: Seq<u8>) -> bool {
    exists|i: int| 0 <= i < s.len() && #[trigger] s[i].key == key
}

/// The position of an entry with the key `key`, if there is one.
pub open spec fn index_of_key(s: Seq<EntryView>, key: Seq<u8>) -> int {
    choose|i: int| 0 <= i < s.len() && #[trigger] s[i].key == key
}

/// The entries as a map from key to tier and payload.
pub open spec fn entries_map(s: Seq<EntryView>) -> Map<Seq<u8>, (StoragePreference, Seq<u8>)> {
    Map::new(
        |key: Seq<u8>| has_key(s, key),
        |key: Seq<u8>| (s[index_of_key(s, key)].tier, s[index_of_key(s, key)].value),
    )
}

/// In an ascending sequence the entry at position `i` is the one that the
/// map holds under that entry's key.
pub proof fn lemma_entries_map_at(s: Seq<EntryView>, i: int)
    requires
        entries_ascending(s),
        0 <= i < s.len(),
    ensures
        entries_map(s).contains_key(s[i].key),
        index_of_key(s, s[i].key) == i,
        entries_map(s)[s[i].key] == (s[i].tier, s[i].value),
{
    let key = s[i].key;
    assert(has_key(s, key));
    let j = index_of_key(s, key);
    if j < i {
        lemma_lex_lt_asymmetric(s[j].key, s[i].key);
    } else if i < j {
        lemma_lex_lt_asymmetric(s[i].key, s[j].key);
    }
}

/// Two ascending sequences that stand for the same map are the same
/// sequence: the order of the entries is fixed by their keys.
pub proof fn lemma_ascending_entries_unique(s: Seq<EntryView>, t: Seq<EntryView>)
    requires
        entries_ascending(s),
        entries_ascending(t),
        entries_map(s) == entries_map(t),
    ensures
        s == t,
    decreases s.len(),
{
    if s.len() == 0 {
        if t.len() > 0 {
            lemma_entries_map_at(t, 0);
            assert(has_key(s, t[0].key));
        }
        assert(s =~= t);
    } else if t.len() == 0 {
        lemma_entries_map_at(s, 0);
        assert(has_key(t, s[0].key));
    } else {
        // The last entries carry the greatest key of each sequence, so they
        // coincide; the rest follows by induction.
        let sl = s.len() - 1;
        let tl = t.len() - 1;
        lemma_entries_map_at(s, sl);
        lemma_entries_map_at(t, tl);
        assert(has_key(t, s[sl].key));
        assert(has_key(s, t[tl].key));
        let a = index_of_key(t, s[sl].key);
        let b = index_of_key(s, t[tl].key);
        if a < tl {
            // s.last < t.last == s[b], but b <= sl.
            if b < sl {
                lemma_lex_lt_transitive(s[b].key, s[sl].key, t[tl].key);
                lemma_lex_lt_irreflexive(s[b].key);
            } else {
                lemma_lex_lt_irreflexive(s[sl].key);
            }
        }
        assert(a == tl);
        lemma_entries_map_at(t, a);
        assert(s[sl] == t[tl]);
        let s0 = s.drop_last();
        let t0 = t.drop_last();
        assert(entries_ascending(s0)) by {
            assert forall|i: int, j: int| 0 <= i < j < s0.len() implies lex_lt(
                #[trigger] s0[i].key,
                #[trigger] s0[j].key,
            ) by {
                assert(s0[i] == s[i] && s0[j] == s[j]);
            }
        }
        assert(entries_ascending(t0)) by {
            assert forall|i: int, j: int| 0 <= i < j < t0.len() implies lex_lt(
                #[trigger] t0[i].key,
                #[trigger] t0[j].key,
            ) by {
                assert(t0[i] == t[i] && t0[j] == t[j]);
            }
        }
        assert(entries_map(s0) =~= entries_map(t0)) by {
            lemma_drop_last_map(s);
            lemma_drop_last_map(t);
        }
        lemma_ascending_entries_unique(s0, t0);
        assert(s =~= s0.push(s[sl]));
        assert(t =~= t0.push(t[tl]));
    }
}

/// Dropping the last entry of an ascending sequence removes its key from the
/// map and leaves the rest as it was.
pub proof fn lemma_drop_last_map(s: Seq<EntryView>)
    requires
        entries_ascending(s),
        s.len() > 0,
    ensures
        entries_map(s.drop_last()) == entries_map(s).remove(s.last().key),
{
    let s0 = s.drop_last();
    let last = s.len() - 1;
    assert(entries_ascending(s0)) by {
        assert forall|i: int, j: int| 0 <= i < j < s0.len() implies lex_lt(
            #[trigger] s0[i].key,
            #[trigger] s0[j].key,
        ) by {
            assert(s0[i] == s[i] && s0[j] == s[j]);
        }
    }
    let m0 = entries_map(s0);
    let m1 = entries_map(s).remove(s.last().key);
    assert forall|key: Seq<u8>| m0.contains_key(key) <==> m1.contains_key(key) by {
        if m0.contains_key(key) {
            let i = index_of_key(s0, key);
            assert(s[i].key == key);
            lemma_lex_lt_asymmetric(s[i].key, s[last].key);
        }
        if m1.contains_key(key) {
            let i = index_of_key(s, key);
            assert(i != last);
            assert(s0[i].key == key);
        }
    }
    assert forall|key: Seq<u8>| m0.contains_key(key) implies m0[key] == m1[key] by {
        let i = index_of_key(s0, key);
        assert(s0[i] == s[i]);
        lemma_entries_map_at(s0, i);
        lemma_entries_map_at(s, i);
    }
    assert(m0 =~= m1);
}

/// One stored entry.
#[derive(Debug)]
struct Entry {
    key: CowBytes,
    info: KeyInfo,
    value: SlicedCowBytes,
}

impl Entry {
    spec fn plain(self) -> EntryView {
        EntryView { key: self.key@, tier: self.info@, value: self.value@ }
    }
}

/// A map from keys to `(KeyInfo, SlicedCowBytes)`. Keys are unique and the
/// entries are visited in ascending key order.
#[derive(Debug)]
pub struct EntryMap {
    entries: Vec<Entry>,
}

impl View for EntryMap {
    type V = Seq<EntryView>;

    closed spec fn view(&self) -> Seq<EntryView> {
        Seq::new(self.entries@.len(), |i: int| self.entries@[i].plain())
    }
}

impl EntryMap {
    #[verifier::type_invariant]
    spec fn ascending(self) -> bool {
        entries_ascending(self@)
    }

    /// The entries as a map from key to tier and payload.
    pub open spec fn as_map(&self) -> Map<Seq<u8>, (StoragePreference, Seq<u8>)> {
        entries_map(self@)
    }

    /// An empty map.
    pub fn new() -> (m: EntryMap)
        ensures
            m@ == Seq::<EntryView>::empty(),
    {
        let m = EntryMap { entries: Vec::new() };
        proof {
            assert(m@ =~= Seq::<EntryView>::empty());
        }
        m
    }

    /// Number of entries.
    pub fn len(&self) -> (n: usize)
        ensures
            n == self@.len(),
            entries_ascending(self@),
    {
        proof {
            use_type_invariant(self);
        }
        self.entries.len()
    }

    /// Whether the map holds no entry.
    pub fn is_empty(&self) -> (r: bool)
        ensures
            r == (self@.len() == 0),
    {
        self.entries.len() == 0
    }

    /// Finds where `key` stands: `(i, true)` when the entry at `i` has that
    /// key, `(i, false)` when no entry has it and an entry with it would
    /// have to be put at `i`.
    fn position(&self, key: &[u8]) -> (r: (usize, bool))
        ensures
            r.0 <= self@.len(),
            r.1 ==> r.0 < self@.len() && self@[r.0 as int].key == key@,
            !r.1 ==> !has_key(self@, key@),
            !r.1 ==> forall|j: int| 0 <= j < r.0 ==> lex_lt(#[trigger] self@[j].key, key@),
            !r.1 ==> forall|j: int| r.0 <= j < self@.len() ==> lex_lt(key@, #[trigger] self@[j].key),
    {
        proof {
            use_type_invariant(self);
        }
        let mut lo: usize = 0;
        let mut hi: usize = self.entries.len();
        while lo < hi
            invariant
                lo <= hi <= self@.len(),
                self@.len() == self.entries@.len(),
                entries_ascending(self@),
                forall|j: int| 0 <= j < lo ==> lex_lt(#[trigger] self@[j].key, key@),
                forall|j: int| hi <= j < self@.len() ==> lex_lt(key@, #[trigger] self@[j].key),
            decreases hi - lo,
        {
            let mid = lo + (hi - lo) / 2;
            assert(self@[mid as int].key == self.entries@[mid as int].key@);
            match compare_bytes(self.entries[mid].key.as_bytes(), key) {
                ByteOrder::Less => {
                    proof {
                        assert forall|j: int| 0 <= j < mid + 1 implies lex_lt(
                            #[trigger] self@[j].key,
                            key@,
                        ) by {
                            if j < mid {
                                lemma_lex_lt_transitive(self@[j].key, self@[mid as int].key, key@);
                            }
                        }
                    }
                    lo = mid + 1;
                },
                ByteOrder::Equal => {
                    return (mid, true);
                },
                ByteOrder::Greater => {
                    proof {
                        lemma_byte_order_mirror(self@[mid as int].key, key@);
                        assert forall|j: int| mid <= j < self@.len() implies lex_lt(
                            key@,
                            #[trigger] self@[j].key,
                        ) by {
                            if mid < j {
                                lemma_lex_lt_transitive(key@, self@[mid as int].key, self@[j].key);
                            }
                        }
                    }
                    hi = mid;
                },
            }
        }
        proof {
            if has_key(self@, key@) {
                let j = index_of_key(self@, key@);
                lemma_lex_lt_irreflexive(key@);
            }
        }
        (lo, false)
    }

    /// Whether an entry with this key is present.
    pub fn contains_key(&self, key: &[u8]) -> (r: bool)
        ensures
            r == self.as_map().contains_key(key@),
    {
        self.position(key).1
    }

    /// The metadata and payload stored under `key`, if any.
    pub fn get(&self, key: &[u8]) -> (r: Option<(KeyInfo, &SlicedCowBytes)>)
        ensures
            r is Some <==> self.as_map().contains_key(key@),
            r matches Some((info, value)) ==> self.as_map()[key@] == (info@, value@),
    {
        proof {
            use_type_invariant(self);
        }
        let (i, found) = self.position(key);
        if found {
            proof {
                assert(self@[i as int] == self.entries@[i as int].plain());
                lemma_entries_map_at(self@, i as int);
            }
            Some((self.entries[i].info, &self.entries[i].value))
        } else {
            None
        }
    }

    /// The `i`-th entry in ascending key order.
    pub fn entry_at(&self, i: usize) -> (r: (&CowBytes, KeyInfo, &SlicedCowBytes))
        requires
            i < self@.len(),
        ensures
            r.0@ == self@[i as int].key,
            r.1@ == self@[i as int].tier,
            r.2@ == self@[i as int].value,
    {
        assert(self@[i as int] == self.entries@[i as int].plain());
        let e = &self.entries[i];
        (&e.key, e.info, &e.value)
    }

    /// The entry with the smallest key, if the map is not empty.
    pub fn first(&self) -> (r: Option<(&CowBytes, KeyInfo, &SlicedCowBytes)>)
        ensures
            r is Some <==> self@.len() > 0,
            r matches Some((key, info, value)) ==> key@ == self@[0].key && info@ == self@[0].tier
                && value@ == self@[0].value,
    {
        if self.entries.len() == 0 {
            None
        } else {
            Some(self.entry_at(0))
        }
    }

    /// Adds an entry whose key comes after every key already in the map.
    pub(crate) fn push_last(&mut self, key: CowBytes, info: KeyInfo, value: SlicedCowBytes)
        requires
            old(self)@.len() > 0 ==> lex_lt(old(self)@.last().key, key@),
        ensures
            final(self)@ == old(self)@.push(EntryView { key: key@, tier: info@, value: value@ }),
    {
        proof {
            use_type_invariant(&*self);
        }
        let ghost before = self@;
        let ghost added = EntryView { key: key@, tier: info@, value: value@ };
        let mut entries: Vec<Entry> = Vec::new();
        std::mem::swap(&mut entries, &mut self.entries);
        assert(before == Seq::new(entries@.len(), |k: int| entries@[k].plain()));
        entries.push(Entry { key, info, value });
        let ghost after = Seq::new(entries@.len(), |k: int| entries@[k].plain());
        proof {
            assert(after =~= before.push(added));
            assert forall|a: int, b: int| 0 <= a < b < after.len() implies lex_lt(
                #[trigger] after[a].key,
                #[trigger] after[b].key,
            ) by {
                if b < before.len() {
                    assert(after[a] == before[a] && after[b] == before[b]);
                } else if a < before.len() - 1 {
                    assert(after[a] == before[a]);
                    lemma_lex_lt_transitive(before[a].key, before.last().key, added.key);
                } else {
                    assert(after[a] == before.last());
                }
            }
        }
        self.entries = entries;
        assert(self@ == after);
    }

    /// Stores `value` under `key`. An entry already stored under that key is
    /// replaced, not merged, and its metadata and payload are handed back.
    pub fn insert(&mut self, key: CowBytes, value: (KeyInfo, SlicedCowBytes)) -> (previous: Option<
        (KeyInfo, SlicedCowBytes),
    >)
        ensures
            entries_ascending(final(self)@),
            final(self).as_map() == old(self).as_map().insert(key@, (value.0@, value.1@)),
            final(self)@.len() == old(self)@.len() + (if previous is Some {
                0int
            } else {
                1int
            }),
            previous is Some <==> old(self).as_map().contains_key(key@),
            previous matches Some((info, payload)) ==> old(self).as_map()[key@] == (
                info@,
                payload@,
            ),
    {
        proof {
            use_type_invariant(&*self);
        }
        let (i, found) = self.position(key.as_bytes());
        let ghost before = self@;
        let ghost added = EntryView { key: key@, tier: value.0@, value: value.1@ };
        let mut entries: Vec<Entry> = Vec::new();
        std::mem::swap(&mut entries, &mut self.entries);
        assert(before == Seq::new(entries@.len(), |k: int| entries@[k].plain()));
        let previous = if found {
            let mut fresh = Entry { key, info: value.0, value: value.1 };
            std::mem::swap(&mut fresh, &mut entries[i]);
            proof {
                lemma_entries_map_at(before, i as int);
            }
            Some((fresh.info, fresh.value))
        } else {
            entries.insert(i, Entry { key, info: value.0, value: value.1 });
            None
        };
        let ghost after = Seq::new(entries@.len(), |k: int| entries@[k].plain());
        proof {
            if found {
                assert(after =~= before.update(i as int, added));
                lemma_update_map(before, i as int, added);
            } else {
                assert(after =~= before.insert(i as int, added));
                lemma_insert_map(before, i as int, added);
            }
        }
        self.entries = entries;
        assert(self@ == after);
        previous
    }
}

impl Clone for EntryMap {
    /// A map with the same entries. Keys and payloads share their buffers
    /// with the map they were cloned from; no bytes are copied.
    fn clone(&self) -> (c: EntryMap)
        ensures
            c@ == self@,
    {
        proof {
            use_type_invariant(self);
        }
        let mut c = EntryMap::new();
        let n = self.entries.len();
        let mut i: usize = 0;
        while i < n
            invariant
                i <= n,
                n == self@.len(),
                entries_ascending(self@),
                c@ == self@.take(i as int),
            decreases n - i,
        {
            let (key, info, value) = self.entry_at(i);
            proof {
                if i > 0 {
                    assert(c@.last() == self@[i - 1]);
                    assert(lex_lt(self@[i - 1].key, self@[i as int].key));
                }
            }
            c.push_last(key.clone(), info, value.clone());
            assert(c@ =~= self@.take(i + 1));
            i += 1;
        }
        assert(self@.take(n as int) =~= self@);
        c
    }
}

impl PartialEq for EntryMap {
    /// Two maps are equal when they hold the same keys with the same tiers
    /// and payload bytes.
    fn eq(&self, other: &EntryMap) -> (r: bool) {
        let n = self.len();
        if other.len() != n {
            return false;
        }
        let mut i: usize = 0;
        while i < n
            invariant
                i <= n,
                n == self@.len(),
                n == other@.len(),
                forall|j: int| 0 <= j < i ==> self@[j] == other@[j],
            decreases n - i,
        {
            let (key, info, value) = self.entry_at(i);
            let (other_key, other_info, other_value) = other.entry_at(i);
            if !bytes_equal(key.as_bytes(), other_key.as_bytes()) || info != other_info
                || !bytes_equal(value.as_bytes(), other_value.as_bytes()) {
                proof {
                    if info@ == other_info@ {
                        lemma_key_info_determined_by_tier(info, other_info);
                    }
                    assert(self@[i as int] != other@[i as int]);
                }
                return false;
            }
            i += 1;
        }
        assert(self@ =~= other@);
        true
    }
}

impl Eq for EntryMap {

}

impl vstd::std_specs::cmp::PartialEqSpecImpl for EntryMap {
    open spec fn obeys_eq_spec() -> bool {
        true
    }

    open spec fn eq_spec(&self, other: &EntryMap) -> bool {
        self@ == other@
    }
}

/// Replacing the payload of the entry at `i`, its key unchanged, keeps the
/// order and changes the map at that key only.
pub proof fn lemma_update_map(s: Seq<EntryView>, i: int, e: EntryView)
    requires
        entries_ascending(s),
        0 <= i < s.len(),
        s[i].key == e.key,
    ensures
        entries_ascending(s.update(i, e)),
        entries_map(s.update(i, e)) == entries_map(s).insert(e.key, (e.tier, e.value)),
{
    let t = s.update(i, e);
    assert(entries_ascending(t)) by {
        assert forall|a: int, b: int| 0 <= a < b < t.len() implies lex_lt(
            #[trigger] t[a].key,
            #[trigger] t[b].key,
        ) by {
            assert(t[a].key == s[a].key && t[b].key == s[b].key);
        }
    }
    let m0 = entries_map(t);
    let m1 = entries_map(s).insert(e.key, (e.tier, e.value));
    assert forall|key: Seq<u8>| m0.contains_key(key) <==> m1.contains_key(key) by {
        if m0.contains_key(key) {
            let j = index_of_key(t, key);
            assert(s[j].key == key);
        }
        if m1.contains_key(key) {
            if key == e.key {
                assert(t[i].key == key);
            } else {
                let j = index_of_key(s, key);
                assert(t[j].key == key);
            }
        }
    }
    assert forall|key: Seq<u8>| m0.contains_key(key) implies m0[key] == m1[key] by {
        let j = index_of_key(t, key);
        lemma_entries_map_at(t, j);
        if j != i {
            assert(t[j] == s[j]);
            lemma_entries_map_at(s, j);
            lemma_entries_map_at(s, i);
            if j < i {
                lemma_lex_lt_asymmetric(s[j].key, s[i].key);
            } else {
                lemma_lex_lt_asymmetric(s[i].key, s[j].key);
            }
        }
    }
    assert(m0 =~= m1);
}

/// Putting a new key at the place that the order gives it keeps the order
/// and adds that key to the map.
pub proof fn lemma_insert_map(s: Seq<EntryView>, i: int, e: EntryView)
    requires
        entries_ascending(s),
        0 <= i <= s.len(),
        forall|j: int| 0 <= j < i ==> lex_lt(#[trigger] s[j].key, e.key),
        forall|j: int| i <= j < s.len() ==> lex_lt(e.key, #[trigger] s[j].key),
    ensures
        entries_ascending(s.insert(i, e)),
        entries_map(s.insert(i, e)) == entries_map(s).insert(e.key, (e.tier, e.value)),
{
    let t = s.insert(i, e);
    assert(entries_ascending(t)) by {
        assert forall|a: int, b: int| 0 <= a < b < t.len() implies lex_lt(
            #[trigger] t[a].key,
            #[trigger] t[b].key,
        ) by {
            if a < i {
                assert(t[a] == s[a]);
            } else if a > i {
                assert(t[a] == s[a - 1]);
            }
            if b < i {
                assert(t[b] == s[b]);
            } else if b > i {
                assert(t[b] == s[b - 1]);
            }
        }
    }
    let m0 = entries_map(t);
    let m1 = entries_map(s).insert(e.key, (e.tier, e.value));
    assert forall|key: Seq<u8>| m0.contains_key(key) <==> m1.contains_key(key) by {
        if m0.contains_key(key) {
            let j = index_of_key(t, key);
            if j < i {
                assert(s[j].key == key);
            } else if j > i {
                assert(s[j - 1].key == key);
            }
        }
        if m1.contains_key(key) {
            if key == e.key {
                assert(t[i].key == key);
            } else {
                let j = index_of_key(s, key);
                if j < i {
                    assert(t[j].key == key);
                } else {
                    assert(t[j + 1].key == key);
                }
            }
        }
    }
    assert forall|key: Seq<u8>| m0.contains_key(key) implies m0[key] == m1[key] by {
        let j = index_of_key(t, key);
        lemma_entries_map_at(t, j);
        if j < i {
            assert(t[j] == s[j]);
            lemma_entries_map_at(s, j);
            lemma_lex_lt_asymmetric(s[j].key, e.key);
        } else if j > i {
            assert(t[j] == s[j - 1]);
            lemma_entries_map_at(s, j - 1);
            lemma_lex_lt_asymmetric(e.key, s[j - 1].key);
        }
    }
    assert(m0 =~= m1);
}

} // verus!
