//! The byte layout of an archived entry map, and what a well-formed archive
//! holds.
//!
//! An archive is one contiguous blob:
//!
//! ```text
//! offset 0      magic, 4 bytes
//! offset 4      entry count n, u32 little-endian
//! offset 8      n record offsets, u32 little-endian each
//! offset 8+4n   n records, one after the other, in ascending key order
//! ```
//!
//! A record is `key length (u32) | tier code (u8) | value length (u32) | key
//! bytes | value bytes`. Every offset in the table is the absolute position
//! of its record, so any entry can be reached without reading the others.

use crate::byte_order::lex_lt;
use crate::entry_map::EntryView;
use crate::entry_map::entries_ascending;
use crate::storage_preference::code_of_tier;
use crate::storage_preference::tier_of_code;
use vstd::bytes::lemma_auto_spec_u32_to_from_le_bytes;
use vstd::bytes::spec_u32_from_le_bytes;
use vstd::bytes::spec_u32_to_le_bytes;
use vstd::prelude::*;

verus! {

/// The four bytes every archive starts with.
pub open spec fn magic() -> Seq<u8> {
    seq![67u8, 87u8, 65u8, 49u8]
}

/// The little-endian number held in the four bytes at `pos`.
pub open spec fn read_u32(b: Seq<u8>, pos: int) -> int {
    spec_u32_from_le_bytes(b.subrange(pos, pos + 4)) as int
}

/// The entry count that the header announces.
pub open spec fn entry_count(b: Seq<u8>) -> int {
    read_u32(b, 4)
}

/// Where the offset table ends and the records begin.
pub open spec fn table_end(b: Seq<u8>) -> int {
    8 + 4 * entry_count(b)
}

/// The position that the offset table gives for record `i`.
pub open spec fn record_pos(b: Seq<u8>, i: int) -> int {
    read_u32(b, 8 + 4 * i)
}

/// The key length announced by the record at `p`.
pub open spec fn key_len_at(b: Seq<u8>, p: int) -> int {
    read_u32(b, p)
}

/// The tier code of the record at `p`.
pub open spec fn tier_code_at(b: Seq<u8>, p: int) -> u8 {
    b[p + 4]
}

/// The value length announced by the record at `p`.
pub open spec fn value_len_at(b: Seq<u8>, p: int) -> int {
    read_u32(b, p + 5)
}

/// Where the value bytes of the record at `p` begin.
pub open spec fn value_start(b: Seq<u8>, p: int) -> int {
    p + 9 + key_len_at(b, p)
}

/// Where the record at `p` ends.
pub open spec fn record_end(b: Seq<u8>, p: int) -> int {
    value_start(b, p) + value_len_at(b, p)
}

/// The key bytes of the record at `p`.
pub open spec fn key_at(b: Seq<u8>, p: int) -> Seq<u8> {
    b.subrange(p + 9, value_start(b, p))
}

/// The value bytes of the record at `p`.
pub open spec fn value_at(b: Seq<u8>, p: int) -> Seq<u8> {
    b.subrange(value_start(b, p), record_end(b, p))
}

/// The codes that a writer produces: one per tier.
pub open spec fn is_tier_code(code: u8) -> bool {
    code <= 3 || code == 255
}

/// Where record `i` has to start: right after the table, or right after the
/// record before it.
pub open spec fn expected_pos(b: Seq<u8>, i: int) -> int {
    if i == 0 {
        table_end(b)
    } else {
        record_end(b, record_pos(b, i - 1))
    }
}

/// Record `i` starts where it has to, lies inside the blob, and carries a
/// known tier code.
pub open spec fn record_fits(b: Seq<u8>, i: int) -> bool {
    let p = record_pos(b, i);
    &&& p == expected_pos(b, i)
    &&& p + 9 <= b.len()
    &&& record_end(b, p) <= b.len()
    &&& is_tier_code(tier_code_at(b, p))
}

/// The key of entry `i`.
pub open spec fn archived_key(b: Seq<u8>, i: int) -> Seq<u8> {
    key_at(b, record_pos(b, i))
}

/// The blob is a well-formed archive: header, table and records fit
/// together, nothing follows the last record, and the keys are strictly
/// ascending.
pub open spec fn archive_wf(b: Seq<u8>) -> bool {
    &&& 8 <= b.len() <= u32::MAX
    &&& b.subrange(0, 4) == magic()
    &&& table_end(b) <= b.len()
    &&& forall|i: int| 0 <= i < entry_count(b) ==> #[trigger] record_fits(b, i)
    &&& b.len() == expected_pos(b, entry_count(b))
    &&& forall|i: int, j: int|
        0 <= i < j < entry_count(b) ==> lex_lt(#[trigger] archived_key(b, i), #[trigger] archived_key(b, j))
}

/// Entry `i` of the archive.
pub open spec fn archived_entry(b: Seq<u8>, i: int) -> EntryView {
    let p = record_pos(b, i);
    EntryView { key: key_at(b, p), tier: tier_of_code(tier_code_at(b, p)), value: value_at(b, p) }
}

/// All entries of the archive, in the order in which they are stored.
pub open spec fn archived_entries(b: Seq<u8>) -> Seq<EntryView> {
    Seq::new(entry_count(b) as nat, |i: int| archived_entry(b, i))
}

/// Bytes that one entry's record takes.
pub open spec fn record_len(e: EntryView) -> nat {
    9 + e.key.len() + e.value.len()
}

/// Bytes that the records of all the entries take together.
pub open spec fn records_len(s: Seq<EntryView>) -> nat
    decreases s.len(),
{
    if s.len() == 0 {
        0
    } else {
        records_len(s.drop_last()) + record_len(s.last())
    }
}

/// Length of the archive that holds the entries `s`.
pub open spec fn encoded_len(s: Seq<EntryView>) -> nat {
    8 + 4 * s.len() + records_len(s)
}

/// The entries can be archived: every position fits in 32 bits.
pub open spec fn fits_archive(s: Seq<EntryView>) -> bool {
    encoded_len(s) <= u32::MAX
}

/// Where the record of entry `i` starts in the archive of `s`.
pub open spec fn record_start(s: Seq<EntryView>, i: int) -> nat {
    8 + 4 * s.len() + records_len(s.take(i))
}

/// A number as four little-endian bytes.
pub open spec fn encode_u32(x: int) -> Seq<u8> {
    spec_u32_to_le_bytes(x as u32)
}

/// The record of one entry.
pub open spec fn encode_record(e: EntryView) -> Seq<u8> {
    encode_u32(e.key.len() as int) + seq![code_of_tier(e.tier)] + encode_u32(e.value.len() as int)
        + e.key + e.value
}

/// The first `n` slots of the offset table for the entries `s`.
pub open spec fn encode_table(s: Seq<EntryView>, n: nat) -> Seq<u8>
    decreases n,
{
    if n == 0 {
        Seq::<u8>::empty()
    } else {
        encode_table(s, (n - 1) as nat) + encode_u32(record_start(s, n - 1) as int)
    }
}

/// The records of the entries, one after the other.
pub open spec fn encode_records(s: Seq<EntryView>) -> Seq<u8>
    decreases s.len(),
{
    if s.len() == 0 {
        Seq::<u8>::empty()
    } else {
        encode_records(s.drop_last()) + encode_record(s.last())
    }
}

/// The archive that holds the entries `s`.
pub open spec fn encode_entries(s: Seq<EntryView>) -> Seq<u8> {
    magic() + encode_u32(s.len() as int) + encode_table(s, s.len()) + encode_records(s)
}

/// Four little-endian bytes read back give the number they were made from.
pub proof fn lemma_u32_round_trip(x: int)
    requires
        0 <= x <= u32::MAX,
    ensures
        encode_u32(x).len() == 4,
        spec_u32_from_le_bytes(encode_u32(x)) == x,
{
    lemma_auto_spec_u32_to_from_le_bytes();
    let y = x as u32;
    assert(spec_u32_to_le_bytes(y).len() == 4);
}

/// Every record adds its length to the total.
pub proof fn lemma_records_len_monotone(s: Seq<EntryView>, i: int)
    requires
        0 <= i <= s.len(),
    ensures
        records_len(s.take(i)) <= records_len(s),
        i < s.len() ==> records_len(s.take(i)) + record_len(s[i]) == records_len(s.take(i + 1)),
        i < s.len() ==> records_len(s.take(i + 1)) <= records_len(s),
    decreases s.len() - i,
{
    if i == s.len() {
        assert(s.take(i) =~= s);
    } else {
        assert(s.take(i + 1).drop_last() =~= s.take(i));
        assert(s.take(i + 1).last() == s[i]);
        lemma_records_len_monotone(s, i + 1);
    }
}

/// The offset table has four bytes per slot, and slot `i` holds the start of
/// record `i`.
proof fn lemma_table_layout(s: Seq<EntryView>, n: nat, i: int)
    requires
        0 <= i < n,
    ensures
        encode_table(s, n).len() == 4 * n,
        encode_table(s, n).subrange(4 * i, 4 * i + 4) == encode_u32(record_start(s, i) as int),
    decreases n,
{
    lemma_auto_spec_u32_to_from_le_bytes();
    lemma_table_len(s, n);
    lemma_table_len(s, (n - 1) as nat);
    let head = encode_table(s, (n - 1) as nat);
    let slot = encode_u32(record_start(s, n - 1) as int);
    if i == n - 1 {
        assert((head + slot).subrange(4 * i, 4 * i + 4) =~= slot);
    } else {
        lemma_table_layout(s, (n - 1) as nat, i);
        assert((head + slot).subrange(4 * i, 4 * i + 4) =~= head.subrange(4 * i, 4 * i + 4));
    }
}

/// The offset table has four bytes per slot.
proof fn lemma_table_len(s: Seq<EntryView>, n: nat)
    ensures
        encode_table(s, n).len() == 4 * n,
    decreases n,
{
    lemma_auto_spec_u32_to_from_le_bytes();
    if n > 0 {
        lemma_table_len(s, (n - 1) as nat);
    }
}

/// The record of an entry is as long as `record_len` says.
proof fn lemma_record_len(e: EntryView)
    ensures
        encode_record(e).len() == record_len(e),
{
    lemma_auto_spec_u32_to_from_le_bytes();
}

/// The records together are as long as `records_len` says.
proof fn lemma_records_total_len(s: Seq<EntryView>)
    ensures
        encode_records(s).len() == records_len(s),
    decreases s.len(),
{
    if s.len() > 0 {
        lemma_records_total_len(s.drop_last());
        lemma_record_len(s.last());
    }
}

/// Record `i` stands in the run of records right after the records of the
/// entries before it.
proof fn lemma_records_layout(s: Seq<EntryView>, i: int)
    requires
        0 <= i < s.len(),
    ensures
        records_len(s.take(i)) + record_len(s[i]) <= encode_records(s).len(),
        encode_records(s).subrange(
            records_len(s.take(i)) as int,
            (records_len(s.take(i)) + record_len(s[i])) as int,
        ) == encode_record(s[i]),
    decreases s.len(),
{
    let head = encode_records(s.drop_last());
    let tail = encode_record(s.last());
    lemma_records_total_len(s);
    lemma_records_total_len(s.drop_last());
    lemma_record_len(s.last());
    lemma_records_len_monotone(s, i);
    let from = records_len(s.take(i)) as int;
    let to = from + record_len(s[i]);
    if i == s.len() - 1 {
        assert(s.take(i) =~= s.drop_last());
        assert((head + tail).subrange(from, to) =~= tail);
    } else {
        lemma_records_layout(s.drop_last(), i);
        assert(s.drop_last().take(i) =~= s.take(i));
        assert(s.drop_last()[i] == s[i]);
        assert((head + tail).subrange(from, to) =~= head.subrange(from, to));
    }
}

/// Slot `i` of the blob's table points to where the record of `s[i]` starts
/// in the archive of `s`, and the record there reads back as `s[i]`.
pub open spec fn holds_entry(b: Seq<u8>, s: Seq<EntryView>, i: int) -> bool {
    let p = record_pos(b, i);
    &&& p == record_start(s, i)
    &&& key_len_at(b, p) == s[i].key.len()
    &&& tier_code_at(b, p) == code_of_tier(s[i].tier)
    &&& value_len_at(b, p) == s[i].value.len()
    &&& key_at(b, p) == s[i].key
    &&& value_at(b, p) == s[i].value
    &&& record_end(b, p) == record_start(s, i + 1)
}

/// What stands where in the archive of `s`: its length, its count, and for
/// each entry the offset in the table and the fields of the record.
pub proof fn lemma_encode_layout(s: Seq<EntryView>)
    requires
        fits_archive(s),
    ensures
        encode_entries(s).len() == encoded_len(s),
        encode_entries(s).subrange(0, 4) == magic(),
        entry_count(encode_entries(s)) == s.len(),
        forall|i: int| 0 <= i < s.len() ==> #[trigger] holds_entry(encode_entries(s), s, i),
{
    let b = encode_entries(s);
    let n = s.len();
    let count = encode_u32(n as int);
    let table = encode_table(s, n);
    let records = encode_records(s);
    lemma_u32_round_trip(n as int);
    lemma_table_len(s, n);
    lemma_records_total_len(s);
    assert(b.subrange(0, 4) =~= magic());
    assert(b.subrange(4, 8) =~= count);
    assert forall|i: int| 0 <= i < s.len() implies #[trigger] holds_entry(b, s, i) by {
        let e = s[i];
        let start = record_start(s, i) as int;
        lemma_records_len_monotone(s, i);
        lemma_table_layout(s, n, i);
        lemma_records_layout(s, i);
        lemma_u32_round_trip(start);
        lemma_u32_round_trip(e.key.len() as int);
        lemma_u32_round_trip(e.value.len() as int);
        assert(b.subrange(8 + 4 * i, 8 + 4 * i + 4) =~= table.subrange(4 * i, 4 * i + 4));
        assert(record_pos(b, i) == start);
        let rec = encode_record(e);
        let from = records_len(s.take(i)) as int;
        assert(b.subrange(start, start + record_len(e)) =~= records.subrange(
            from,
            from + record_len(e),
        ));
        assert(b.subrange(start, start + record_len(e)) == rec);
        lemma_record_fields(b, start, e);
    }
}

/// Where the blob holds the record of `e` at `p`, the record's fields read
/// back as the entry's.
proof fn lemma_record_fields(b: Seq<u8>, p: int, e: EntryView)
    requires
        0 <= p,
        p + record_len(e) <= b.len(),
        e.key.len() <= u32::MAX,
        e.value.len() <= u32::MAX,
        b.subrange(p, p + record_len(e)) == encode_record(e),
    ensures
        key_len_at(b, p) == e.key.len(),
        tier_code_at(b, p) == code_of_tier(e.tier),
        value_len_at(b, p) == e.value.len(),
        key_at(b, p) == e.key,
        value_at(b, p) == e.value,
        record_end(b, p) == p + record_len(e),
{
    let rec = encode_record(e);
    let klen = e.key.len() as int;
    let vlen = e.value.len() as int;
    lemma_u32_round_trip(klen);
    lemma_u32_round_trip(vlen);
    assert(b.subrange(p, p + 4) =~= rec.subrange(0, 4));
    assert(rec.subrange(0, 4) =~= encode_u32(klen));
    assert(b[p + 4] == rec[4]);
    assert(b.subrange(p + 5, p + 9) =~= rec.subrange(5, 9));
    assert(rec.subrange(5, 9) =~= encode_u32(vlen));
    assert(b.subrange(p + 9, p + 9 + klen) =~= rec.subrange(9, 9 + klen));
    assert(rec.subrange(9, 9 + klen) =~= e.key);
    assert(b.subrange(p + 9 + klen, p + 9 + klen + vlen) =~= rec.subrange(
        9 + klen,
        9 + klen + vlen,
    ));
    assert(rec.subrange(9 + klen, 9 + klen + vlen) =~= e.value);
}

/// The archive of `s` has its records where a well-formed archive has to
/// have them.
proof fn lemma_encoded_records_fit(s: Seq<EntryView>)
    requires
        fits_archive(s),
    ensures
        forall|i: int|
            0 <= i < s.len() ==> #[trigger] record_fits(encode_entries(s), i),
        encode_entries(s).len() == expected_pos(encode_entries(s), s.len() as int),
        table_end(encode_entries(s)) <= encode_entries(s).len(),
{
    let b = encode_entries(s);
    let n = s.len() as int;
    lemma_encode_layout(s);
    assert(s.take(0) =~= Seq::<EntryView>::empty());
    assert(s.take(n) =~= s);
    assert(record_start(s, 0) == 8 + 4 * n);
    assert(record_start(s, n) == encoded_len(s));
    assert forall|i: int| 0 <= i < s.len() implies #[trigger] record_fits(b, i) by {
        assert(holds_entry(b, s, i));
        lemma_records_len_monotone(s, i);
        if i > 0 {
            assert(holds_entry(b, s, i - 1));
        }
    }
    if n > 0 {
        assert(holds_entry(b, s, n - 1));
    }
}

/// The archive of `s` holds the entries of `s`, one for one.
proof fn lemma_encoded_entries(s: Seq<EntryView>)
    requires
        fits_archive(s),
    ensures
        entry_count(encode_entries(s)) == s.len(),
        forall|i: int| 0 <= i < s.len() ==> #[trigger] archived_entry(encode_entries(s), i) == s[i],
{
    let b = encode_entries(s);
    lemma_encode_layout(s);
    assert forall|i: int| 0 <= i < s.len() implies #[trigger] archived_entry(b, i) == s[i] by {
        assert(holds_entry(b, s, i));
    }
}

/// Archiving ascending entries gives a well-formed archive, and that archive
/// holds exactly those entries, in the same order.
pub proof fn lemma_round_trip(s: Seq<EntryView>)
    requires
        entries_ascending(s),
        fits_archive(s),
    ensures
        archive_wf(encode_entries(s)),
        archived_entries(encode_entries(s)) == s,
{
    let b = encode_entries(s);
    lemma_encode_layout(s);
    lemma_encoded_records_fit(s);
    lemma_encoded_entries(s);
    assert forall|i: int, j: int| 0 <= i < j < entry_count(b) implies lex_lt(
        #[trigger] archived_key(b, i),
        #[trigger] archived_key(b, j),
    ) by {
        assert(archived_entry(b, i) == s[i]);
        assert(archived_entry(b, j) == s[j]);
        assert(archived_key(b, i) == s[i].key);
        assert(archived_key(b, j) == s[j].key);
        assert(lex_lt(s[i].key, s[j].key));
    }
    assert(archived_entries(b) =~= s);
}

/// In a well-formed archive the first entry has the smallest key: whoever
/// stops after it has seen the minimum.
pub proof fn lemma_first_entry_is_minimum(b: Seq<u8>, i: int)
    requires
        archive_wf(b),
        0 < i < entry_count(b),
    ensures
        lex_lt(archived_entries(b)[0].key, archived_entries(b)[i].key),
{
    assert(lex_lt(archived_key(b, 0), archived_key(b, i)));
}

/// The entries of a well-formed archive are strictly ascending.
pub proof fn lemma_archived_entries_ascending(b: Seq<u8>)
    requires
        archive_wf(b),
    ensures
        entries_ascending(archived_entries(b)),
{
    let s = archived_entries(b);
    assert forall|i: int, j: int| 0 <= i < j < s.len() implies lex_lt(
        #[trigger] s[i].key,
        #[trigger] s[j].key,
    ) by {
        assert(lex_lt(archived_key(b, i), archived_key(b, j)));
    }
}

/// A number that lies wholly inside a leading part of the blob reads the
/// same in that part as in the whole.
proof fn lemma_read_in_prefix(b: Seq<u8>, n: int, pos: int)
    requires
        0 <= pos,
        pos + 4 <= n <= b.len(),
    ensures
        read_u32(b.subrange(0, n), pos) == read_u32(b, pos),
{
    assert(b.subrange(0, n).subrange(pos, pos + 4) =~= b.subrange(pos, pos + 4));
}

/// Cutting bytes off the end of a well-formed archive leaves a blob that is
/// not a well-formed archive.
pub proof fn lemma_truncated_archive_is_corrupt(b: Seq<u8>, n: int)
    requires
        archive_wf(b),
        0 <= n < b.len(),
    ensures
        !archive_wf(b.subrange(0, n)),
{
    let t = b.subrange(0, n);
    if archive_wf(t) {
        lemma_read_in_prefix(b, n, 4);
        let count = entry_count(b);
        assert(entry_count(t) == count);
        if count > 0 {
            let last = count - 1;
            assert(record_fits(t, last));
            assert(record_fits(b, last));
            lemma_read_in_prefix(b, n, 8 + 4 * last);
            let p = record_pos(b, last);
            assert(record_pos(t, last) == p);
            lemma_read_in_prefix(b, n, p);
            lemma_read_in_prefix(b, n, p + 5);
            assert(record_end(t, p) == record_end(b, p));
        }
    }
}

/// In a well-formed archive every record starts after the offset table.
proof fn lemma_records_after_table(b: Seq<u8>, i: int)
    requires
        archive_wf(b),
        0 <= i < entry_count(b),
    ensures
        table_end(b) <= record_pos(b, i),
    decreases i,
{
    assert(record_fits(b, i));
    if i > 0 {
        lemma_records_after_table(b, i - 1);
        assert(record_fits(b, i - 1));
    }
}

/// A number that lies wholly outside the bytes in which two blobs differ
/// reads the same in both.
proof fn lemma_read_outside_change(b: Seq<u8>, c: Seq<u8>, lo: int, hi: int, pos: int)
    requires
        b.len() == c.len(),
        forall|k: int| 0 <= k < b.len() && !(lo <= k < hi) ==> b[k] == c[k],
        0 <= pos,
        pos + 4 <= b.len(),
        pos + 4 <= lo || hi <= pos,
    ensures
        read_u32(c, pos) == read_u32(b, pos),
{
    assert(c.subrange(pos, pos + 4) =~= b.subrange(pos, pos + 4));
}

/// Overwriting one slot of the offset table of a well-formed archive with
/// another position, all other bytes unchanged, leaves a blob that is not a
/// well-formed archive.
pub proof fn lemma_offset_corruption_is_corrupt(b: Seq<u8>, c: Seq<u8>, i: int)
    requires
        archive_wf(b),
        0 <= i < entry_count(b),
        c.len() == b.len(),
        forall|k: int| 0 <= k < b.len() && !(8 + 4 * i <= k < 12 + 4 * i) ==> b[k] == c[k],
        record_pos(c, i) != record_pos(b, i),
    ensures
        !archive_wf(c),
{
    if archive_wf(c) {
        let lo = 8 + 4 * i;
        let hi = 12 + 4 * i;
        lemma_read_outside_change(b, c, lo, hi, 4);
        assert(entry_count(c) == entry_count(b));
        assert(record_fits(c, i));
        assert(record_fits(b, i));
        if i > 0 {
            assert(record_fits(b, i - 1));
            lemma_read_outside_change(b, c, lo, hi, 8 + 4 * (i - 1));
            let q = record_pos(b, i - 1);
            assert(record_pos(c, i - 1) == q);
            lemma_records_after_table(b, i - 1);
            lemma_read_outside_change(b, c, lo, hi, q);
            lemma_read_outside_change(b, c, lo, hi, q + 5);
            assert(record_end(c, q) == record_end(b, q));
        }
    }
}

/// Four bytes of the blob, read as a number and written out again, are the
/// same four bytes.
proof fn lemma_u32_bytes_canonical(b: Seq<u8>, pos: int)
    requires
        0 <= pos,
        pos + 4 <= b.len(),
    ensures
        encode_u32(read_u32(b, pos)) == b.subrange(pos, pos + 4),
{
    let x = b.subrange(pos, pos + 4);
    lemma_auto_spec_u32_to_from_le_bytes();
    assert(spec_u32_to_le_bytes(spec_u32_from_le_bytes(x)) == x);
}

/// In a well-formed archive record `k` starts where the archive of the
/// entries it holds would have it start.
proof fn lemma_positions_canonical(b: Seq<u8>, k: int)
    requires
        archive_wf(b),
        0 <= k <= entry_count(b),
    ensures
        expected_pos(b, k) == record_start(archived_entries(b), k),
    decreases k,
{
    let s = archived_entries(b);
    if k == 0 {
        assert(s.take(0) =~= Seq::<EntryView>::empty());
    } else {
        lemma_positions_canonical(b, k - 1);
        assert(record_fits(b, k - 1));
        lemma_records_len_monotone(s, k - 1);
        assert(s[k - 1] == archived_entry(b, k - 1));
    }
}

/// In a well-formed archive the bytes of record `i` are the record of the
/// entry that is read from them.
proof fn lemma_record_bytes_canonical(b: Seq<u8>, i: int)
    requires
        archive_wf(b),
        0 <= i < entry_count(b),
    ensures
        b.subrange(record_pos(b, i), record_end(b, record_pos(b, i))) == encode_record(
            archived_entry(b, i),
        ),
{
    let p = record_pos(b, i);
    let e = archived_entry(b, i);
    assert(record_fits(b, i));
    lemma_u32_bytes_canonical(b, p);
    lemma_u32_bytes_canonical(b, p + 5);
    let code = tier_code_at(b, p);
    assert(code_of_tier(tier_of_code(code)) == code);
    let whole = b.subrange(p, record_end(b, p));
    assert(whole =~= b.subrange(p, p + 4) + seq![code] + b.subrange(p + 5, p + 9) + key_at(b, p)
        + value_at(b, p));
}

/// In a well-formed archive the first `j` slots of the offset table are
/// those of the archive of the entries it holds.
proof fn lemma_table_canonical(b: Seq<u8>, j: int)
    requires
        archive_wf(b),
        0 <= j <= entry_count(b),
    ensures
        b.subrange(8, 8 + 4 * j) == encode_table(archived_entries(b), j as nat),
    decreases j,
{
    let s = archived_entries(b);
    if j == 0 {
        assert(b.subrange(8, 8) =~= Seq::<u8>::empty());
    } else {
        lemma_table_canonical(b, j - 1);
        lemma_positions_canonical(b, j - 1);
        assert(record_fits(b, j - 1));
        lemma_u32_bytes_canonical(b, 8 + 4 * (j - 1));
        assert(b.subrange(8, 8 + 4 * j) =~= b.subrange(8, 8 + 4 * (j - 1)) + b.subrange(
            8 + 4 * (j - 1),
            8 + 4 * j,
        ));
    }
}

/// In a well-formed archive everything before record `k` is the start of
/// the archive of the entries it holds.
proof fn lemma_prefix_canonical(b: Seq<u8>, k: int)
    requires
        archive_wf(b),
        0 <= k <= entry_count(b),
    ensures
        b.subrange(0, expected_pos(b, k)) == magic() + encode_u32(entry_count(b)) + encode_table(
            archived_entries(b),
            entry_count(b) as nat,
        ) + encode_records(archived_entries(b).take(k)),
    decreases k,
{
    let s = archived_entries(b);
    let n = entry_count(b);
    let front = magic() + encode_u32(n) + encode_table(s, n as nat);
    if k == 0 {
        lemma_u32_bytes_canonical(b, 4);
        lemma_table_canonical(b, n);
        assert(s.take(0) =~= Seq::<EntryView>::empty());
        assert(b.subrange(0, 8 + 4 * n) =~= b.subrange(0, 4) + b.subrange(4, 8) + b.subrange(
            8,
            8 + 4 * n,
        ));
        assert(front + encode_records(s.take(0)) =~= front);
    } else {
        lemma_prefix_canonical(b, k - 1);
        lemma_positions_canonical(b, k - 1);
        lemma_positions_canonical(b, k);
        lemma_record_bytes_canonical(b, k - 1);
        assert(record_fits(b, k - 1));
        let p = record_pos(b, k - 1);
        assert(s.take(k).drop_last() =~= s.take(k - 1));
        assert(s.take(k).last() == archived_entry(b, k - 1));
        assert(b.subrange(0, record_end(b, p)) =~= b.subrange(0, p) + b.subrange(
            p,
            record_end(b, p),
        ));
        assert(front + encode_records(s.take(k)) =~= front + encode_records(s.take(k - 1))
            + encode_record(archived_entry(b, k - 1)));
    }
}

/// A well-formed archive is exactly what the writer makes of the entries
/// that are read from it: no other bytes stand for those entries.
pub proof fn lemma_archive_is_canonical(b: Seq<u8>)
    requires
        archive_wf(b),
    ensures
        entries_ascending(archived_entries(b)),
        fits_archive(archived_entries(b)),
        encode_entries(archived_entries(b)) == b,
{
    let s = archived_entries(b);
    let n = entry_count(b);
    lemma_archived_entries_ascending(b);
    lemma_positions_canonical(b, n);
    lemma_prefix_canonical(b, n);
    assert(s.take(n) =~= s);
    assert(b.subrange(0, b.len() as int) =~= b);
}

/// A blob that is not a well-formed archive was never written for any
/// entries: validation refuses nothing that the writer makes.
pub proof fn lemma_corrupt_was_never_written(b: Seq<u8>, s: Seq<EntryView>)
    requires
        !archive_wf(b),
        entries_ascending(s),
        fits_archive(s),
    ensures
        encode_entries(s) != b,
{
    lemma_round_trip(s);
}

} // verus!
