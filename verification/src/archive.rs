//! Writing an entry map into an archive, and reading an archive back: by
//! walking its bytes in place, or by materializing an owned map.

use crate::archive_format::archive_wf;
use crate::archive_format::archived_entries;
use crate::archive_format::archived_key;
use crate::archive_format::encode_entries;
use crate::archive_format::encode_record;
use crate::archive_format::encode_records;
use crate::archive_format::encode_table;
use crate::archive_format::encode_u32;
use crate::archive_format::encoded_len;
use crate::archive_format::entry_count;
use crate::archive_format::expected_pos;
use crate::archive_format::fits_archive;
use crate::archive_format::lemma_archived_entries_ascending;
use crate::archive_format::lemma_records_len_monotone;
use crate::archive_format::lemma_round_trip;
use crate::archive_format::magic;
use crate::archive_format::read_u32;
use crate::archive_format::record_fits;
use crate::archive_format::record_start;
use crate::archive_format::records_len;
use crate::archive_format::table_end;
use crate::byte_order::ByteOrder;
use crate::byte_order::compare_bytes;
use crate::byte_order::lemma_byte_order_mirror;
use crate::byte_order::lemma_lex_lt_irreflexive;
use crate::byte_order::lemma_lex_lt_transitive;
use crate::byte_order::lex_lt;
use crate::cow_bytes::CowBytes;
use crate::cow_bytes::SlicedCowBytes;
use crate::entry_map::EntryMap;
use crate::entry_map::EntryView;
use crate::entry_map::entries_ascending;
use crate::entry_map::entries_map;
use crate::entry_map::has_key;
use crate::entry_map::index_of_key;
use crate::entry_map::lemma_entries_map_at;
use crate::error::Error;
use crate::key_info::KeyInfo;
use vstd::bytes::u32_from_le_bytes;
use vstd::bytes::u32_to_le_bytes;
use vstd::prelude::*;
use vstd::slice::slice_subrange;

verus! {

/// The most entries an archive can hold: beyond this the offset table alone
/// would not fit in 32 bits.
pub const MAX_ENTRIES: usize = 1_073_741_821;

/// The length in bytes of the archive of `entries`, or `None` where it does
/// not fit in 32 bits. No byte of a key or payload is read.
pub fn archive_len(entries: &EntryMap) -> (r: Option<u32>)
    ensures
        fits_archive(entries@) ==> r == Some(encoded_len(entries@) as u32),
        !fits_archive(entries@) ==> r is None,
{
    let n = entries.len();
    if n > MAX_ENTRIES {
        return None;
    }
    let mut total: u64 = 8 + 4 * (n as u64);
    let mut i: usize = 0;
    while i < n
        invariant
            i <= n,
            n == entries@.len(),
            n <= MAX_ENTRIES,
            total == 8 + 4 * n + records_len(entries@.take(i as int)),
            total <= u32::MAX,
        decreases n - i,
    {
        let (key, _, value) = entries.entry_at(i);
        let key_len = key.len();
        let value_len = value.len();
        proof {
            lemma_records_len_monotone(entries@, i as int);
        }
        if key_len > u32::MAX as usize || value_len > u32::MAX as usize {
            return None;
        }
        total = total + 9 + key_len as u64 + value_len as u64;
        if total > u32::MAX as u64 {
            return None;
        }
        i += 1;
    }
    proof {
        assert(entries@.take(n as int) =~= entries@);
    }
    Some(total as u32)
}

/// Appends the four little-endian bytes of `x`.
fn put_u32(buf: &mut Vec<u8>, x: u32)
    ensures
        final(buf)@ == old(buf)@ + encode_u32(x as int),
{
    let bytes = u32_to_le_bytes(x);
    buf.extend_from_slice(bytes.as_slice());
}

/// Writes the entries into one contiguous archive, or reports
/// `ArchiveTooLarge` where their archive would be longer than 32-bit offsets
/// can address. The archive written is well-formed and holds exactly the
/// entries of the map, in the same order.
pub fn encode(entries: &EntryMap) -> (r: Result<Vec<u8>, Error>)
    ensures
        fits_archive(entries@) ==> r is Ok && r->Ok_0@ == encode_entries(entries@),
        fits_archive(entries@) ==> archive_wf(r->Ok_0@) && archived_entries(r->Ok_0@) == entries@,
        !fits_archive(entries@) ==> r == Err::<Vec<u8>, Error>(Error::ArchiveTooLarge),
{
    let total = match archive_len(entries) {
        Some(total) => total,
        None => {
            return Err(Error::ArchiveTooLarge);
        },
    };
    let n = entries.len();
    let ghost s = entries@;
    let mut buf: Vec<u8> = Vec::with_capacity(total as usize);
    buf.push(67u8);
    buf.push(87u8);
    buf.push(65u8);
    buf.push(49u8);
    assert(buf@ =~= magic());
    put_u32(&mut buf, n as u32);
    let ghost head = magic() + encode_u32(n as int);
    let mut start: u32 = 8 + 4 * (n as u32);
    let mut i: usize = 0;
    while i < n
        invariant
            i <= n,
            n == s.len(),
            s == entries@,
            fits_archive(s),
            head == magic() + encode_u32(n as int),
            buf@ == head + encode_table(s, i as nat),
            start == record_start(s, i as int),
        decreases n - i,
    {
        let (key, _, value) = entries.entry_at(i);
        proof {
            lemma_records_len_monotone(s, i as int);
            assert(encode_table(s, (i + 1) as nat) == encode_table(s, i as nat) + encode_u32(
                record_start(s, i as int) as int,
            ));
        }
        put_u32(&mut buf, start);
        assert(buf@ =~= head + encode_table(s, (i + 1) as nat));
        start = start + 9 + key.len() as u32 + value.len() as u32;
        i += 1;
    }
    let ghost front = head + encode_table(s, n as nat);
    let mut i: usize = 0;
    assert(s.take(0) =~= Seq::<EntryView>::empty());
    assert(buf@ =~= front + encode_records(s.take(0)));
    while i < n
        invariant
            i <= n,
            n == s.len(),
            s == entries@,
            fits_archive(s),
            buf@ == front + encode_records(s.take(i as int)),
        decreases n - i,
    {
        let (key, info, value) = entries.entry_at(i);
        let ghost before = buf@;
        let ghost e = s[i as int];
        proof {
            lemma_records_len_monotone(s, i as int);
            assert(s.take(i + 1).drop_last() =~= s.take(i as int));
            assert(s.take(i + 1).last() == e);
        }
        put_u32(&mut buf, key.len() as u32);
        buf.push(info.archived_code());
        put_u32(&mut buf, value.len() as u32);
        buf.extend_from_slice(key.as_bytes());
        buf.extend_from_slice(value.as_bytes());
        assert(buf@ =~= before + encode_record(e));
        assert(buf@ =~= front + encode_records(s.take(i + 1)));
        i += 1;
    }
    proof {
        assert(s.take(n as int) =~= s);
        assert(buf@ =~= encode_entries(s));
        lemma_round_trip(s);
    }
    Ok(buf)
}

/// The little-endian number in the four bytes at `pos`.
fn get_u32(blob: &[u8], pos: usize) -> (x: u32)
    requires
        pos + 4 <= blob@.len(),
    ensures
        x == read_u32(blob@, pos as int),
{
    let len = blob.len();
    assert(pos + 4 <= len);
    u32_from_le_bytes(slice_subrange(blob, pos, pos + 4))
}

/// One entry of an archive, borrowed from the archive's bytes.
#[derive(Debug, Clone, Copy)]
pub struct ArchivedEntry<'a> {
    /// The key's bytes.
    pub key: &'a [u8],
    /// The entry's metadata.
    pub info: KeyInfo,
    /// The payload's bytes.
    pub value: &'a [u8],
}

impl<'a> View for ArchivedEntry<'a> {
    type V = EntryView;

    open spec fn view(&self) -> EntryView {
        EntryView { key: self.key@, tier: self.info@, value: self.value@ }
    }
}

impl<'a> ArchivedEntry<'a> {
    /// Copies the entry out of the archive, so that it can outlive it.
    pub fn to_owned(&self) -> (r: (CowBytes, KeyInfo, SlicedCowBytes))
        ensures
            r.0@ == self@.key,
            r.1@ == self@.tier,
            r.2@ == self@.value,
    {
        (
            CowBytes::from_slice(self.key),
            self.info,
            SlicedCowBytes::from(CowBytes::from_slice(self.value)),
        )
    }
}

/// A well-formed archive, read in place: entries are handed out as views
/// into the archive's bytes and nothing is copied.
#[derive(Debug, Clone, Copy)]
pub struct ArchiveView<'a> {
    blob: &'a [u8],
    count: usize,
}

impl<'a> View for ArchiveView<'a> {
    type V = Seq<EntryView>;

    closed spec fn view(&self) -> Seq<EntryView> {
        archived_entries(self.blob@)
    }
}

impl<'a> ArchiveView<'a> {
    #[verifier::type_invariant]
    spec fn well_formed(self) -> bool {
        archive_wf(self.blob@) && self.count == entry_count(self.blob@)
    }

    /// The bytes that this view reads.
    pub closed spec fn bytes(&self) -> Seq<u8> {
        self.blob@
    }

    /// Checks the blob's structure and, where it is a well-formed archive,
    /// hands out a view of it. Any other blob is refused as
    /// `CorruptArchive`.
    pub fn validated(blob: &'a [u8]) -> (r: Result<ArchiveView<'a>, Error>)
        ensures
            archive_wf(blob@) ==> r is Ok && r->Ok_0.bytes() == blob@ && r->Ok_0@
                == archived_entries(blob@),
            !archive_wf(blob@) ==> r == Err::<ArchiveView<'a>, Error>(Error::CorruptArchive),
    {
        let len = blob.len();
        if len < 8 || len > u32::MAX as usize {
            return Err(Error::CorruptArchive);
        }
        if blob[0] != 67u8 || blob[1] != 87u8 || blob[2] != 65u8 || blob[3] != 49u8 {
            proof {
                let m = blob@.subrange(0, 4);
                assert(m[0] == blob@[0] && m[1] == blob@[1] && m[2] == blob@[2] && m[3] == blob@[3]);
            }
            return Err(Error::CorruptArchive);
        }
        assert(blob@.subrange(0, 4) =~= magic());
        let count = get_u32(blob, 4) as usize;
        if count > (len - 8) / 4 {
            return Err(Error::CorruptArchive);
        }
        let mut expected: usize = 8 + 4 * count;
        let mut previous_key: &[u8] = slice_subrange(blob, 0, 0);
        let mut i: usize = 0;
        while i < count
            invariant
                i <= count,
                len == blob@.len(),
                8 <= len <= u32::MAX,
                count == entry_count(blob@),
                table_end(blob@) <= len,
                expected == expected_pos(blob@, i as int),
                expected <= len,
                forall|j: int| 0 <= j < i ==> #[trigger] record_fits(blob@, j),
                forall|j: int, k: int|
                    0 <= j < k < i ==> lex_lt(
                        #[trigger] archived_key(blob@, j),
                        #[trigger] archived_key(blob@, k),
                    ),
                i > 0 ==> previous_key@ == archived_key(blob@, i - 1),
            decreases count - i,
        {
            let p = get_u32(blob, 8 + 4 * i) as usize;
            if p != expected || len - p < 9 {
                assert(!record_fits(blob@, i as int));
                return Err(Error::CorruptArchive);
            }
            let key_len = get_u32(blob, p) as usize;
            let code = blob[p + 4];
            let value_len = get_u32(blob, p + 5) as usize;
            let rest = len - p - 9;
            if key_len > rest || value_len > rest - key_len || (code > 3 && code != 255) {
                assert(!record_fits(blob@, i as int));
                return Err(Error::CorruptArchive);
            }
            assert(record_fits(blob@, i as int));
            let key = slice_subrange(blob, p + 9, p + 9 + key_len);
            assert(key@ == archived_key(blob@, i as int));
            if i > 0 {
                match compare_bytes(previous_key, key) {
                    ByteOrder::Less => {
                        proof {
                            assert forall|j: int, k: int| 0 <= j < k < i + 1 implies lex_lt(
                                #[trigger] archived_key(blob@, j),
                                #[trigger] archived_key(blob@, k),
                            ) by {
                                if k == i && j < i - 1 {
                                    lemma_lex_lt_transitive(
                                        archived_key(blob@, j),
                                        archived_key(blob@, i - 1),
                                        archived_key(blob@, i as int),
                                    );
                                }
                            }
                        }
                    },
                    _ => {
                        proof {
                            lemma_byte_order_mirror(previous_key@, key@);
                            assert(!lex_lt(
                                archived_key(blob@, i - 1),
                                archived_key(blob@, i as int),
                            ));
                        }
                        return Err(Error::CorruptArchive);
                    },
                }
            }
            previous_key = key;
            expected = p + 9 + key_len + value_len;
            i += 1;
        }
        if expected != len {
            return Err(Error::CorruptArchive);
        }
        Ok(ArchiveView { blob, count })
    }

    /// Hands out a view of the blob without checking it. The caller vouches
    /// that the blob is a well-formed archive, such as one that `encode`
    /// wrote and that nothing has altered since; on any other blob reads
    /// through the view go astray.
    pub fn unvalidated(blob: &'a [u8]) -> (view: ArchiveView<'a>)
        requires
            archive_wf(blob@),
        ensures
            view.bytes() == blob@,
            view@ == archived_entries(blob@),
    {
        let count = get_u32(blob, 4) as usize;
        ArchiveView { blob, count }
    }

    /// Number of entries in the archive. A view only ever stands over a
    /// well-formed archive.
    pub fn len(&self) -> (n: usize)
        ensures
            n == self@.len(),
            archive_wf(self.bytes()),
            self@ == archived_entries(self.bytes()),
    {
        proof {
            use_type_invariant(self);
        }
        self.count
    }

    /// Whether the archive holds no entry.
    pub fn is_empty(&self) -> (r: bool)
        ensures
            r == (self@.len() == 0),
    {
        proof {
            use_type_invariant(self);
        }
        self.count == 0
    }

    /// The `i`-th entry in ascending key order. Only that entry's record is
    /// read.
    pub fn entry_at(&self, i: usize) -> (entry: ArchivedEntry<'a>)
        requires
            i < self@.len(),
        ensures
            entry@ == self@[i as int],
    {
        proof {
            use_type_invariant(self);
        }
        let blob = self.blob;
        assert(record_fits(blob@, i as int));
        let p = get_u32(blob, 8 + 4 * i) as usize;
        let key_len = get_u32(blob, p) as usize;
        let code = blob[p + 4];
        let value_len = get_u32(blob, p + 5) as usize;
        let key = slice_subrange(blob, p + 9, p + 9 + key_len);
        let value = slice_subrange(blob, p + 9 + key_len, p + 9 + key_len + value_len);
        ArchivedEntry { key, info: KeyInfo::from_archived(code), value }
    }

    /// The `i`-th entry in ascending key order, or `None` past the end.
    pub fn entry(&self, i: usize) -> (r: Option<ArchivedEntry<'a>>)
        ensures
            i < self@.len() ==> r is Some && r->Some_0@ == self@[i as int],
            i >= self@.len() ==> r is None,
    {
        if i < self.len() {
            Some(self.entry_at(i))
        } else {
            None
        }
    }

    /// The entry with the smallest key, or `None` in an empty archive.
    pub fn first(&self) -> (r: Option<ArchivedEntry<'a>>)
        ensures
            self@.len() > 0 ==> r is Some && r->Some_0@ == self@[0],
            self@.len() == 0 ==> r is None,
    {
        self.entry(0)
    }

    /// Looks `key` up in the archive by bisecting the offset table. Only
    /// the records that the search compares with are read.
    pub fn find(&self, key: &[u8]) -> (r: Option<ArchivedEntry<'a>>)
        ensures
            r is Some <==> entries_map(self@).contains_key(key@),
            r matches Some(entry) ==> entry@.key == key@ && entries_map(self@)[key@] == (
                entry@.tier,
                entry@.value,
            ),
    {
        proof {
            use_type_invariant(self);
            lemma_archived_entries_ascending(self.blob@);
        }
        let mut lo: usize = 0;
        let mut hi: usize = self.len();
        while lo < hi
            invariant
                lo <= hi <= self@.len(),
                entries_ascending(self@),
                forall|j: int| 0 <= j < lo ==> lex_lt(#[trigger] self@[j].key, key@),
                forall|j: int| hi <= j < self@.len() ==> lex_lt(key@, #[trigger] self@[j].key),
            decreases hi - lo,
        {
            let mid = lo + (hi - lo) / 2;
            let entry = self.entry_at(mid);
            match compare_bytes(entry.key, key) {
                ByteOrder::Less => {
                    proof {
                        assert forall|j: int| 0 <= j < mid + 1 implies lex_lt(
                            #[trigger] self@[j].key,
                            key@,
                        ) by {
                            if j < mid {
                                lemma_lex_lt_transitive(
                                    self@[j].key,
                                    self@[mid as int].key,
                                    key@,
                                );
                            }
                        }
                    }
                    lo = mid + 1;
                },
                ByteOrder::Equal => {
                    proof {
                        lemma_entries_map_at(self@, mid as int);
                    }
                    return Some(entry);
                },
                ByteOrder::Greater => {
                    proof {
                        lemma_byte_order_mirror(self@[mid as int].key, key@);
                        assert forall|j: int| mid <= j < self@.len() implies lex_lt(
                            key@,
                            #[trigger] self@[j].key,
                        ) by {
                            if mid < j {
                                lemma_lex_lt_transitive(
                                    key@,
                                    self@[mid as int].key,
                                    self@[j].key,
                                );
                            }
                        }
                    }
                    hi = mid;
                },
            }
        }
        proof {
            if has_key(self@, key@) {
                let j = index_of_key(self@, key@);
                lemma_lex_lt_irreflexive(key@);
            }
        }
        None
    }

    /// Copies every entry out of the archive into an owned map that no
    /// longer depends on the archive's bytes.
    pub fn materialize(&self) -> (map: EntryMap)
        ensures
            map@ == self@,
    {
        proof {
            use_type_invariant(self);
            lemma_archived_entries_ascending(self.blob@);
        }
        let mut map = EntryMap::new();
        let n = self.len();
        let mut i: usize = 0;
        while i < n
            invariant
                i <= n,
                n == self@.len(),
                entries_ascending(self@),
                map@ == self@.take(i as int),
            decreases n - i,
        {
            let (key, info, value) = self.entry_at(i).to_owned();
            proof {
                if i > 0 {
                    assert(map@.last() == self@[i - 1]);
                    assert(lex_lt(self@[i - 1].key, self@[i as int].key));
                }
            }
            map.push_last(key, info, value);
            assert(map@ =~= self@.take(i + 1));
            i += 1;
        }
        assert(self@.take(n as int) =~= self@);
        map
    }
}

} // verus!
