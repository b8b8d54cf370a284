//! The ways a record travels through an archive and back: reading the
//! archive in place or materializing it, with its structure checked or
//! taken on trust, in full or only as far as the first entry.

use crate::archive::ArchiveView;
use crate::archive::encode;
use crate::archive_format::archive_wf;
use crate::archive_format::archived_entries;
use crate::archive_format::fits_archive;
use crate::archive_format::lemma_archived_entries_ascending;
use crate::archive_format::lemma_first_entry_is_minimum;
use crate::byte_order::lex_lt;
use crate::dataset::Type_A;
use crate::dataset::Type_B;
use crate::entry_map::EntryMap;
use crate::entry_map::EntryView;
use crate::entry_map::entries_ascending;
use crate::entry_map::entries_map;
use crate::entry_map::lemma_ascending_entries_unique;
use crate::entry_map::lemma_insert_map;
use crate::error::Error;
use vstd::prelude::*;

verus! {

/// The first `limit` entries of `s`, or all of them where there are fewer.
pub open spec fn first_entries(s: Seq<EntryView>, limit: nat) -> Seq<EntryView> {
    if limit < s.len() {
        s.take(limit as int)
    } else {
        s
    }
}

/// A leading part of an ascending sequence is ascending.
proof fn lemma_take_ascending(s: Seq<EntryView>, k: int)
    requires
        entries_ascending(s),
        0 <= k <= s.len(),
    ensures
        entries_ascending(s.take(k)),
{
    let t = s.take(k);
    assert forall|i: int, j: int| 0 <= i < j < t.len() implies lex_lt(
        #[trigger] t[i].key,
        #[trigger] t[j].key,
    ) by {
        assert(t[i] == s[i] && t[j] == s[j]);
    }
}

/// Walks the archive in key order and copies the entries it visits into an
/// owned map, stopping after `limit` entries. Entries past the stopping
/// point are not read.
pub fn copy_entries(view: &ArchiveView, limit: usize) -> (copied: EntryMap)
    ensures
        copied@ == first_entries(view@, limit as nat),
{
    let mut copied = EntryMap::new();
    let total = view.len();
    let n = if limit < total {
        limit
    } else {
        total
    };
    let ghost wanted = first_entries(view@, limit as nat);
    proof {
        assert(wanted =~= view@.take(n as int));
        lemma_archived_entries_ascending(view.bytes());
        lemma_take_ascending(view@, n as int);
        assert(wanted.take(0) =~= copied@);
    }
    let mut i: usize = 0;
    while i < n
        invariant
            i <= n,
            n == wanted.len(),
            n <= view@.len(),
            wanted == view@.take(n as int),
            entries_ascending(wanted),
            entries_ascending(copied@),
            copied.as_map() == entries_map(wanted.take(i as int)),
        decreases n - i,
    {
        let (key, info, value) = view.entry_at(i).to_owned();
        proof {
            let before = wanted.take(i as int);
            lemma_take_ascending(wanted, i as int);
            assert(wanted[i as int] == view@[i as int]);
            assert forall|j: int| 0 <= j < i implies lex_lt(
                #[trigger] before[j].key,
                wanted[i as int].key,
            ) by {
                assert(before[j] == wanted[j]);
            }
            lemma_insert_map(before, i as int, wanted[i as int]);
            assert(before.insert(i as int, wanted[i as int]) =~= wanted.take(i + 1));
        }
        copied.insert(key, (info, value));
        i += 1;
    }
    proof {
        assert(wanted.take(n as int) =~= wanted);
        lemma_ascending_entries_unique(copied@, wanted);
    }
    copied
}

/// Reads a whole archive into an owned record after checking its structure.
pub fn materialize_validated(blob: &[u8]) -> (r: Result<Type_A, Error>)
    ensures
        archive_wf(blob@) ==> r is Ok && r->Ok_0.entries@ == archived_entries(blob@),
        !archive_wf(blob@) ==> r is Err && r->Err_0 == Error::CorruptArchive,
{
    match ArchiveView::validated(blob) {
        Ok(view) => Ok(Type_A { entries: view.materialize() }),
        Err(e) => Err(e),
    }
}

/// Reads a whole archive into an owned record without checking its
/// structure. The caller vouches that the blob is a well-formed archive.
pub fn materialize_unvalidated(blob: &[u8]) -> (r: Type_A)
    requires
        archive_wf(blob@),
    ensures
        r.entries@ == archived_entries(blob@),
{
    Type_A { entries: ArchiveView::unvalidated(blob).materialize() }
}

/// Walks an archive in place after checking its structure, and copies the
/// first `limit` entries into an owned record.
pub fn traverse_validated(blob: &[u8], limit: usize) -> (r: Result<Type_B, Error>)
    ensures
        archive_wf(blob@) ==> r is Ok && r->Ok_0.entries@ == first_entries(
            archived_entries(blob@),
            limit as nat,
        ),
        !archive_wf(blob@) ==> r is Err && r->Err_0 == Error::CorruptArchive,
{
    match ArchiveView::validated(blob) {
        Ok(view) => Ok(Type_B { entries: copy_entries(&view, limit) }),
        Err(e) => Err(e),
    }
}

/// Walks an archive in place without checking its structure, and copies
/// the first `limit` entries into an owned record. The caller vouches that
/// the blob is a well-formed archive.
pub fn traverse_unvalidated(blob: &[u8], limit: usize) -> (r: Type_B)
    requires
        archive_wf(blob@),
    ensures
        r.entries@ == first_entries(archived_entries(blob@), limit as nat),
{
    let view = ArchiveView::unvalidated(blob);
    Type_B { entries: copy_entries(&view, limit) }
}

/// Archives the record, checks the archive, and materializes it again. The
/// record that comes back holds the same entries in the same order.
pub fn read_back_validated(data: &Type_A) -> (r: Result<Type_A, Error>)
    ensures
        fits_archive(data.entries@) ==> r is Ok && r->Ok_0.entries@ == data.entries@,
        !fits_archive(data.entries@) ==> r is Err && r->Err_0 == Error::ArchiveTooLarge,
{
    let blob = match encode(&data.entries) {
        Ok(blob) => blob,
        Err(e) => {
            return Err(e);
        },
    };
    materialize_validated(blob.as_slice())
}

/// Archives the record and materializes it again, trusting the archive that
/// was just written.
pub fn read_back_unvalidated(data: &Type_A) -> (r: Result<Type_A, Error>)
    ensures
        fits_archive(data.entries@) ==> r is Ok && r->Ok_0.entries@ == data.entries@,
        !fits_archive(data.entries@) ==> r is Err && r->Err_0 == Error::ArchiveTooLarge,
{
    let blob = match encode(&data.entries) {
        Ok(blob) => blob,
        Err(e) => {
            return Err(e);
        },
    };
    Ok(materialize_unvalidated(blob.as_slice()))
}

/// Archives the record, checks the archive, and copies its entries out one
/// by one while walking it in place, stopping after `limit` entries.
pub fn walk_validated(data: &Type_A, limit: usize) -> (r: Result<Type_B, Error>)
    ensures
        fits_archive(data.entries@) ==> r is Ok && r->Ok_0.entries@ == first_entries(
            data.entries@,
            limit as nat,
        ),
        !fits_archive(data.entries@) ==> r is Err && r->Err_0 == Error::ArchiveTooLarge,
{
    let blob = match encode(&data.entries) {
        Ok(blob) => blob,
        Err(e) => {
            return Err(e);
        },
    };
    traverse_validated(blob.as_slice(), limit)
}

/// Archives the record and copies its entries out one by one while walking
/// the archive in place, stopping after `limit` entries and trusting the
/// archive that was just written.
pub fn walk_unvalidated(data: &Type_A, limit: usize) -> (r: Result<Type_B, Error>)
    ensures
        fits_archive(data.entries@) ==> r is Ok && r->Ok_0.entries@ == first_entries(
            data.entries@,
            limit as nat,
        ),
        !fits_archive(data.entries@) ==> r is Err && r->Err_0 == Error::ArchiveTooLarge,
{
    let blob = match encode(&data.entries) {
        Ok(blob) => blob,
        Err(e) => {
            return Err(e);
        },
    };
    Ok(traverse_unvalidated(blob.as_slice(), limit))
}

/// Encodes the record as a whole and decodes it as a whole: the
/// conventional pipeline, which owns everything it hands back.
pub fn encode_decode(data: &Type_B) -> (r: Result<Type_B, Error>)
    ensures
        fits_archive(data.entries@) ==> r is Ok && r->Ok_0.entries@ == data.entries@,
        !fits_archive(data.entries@) ==> r is Err && r->Err_0 == Error::ArchiveTooLarge,
{
    let blob = match encode(&data.entries) {
        Ok(blob) => blob,
        Err(e) => {
            return Err(e);
        },
    };
    match ArchiveView::validated(blob.as_slice()) {
        Ok(view) => Ok(Type_B { entries: view.materialize() }),
        Err(e) => Err(e),
    }
}

/// Materializing an archive and walking it in place without stopping early
/// give the same entries in the same order.
pub proof fn lemma_paths_agree(blob: Seq<u8>, limit: nat)
    requires
        limit >= archived_entries(blob).len(),
    ensures
        first_entries(archived_entries(blob), limit) == archived_entries(blob),
{
}

/// Walking an archive in place and stopping after the first entry yields
/// the first entry of the materialized map, which carries the smallest key.
pub proof fn lemma_early_stop_sees_minimum(blob: Seq<u8>, i: int)
    requires
        archive_wf(blob),
        0 < i < archived_entries(blob).len(),
    ensures
        first_entries(archived_entries(blob), 1) == seq![archived_entries(blob)[0]],
        lex_lt(archived_entries(blob)[0].key, archived_entries(blob)[i].key),
{
    let s = archived_entries(blob);
    lemma_first_entry_is_minimum(blob, i);
    assert(first_entries(s, 1) =~= seq![s[0]]);
}

} // verus!
