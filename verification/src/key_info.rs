//! Per-key metadata and the rule that reconciles two layers of it.

use crate::size::StaticSize;
use crate::storage_preference::StoragePreference;
use crate::storage_preference::code_of_tier;
use crate::storage_preference::faster_of;
use crate::storage_preference::speed_rank;
use crate::storage_preference::tier_of_code;
use vstd::prelude::*;

verus! {

/// Additional information for a single entry: the storage tier that the key
/// would like to live on.
#[derive(Debug, Clone, Copy, PartialEq, Eq, Structural)]
pub struct KeyInfo {
    storage_preference: StoragePreference,
}

impl View for KeyInfo {
    type V = StoragePreference;

    closed spec fn view(&self) -> StoragePreference {
        self.storage_preference
    }
}

impl KeyInfo {
    /// Metadata that asks for the given tier.
    pub fn new(storage_preference: StoragePreference) -> (info: KeyInfo)
        ensures
            info@ == storage_preference,
    {
        KeyInfo { storage_preference }
    }

    /// The metadata that an archived tier code stands for. Codes that name
    /// no tier are read as no preference.
    pub fn from_archived(tier_code: u8) -> (info: KeyInfo)
        ensures
            info@ == tier_of_code(tier_code),
    {
        KeyInfo { storage_preference: StoragePreference::new(tier_code) }
    }

    /// The tier code that this metadata is archived as.
    pub fn archived_code(&self) -> (code: u8)
        ensures
            code == code_of_tier(self@),
    {
        self.storage_preference.as_u8()
    }

    /// Reconciles the metadata of a lower layer (`self`) with that of the
    /// layer above it: the result asks for the faster of the two tiers, so a
    /// key is promoted and never silently demoted.
    pub fn merge_with_upper(self, upper: KeyInfo) -> (merged: KeyInfo)
        ensures
            merged@ == faster_of(self@, upper@),
    {
        KeyInfo {
            storage_preference: StoragePreference::choose_faster(
                self.storage_preference,
                upper.storage_preference,
            ),
        }
    }

    /// The tier this metadata asks for.
    pub fn storage_preference(&self) -> (p: &StoragePreference)
        ensures
            *p == self@,
    {
        &self.storage_preference
    }
}

impl StaticSize for StoragePreference {
    open spec fn spec_static_size() -> nat {
        1
    }

    fn static_size() -> (n: usize) {
        StoragePreference::SERIALIZED_SIZE
    }
}

impl StaticSize for KeyInfo {
    open spec fn spec_static_size() -> nat {
        StoragePreference::spec_static_size()
    }

    fn static_size() -> (n: usize) {
        StoragePreference::static_size()
    }
}

/// Two pieces of metadata with the same tier are the same metadata.
pub proof fn lemma_key_info_determined_by_tier(a: KeyInfo, b: KeyInfo)
    requires
        a@ == b@,
    ensures
        a == b,
{
}

/// Merging does not depend on which layer is called the upper one, and
/// merging metadata with itself changes nothing.
pub proof fn lemma_merge_commutative_idempotent(a: KeyInfo, b: KeyInfo)
    ensures
        faster_of(a@, b@) == faster_of(b@, a@),
        faster_of(a@, a@) == a@,
{
}

/// Merging three layers gives the same tier however the merges are grouped,
/// and that tier is the fastest of the three.
pub proof fn lemma_merge_associative(a: KeyInfo, b: KeyInfo, c: KeyInfo)
    ensures
        faster_of(faster_of(a@, b@), c@) == faster_of(a@, faster_of(b@, c@)),
        ({
            let m = faster_of(faster_of(a@, b@), c@);
            &&& (m == a@ || m == b@ || m == c@)
            &&& speed_rank(m) <= speed_rank(a@)
            &&& speed_rank(m) <= speed_rank(b@)
            &&& speed_rank(m) <= speed_rank(c@)
        }),
{
}

} // verus!
