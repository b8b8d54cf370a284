//! The two records that carry a sorted entry map, and the data they are
//! filled with for measurements.

use crate::cow_bytes::CowBytes;
use crate::cow_bytes::SlicedCowBytes;
use crate::entry_map::EntryMap;
use crate::key_info::KeyInfo;
use crate::storage_preference::StoragePreference;
use crate::storage_preference::tier_of_code;
use vstd::prelude::*;

verus! {

/// A record whose entries are meant to be archived and read back in place.
#[allow(non_camel_case_types)]
#[derive(Debug, PartialEq)]
pub struct Type_A {
    pub entries: EntryMap,
}

/// A record whose entries are meant to be encoded and decoded as a whole.
#[allow(non_camel_case_types)]
#[derive(Debug)]
pub struct Type_B {
    pub entries: EntryMap,
}

impl Clone for Type_B {
    fn clone(&self) -> (c: Type_B)
        ensures
            c.entries@ == self.entries@,
    {
        Type_B { entries: self.entries.clone() }
    }
}

/// One more than the greatest key number that `fill_data_a` and
/// `fill_data_b` store.
pub const ENTRIES_COUNT: u32 = 10000;

/// Length of the payload that `fill_data_a` and `fill_data_b` store under
/// every key.
pub const VALUE_LEN: usize = 131072;

/// The tier code that `fill_data_a` and `fill_data_b` give every key.
pub const FILL_TIER_CODE: u8 = 1;

/// The decimal digits of `n` in ASCII, most significant first.
pub open spec fn decimal(n: nat) -> Seq<u8>
    decreases n,
{
    if n < 10 {
        seq![(48 + n) as u8]
    } else {
        decimal(n / 10).push((48 + n % 10) as u8)
    }
}

/// A payload of `len` bytes that are all `byte`.
pub open spec fn repeated(byte: u8, len: nat) -> Seq<u8> {
    Seq::new(len, |i: int| byte)
}

/// The map `m` after the keys `decimal(1)`, ..., `decimal(count - 1)` have
/// been stored in it, each with the same tier and payload.
pub open spec fn filled(
    m: Map<Seq<u8>, (StoragePreference, Seq<u8>)>,
    count: nat,
    tier: StoragePreference,
    value: Seq<u8>,
) -> Map<Seq<u8>, (StoragePreference, Seq<u8>)>
    decreases count,
{
    if count <= 1 {
        m
    } else {
        filled(m, (count - 1) as nat, tier, value).insert(
            decimal((count - 1) as nat),
            (tier, value),
        )
    }
}

/// After filling, every key `decimal(k)` with `1 <= k < count` is present
/// with the given tier and payload, and every other key is as it was.
pub proof fn lemma_filled_contents(
    m: Map<Seq<u8>, (StoragePreference, Seq<u8>)>,
    count: nat,
    tier: StoragePreference,
    value: Seq<u8>,
    key: Seq<u8>,
)
    ensures
        (exists|k: nat| 1 <= k < count && key == decimal(k)) ==> filled(
            m,
            count,
            tier,
            value,
        ).contains_key(key) && filled(m, count, tier, value)[key] == (tier, value),
        !(exists|k: nat| 1 <= k < count && key == decimal(k)) ==> (filled(
            m,
            count,
            tier,
            value,
        ).contains_key(key) <==> m.contains_key(key)) && (m.contains_key(key) ==> filled(
            m,
            count,
            tier,
            value,
        )[key] == m[key]),
    decreases count,
{
    if count > 1 {
        let before = (count - 1) as nat;
        lemma_filled_contents(m, before, tier, value, key);
        if exists|k: nat| 1 <= k < count && key == decimal(k) {
            let k = choose|k: nat| 1 <= k < count && key == decimal(k);
            if k < before {
                assert(1 <= k < before && key == decimal(k));
            }
        } else {
            assert(!(1 <= before < count && key == decimal(before)));
            if exists|k: nat| 1 <= k < before && key == decimal(k) {
                let k = choose|k: nat| 1 <= k < before && key == decimal(k);
                assert(1 <= k < count && key == decimal(k));
            }
        }
    }
}

/// The ASCII decimal digits of `n`.
pub fn decimal_key(n: u32) -> (digits: Vec<u8>)
    ensures
        digits@ == decimal(n as nat),
    decreases n,
{
    if n < 10 {
        let mut digits: Vec<u8> = Vec::new();
        digits.push(48 + n as u8);
        assert(digits@ =~= decimal(n as nat));
        digits
    } else {
        let mut digits = decimal_key(n / 10);
        digits.push(48 + (n % 10) as u8);
        digits
    }
}

/// A buffer of `len` bytes that are all `byte`.
pub fn repeated_bytes(byte: u8, len: usize) -> (bytes: Vec<u8>)
    ensures
        bytes@ == repeated(byte, len as nat),
{
    let bytes = vec![byte; len];
    assert(bytes@ =~= repeated(byte, len as nat));
    bytes
}

/// Stores the keys `"1"`, `"2"`, ... up to `count - 1`, written in decimal,
/// each with the tier that `tier_code` stands for and a view of the whole of
/// `value`. The payloads share `value`; no bytes are copied.
pub fn fill_entries(entries: &mut EntryMap, count: u32, tier_code: u8, value: &CowBytes)
    ensures
        final(entries).as_map() == filled(
            old(entries).as_map(),
            count as nat,
            tier_of_code(tier_code),
            value@,
        ),
{
    let ghost start = entries.as_map();
    let ghost tier = tier_of_code(tier_code);
    let mut number: u32 = 1;
    while number < count
        invariant
            1 <= number,
            number <= count || (count == 0 && number == 1),
            tier == tier_of_code(tier_code),
            entries.as_map() == filled(start, number as nat, tier, value@),
        decreases count - number,
    {
        let key = CowBytes::from(decimal_key(number));
        let info = KeyInfo::new(StoragePreference::new(tier_code));
        entries.insert(key, (info, SlicedCowBytes::from(value.clone())));
        number += 1;
    }
    proof {
        if count == 0 {
            assert(filled(start, 1nat, tier, value@) == start);
            assert(filled(start, 0nat, tier, value@) == start);
        }
    }
}

/// Fills the record with the measurement data: keys `"1"` to `"9999"`, all
/// on the tier with code 1, all with one shared payload of 128 KiB of ones.
pub fn fill_data_a(data: &mut Type_A)
    ensures
        final(data).entries.as_map() == filled(
            old(data).entries.as_map(),
            ENTRIES_COUNT as nat,
            tier_of_code(FILL_TIER_CODE),
            repeated(1u8, VALUE_LEN as nat),
        ),
{
    let value = CowBytes::from(repeated_bytes(1u8, VALUE_LEN));
    fill_entries(&mut data.entries, ENTRIES_COUNT, FILL_TIER_CODE, &value);
}

/// Fills the record with the measurement data: keys `"1"` to `"9999"`, all
/// on the tier with code 1, all with one shared payload of 128 KiB of ones.
pub fn fill_data_b(data: &mut Type_B)
    ensures
        final(data).entries.as_map() == filled(
            old(data).entries.as_map(),
            ENTRIES_COUNT as nat,
            tier_of_code(FILL_TIER_CODE),
            repeated(1u8, VALUE_LEN as nat),
        ),
{
    let value = CowBytes::from(repeated_bytes(1u8, VALUE_LEN));
    fill_entries(&mut data.entries, ENTRIES_COUNT, FILL_TIER_CODE, &value);
}

} // verus!
