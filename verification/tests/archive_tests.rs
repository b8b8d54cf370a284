use cow_archive::archive::archive_len;
use cow_archive::archive::encode;
use cow_archive::archive::ArchiveView;
use cow_archive::archive::MAX_ENTRIES;
use cow_archive::cow_bytes::CowBytes;
use cow_archive::cow_bytes::SlicedCowBytes;
use cow_archive::entry_map::EntryMap;
use cow_archive::error::Error;
use cow_archive::key_info::KeyInfo;
use cow_archive::storage_preference::StoragePreference;

fn info(code: u8) -> KeyInfo {
    KeyInfo::new(StoragePreference::new(code))
}

fn map_of(entries: &[(&[u8], u8, &[u8])]) -> EntryMap {
    let mut map = EntryMap::new();
    for (k, tier, v) in entries {
        map.insert(CowBytes::from(*k), (info(*tier), SlicedCowBytes::from(CowBytes::from(*v))));
    }
    map
}

fn triples_of_map(map: &EntryMap) -> Vec<(Vec<u8>, StoragePreference, Vec<u8>)> {
    (0..map.len())
        .map(|i| {
            let (k, i, v) = map.entry_at(i);
            (k.to_vec(), *i.storage_preference(), v.to_vec())
        })
        .collect()
}

fn triples_of_view(view: &ArchiveView) -> Vec<(Vec<u8>, StoragePreference, Vec<u8>)> {
    (0..view.len())
        .map(|i| {
            let e = view.entry(i).unwrap();
            (e.key.to_vec(), *e.info.storage_preference(), e.value.to_vec())
        })
        .collect()
}

fn sample() -> EntryMap {
    map_of(&[
        (b"delta", 3, &[4, 4, 4, 4]),
        (b"alpha", 0, &[1]),
        (b"charlie", 255, &[]),
        (b"bravo", 2, &[2, 2]),
        (b"", 1, &[9, 9, 9]),
    ])
}

#[test]
fn empty_map_encodes_to_the_bare_header() {
    let blob = encode(&EntryMap::new()).unwrap();
    assert_eq!(blob, vec![67u8, 87, 65, 49, 0, 0, 0, 0]);
}

#[test]
fn one_entry_encodes_to_the_documented_layout() {
    let blob = encode(&map_of(&[(b"a", 1, &[9, 8])])).unwrap();
    let expected: Vec<u8> = vec![
        67, 87, 65, 49, // magic
        1, 0, 0, 0, // count
        12, 0, 0, 0, // offset of record 0
        1, 0, 0, 0, // key length
        1, // tier code
        2, 0, 0, 0, // value length
        97, // key
        9, 8, // value
    ];
    assert_eq!(blob, expected);
}

#[test]
fn two_entries_encode_in_key_order_with_absolute_offsets() {
    let blob = encode(&map_of(&[(b"zz", 255, &[7]), (b"b", 0, &[])])).unwrap();
    let expected: Vec<u8> = vec![
        67, 87, 65, 49, // magic
        2, 0, 0, 0, // count
        16, 0, 0, 0, // offset of record 0
        26, 0, 0, 0, // offset of record 1
        1, 0, 0, 0, 0, 0, 0, 0, 0, 98, // record of "b"
        2, 0, 0, 0, 255, 1, 0, 0, 0, 122, 122, 7, // record of "zz"
    ];
    assert_eq!(blob, expected);
}

#[test]
fn lengths_above_255_use_all_four_bytes() {
    let value = vec![5u8; 70000];
    let blob = encode(&map_of(&[(b"k", 1, &value)])).unwrap();
    assert_eq!(blob.len(), 8 + 4 + 9 + 1 + 70000);
    assert_eq!(&blob[17..21], &[0x70u8, 0x11, 0x01, 0x00]);
    let view = ArchiveView::validated(&blob).unwrap();
    assert_eq!(view.entry(0).unwrap().value, &value[..]);
}

#[test]
fn archive_len_is_the_length_of_the_archive() {
    let map = sample();
    let blob = encode(&map).unwrap();
    assert_eq!(archive_len(&map), Some(blob.len() as u32));
    assert_eq!(blob.len(), 8 + 4 * 5 + 9 * 5 + (5 + 5 + 7 + 5 + 0) + (4 + 1 + 0 + 2 + 3));
    assert_eq!(archive_len(&EntryMap::new()), Some(8));
}

#[test]
fn round_trip_through_materializing_reproduces_the_entries() {
    let map = sample();
    let blob = encode(&map).unwrap();
    let back = ArchiveView::validated(&blob).unwrap().materialize();
    assert!(back == map);
    assert_eq!(triples_of_map(&back), triples_of_map(&map));
    assert_eq!(
        triples_of_map(&back).iter().map(|t| t.0.clone()).collect::<Vec<_>>(),
        vec![
            b"".to_vec(),
            b"alpha".to_vec(),
            b"bravo".to_vec(),
            b"charlie".to_vec(),
            b"delta".to_vec()
        ]
    );
}

#[test]
fn materialized_map_outlives_the_blob() {
    let map = sample();
    let back = {
        let blob = encode(&map).unwrap();
        ArchiveView::validated(&blob).unwrap().materialize()
    };
    assert!(back == map);
}

#[test]
fn materializing_and_traversal_agree() {
    let blob = encode(&sample()).unwrap();
    let view = ArchiveView::validated(&blob).unwrap();
    let materialized = view.materialize();
    assert_eq!(triples_of_view(&view), triples_of_map(&materialized));
}

#[test]
fn validated_and_unvalidated_views_agree_on_a_written_archive() {
    let blob = encode(&sample()).unwrap();
    let checked = ArchiveView::validated(&blob).unwrap();
    let trusted = ArchiveView::unvalidated(&blob);
    assert_eq!(checked.len(), trusted.len());
    assert_eq!(triples_of_view(&checked), triples_of_view(&trusted));
    assert!(trusted.materialize() == checked.materialize());
}

#[test]
fn traversal_borrows_from_the_blob() {
    let blob = encode(&map_of(&[(b"key", 1, &[1, 2, 3])])).unwrap();
    let view = ArchiveView::validated(&blob).unwrap();
    let entry = view.entry(0).unwrap();
    assert_eq!(entry.key.as_ptr(), blob[21..].as_ptr());
    assert_eq!(entry.value.as_ptr(), blob[24..].as_ptr());
    assert_eq!(entry.key, b"key");
    assert_eq!(entry.value, &[1u8, 2, 3]);
}

#[test]
fn first_entry_is_the_minimum_key() {
    let map = sample();
    let blob = encode(&map).unwrap();
    let view = ArchiveView::validated(&blob).unwrap();
    let first = view.first().unwrap();
    let (k, i, v) = map.first().unwrap();
    assert_eq!(first.key, k.as_bytes());
    assert_eq!(first.info, i);
    assert_eq!(first.value, v.as_bytes());
    assert_eq!(first.key, b"");
    assert_eq!(first.value, &[9u8, 9, 9]);
    for i in 1..view.len() {
        assert!(first.key < view.entry(i).unwrap().key);
    }
}

#[test]
fn first_of_an_empty_archive_is_none() {
    let blob = encode(&EntryMap::new()).unwrap();
    let view = ArchiveView::validated(&blob).unwrap();
    assert!(view.is_empty());
    assert_eq!(view.len(), 0);
    assert!(view.first().is_none());
    assert!(view.entry(0).is_none());
    assert!(view.materialize().is_empty());
}

#[test]
fn entry_past_the_end_is_none() {
    let blob = encode(&sample()).unwrap();
    let view = ArchiveView::validated(&blob).unwrap();
    assert!(view.entry(4).is_some());
    assert!(view.entry(5).is_none());
    assert!(view.entry(usize::MAX).is_none());
}

#[test]
fn entry_at_reads_the_indexed_entry() {
    let blob = encode(&sample()).unwrap();
    let view = ArchiveView::validated(&blob).unwrap();
    let third = view.entry_at(2);
    assert_eq!(third.key, b"bravo");
    assert_eq!(third.info, info(2));
    assert_eq!(third.value, &[2u8, 2]);
}

#[test]
fn archived_entry_can_be_copied_out() {
    let (key, info_out, value) = {
        let blob = encode(&sample()).unwrap();
        let view = ArchiveView::validated(&blob).unwrap();
        view.entry(4).unwrap().to_owned()
    };
    assert_eq!(key.as_bytes(), b"delta");
    assert_eq!(info_out, info(3));
    assert_eq!(value.as_bytes(), &[4u8, 4, 4, 4]);
}

#[test]
fn find_locates_every_key_and_no_other() {
    let map = sample();
    let blob = encode(&map).unwrap();
    let view = ArchiveView::validated(&blob).unwrap();
    for i in 0..map.len() {
        let (k, inf, v) = map.entry_at(i);
        let found = view.find(k.as_bytes()).unwrap();
        assert_eq!(found.key, k.as_bytes());
        assert_eq!(found.info, inf);
        assert_eq!(found.value, v.as_bytes());
    }
    assert!(view.find(b"alph").is_none());
    assert!(view.find(b"alphaa").is_none());
    assert!(view.find(b"zulu").is_none());
    assert!(view.find(&[0]).is_none());
    let empty = encode(&EntryMap::new()).unwrap();
    assert!(ArchiveView::validated(&empty).unwrap().find(b"").is_none());
}

#[test]
fn tiers_survive_the_archive() {
    let map = map_of(&[(b"a", 0, &[]), (b"b", 1, &[]), (b"c", 2, &[]), (b"d", 3, &[]), (b"e", 255, &[])]);
    let blob = encode(&map).unwrap();
    let view = ArchiveView::validated(&blob).unwrap();
    let tiers: Vec<StoragePreference> =
        (0..5).map(|i| *view.entry(i).unwrap().info.storage_preference()).collect();
    assert_eq!(
        tiers,
        vec![
            StoragePreference::Fastest,
            StoragePreference::Fast,
            StoragePreference::Slow,
            StoragePreference::Slowest,
            StoragePreference::NoPreference
        ]
    );
}

#[test]
fn every_truncation_is_corrupt() {
    let blob = encode(&sample()).unwrap();
    for n in 0..blob.len() {
        assert_eq!(ArchiveView::validated(&blob[..n]).unwrap_err(), Error::CorruptArchive);
    }
    let empty = encode(&EntryMap::new()).unwrap();
    for n in 0..empty.len() {
        assert_eq!(ArchiveView::validated(&empty[..n]).unwrap_err(), Error::CorruptArchive);
    }
}

#[test]
fn trailing_bytes_are_corrupt() {
    let mut blob = encode(&sample()).unwrap();
    blob.push(0);
    assert_eq!(ArchiveView::validated(&blob).unwrap_err(), Error::CorruptArchive);
    let mut empty = encode(&EntryMap::new()).unwrap();
    empty.push(0);
    assert_eq!(ArchiveView::validated(&empty).unwrap_err(), Error::CorruptArchive);
}

#[test]
fn every_changed_offset_is_corrupt() {
    let blob = encode(&sample()).unwrap();
    for slot in 0..5 {
        for byte in 0..4 {
            for delta in [1u8, 2, 128, 255] {
                let mut bad = blob.clone();
                bad[8 + 4 * slot + byte] = bad[8 + 4 * slot + byte].wrapping_add(delta);
                assert_eq!(ArchiveView::validated(&bad).unwrap_err(), Error::CorruptArchive);
            }
        }
    }
}

#[test]
fn wrong_magic_is_corrupt() {
    let blob = encode(&sample()).unwrap();
    for i in 0..4 {
        let mut bad = blob.clone();
        bad[i] ^= 1;
        assert_eq!(ArchiveView::validated(&bad).unwrap_err(), Error::CorruptArchive);
    }
}

#[test]
fn wrong_count_is_corrupt() {
    let blob = encode(&sample()).unwrap();
    for count in [0u8, 1, 4, 6, 200] {
        let mut bad = blob.clone();
        bad[4] = count;
        assert_eq!(ArchiveView::validated(&bad).unwrap_err(), Error::CorruptArchive);
    }
    let mut huge = blob.clone();
    huge[7] = 0xff;
    assert_eq!(ArchiveView::validated(&huge).unwrap_err(), Error::CorruptArchive);
}

#[test]
fn wrong_lengths_are_corrupt() {
    let blob = encode(&map_of(&[(b"ab", 1, &[1, 2, 3]), (b"cd", 1, &[4])])).unwrap();
    let first_record = 16;
    for field in [first_record, first_record + 5] {
        for delta in [1u8, 255] {
            let mut bad = blob.clone();
            bad[field] = bad[field].wrapping_add(delta);
            assert_eq!(ArchiveView::validated(&bad).unwrap_err(), Error::CorruptArchive);
        }
        let mut bad = blob.clone();
        bad[field + 3] = 0x7f;
        assert_eq!(ArchiveView::validated(&bad).unwrap_err(), Error::CorruptArchive);
    }
}

#[test]
fn unknown_tier_code_is_corrupt() {
    let blob = encode(&map_of(&[(b"a", 1, &[9, 8])])).unwrap();
    for code in [4u8, 5, 100, 254] {
        let mut bad = blob.clone();
        bad[16] = code;
        assert_eq!(ArchiveView::validated(&bad).unwrap_err(), Error::CorruptArchive);
    }
    for code in [0u8, 2, 3, 255] {
        let mut good = blob.clone();
        good[16] = code;
        let view = ArchiveView::validated(&good).unwrap();
        assert_eq!(view.entry(0).unwrap().info, info(code));
    }
}

#[test]
fn keys_out_of_order_are_corrupt() {
    let blob = encode(&map_of(&[(b"a", 1, &[1]), (b"b", 1, &[2])])).unwrap();
    let mut swapped = blob.clone();
    swapped[25] = b'b';
    swapped[36] = b'a';
    assert_eq!(blob[25], b'a');
    assert_eq!(blob[36], b'b');
    assert_eq!(ArchiveView::validated(&swapped).unwrap_err(), Error::CorruptArchive);
    let mut duplicate = blob.clone();
    duplicate[36] = b'a';
    assert_eq!(ArchiveView::validated(&duplicate).unwrap_err(), Error::CorruptArchive);
}

#[test]
fn changed_payload_byte_still_validates_and_reads_back_changed() {
    let blob = encode(&map_of(&[(b"a", 1, &[1, 2, 3])])).unwrap();
    let mut altered = blob.clone();
    let last = altered.len() - 1;
    altered[last] = 77;
    let view = ArchiveView::validated(&altered).unwrap();
    assert_eq!(view.entry(0).unwrap().value, &[1u8, 2, 77]);
}

#[test]
fn arbitrary_bytes_are_corrupt() {
    assert_eq!(ArchiveView::validated(&[]).unwrap_err(), Error::CorruptArchive);
    assert_eq!(ArchiveView::validated(&[0u8; 8]).unwrap_err(), Error::CorruptArchive);
    assert_eq!(ArchiveView::validated(&[255u8; 64]).unwrap_err(), Error::CorruptArchive);
    assert_eq!(
        ArchiveView::validated(&[67u8, 87, 65, 49, 1, 0, 0, 0]).unwrap_err(),
        Error::CorruptArchive
    );
}

#[test]
fn too_large_a_map_is_refused() {
    let shared = CowBytes::from(vec![0u8; 600 * 1024 * 1024]);
    let mut map = EntryMap::new();
    for i in 0u8..8 {
        map.insert(CowBytes::from(vec![i]), (info(1), SlicedCowBytes::from(shared.clone())));
    }
    assert_eq!(archive_len(&map), None);
    assert_eq!(encode(&map).unwrap_err(), Error::ArchiveTooLarge);
}

#[test]
fn max_entries_is_the_largest_count_whose_table_fits() {
    assert_eq!(MAX_ENTRIES as u64, (u32::MAX as u64 - 8) / 4);
}

#[test]
fn five_numbered_keys_come_back_in_order_on_both_paths() {
    let mut map = EntryMap::new();
    for n in [3u8, 1, 5, 2, 4] {
        let key = CowBytes::from(n.to_string().as_bytes());
        let value = SlicedCowBytes::from(CowBytes::from(vec![n; n as usize * 10]));
        map.insert(key, (info(1), value));
    }
    let blob = encode(&map).unwrap();
    let view = ArchiveView::validated(&blob).unwrap();
    let materialized = view.materialize();
    assert_eq!(view.len(), 5);
    assert_eq!(materialized.len(), 5);
    for (i, n) in (1u8..=5).enumerate() {
        let expected_key = n.to_string();
        let expected_value = vec![n; n as usize * 10];
        let walked = view.entry(i).unwrap();
        assert_eq!(walked.key, expected_key.as_bytes());
        assert_eq!(*walked.info.storage_preference(), StoragePreference::Fast);
        assert_eq!(walked.value, &expected_value[..]);
        let (k, inf, v) = materialized.entry_at(i);
        assert_eq!(k.as_bytes(), expected_key.as_bytes());
        assert_eq!(*inf.storage_preference(), StoragePreference::Fast);
        assert_eq!(v.as_bytes(), &expected_value[..]);
    }
}
