use cow_archive::byte_order::bytes_equal;
use cow_archive::byte_order::compare_bytes;
use cow_archive::byte_order::ByteOrder;
use cow_archive::cow_bytes::CowBytes;
use cow_archive::cow_bytes::SlicedCowBytes;
use cow_archive::error::Error;

#[test]
fn from_vec_keeps_the_bytes() {
    let c = CowBytes::from(vec![1u8, 2, 3]);
    assert_eq!(c.as_bytes(), &[1u8, 2, 3]);
    assert_eq!(c.len(), 3);
    assert!(!c.is_empty());
}

#[test]
fn from_slice_keeps_the_bytes() {
    let source = [7u8, 0, 255, 9];
    let c = CowBytes::from(&source[..]);
    assert_eq!(c.as_bytes(), &source[..]);
    let d = CowBytes::from_slice(&source[1..3]);
    assert_eq!(d.as_bytes(), &[0u8, 255]);
}

#[test]
fn from_empty_input_is_empty() {
    let c = CowBytes::from(Vec::new());
    assert!(c.is_empty());
    assert_eq!(c.len(), 0);
    assert_eq!(c.as_bytes(), &[] as &[u8]);
    assert_eq!(CowBytes::new().as_bytes(), &[] as &[u8]);
    assert_eq!(CowBytes::new(), c);
}

#[test]
fn from_vec_and_from_vec_method_agree() {
    let a = CowBytes::from(vec![4u8, 5]);
    let b = CowBytes::from_vec(vec![4u8, 5]);
    assert_eq!(a, b);
}

#[test]
fn clone_observes_the_same_bytes() {
    let a = CowBytes::from(vec![10u8, 20, 30]);
    let b = a.clone();
    let c = b.clone();
    assert_eq!(a.as_bytes(), &[10u8, 20, 30]);
    assert_eq!(b.as_bytes(), &[10u8, 20, 30]);
    assert_eq!(c.as_bytes(), &[10u8, 20, 30]);
    drop(a);
    assert_eq!(b.as_bytes(), &[10u8, 20, 30]);
    drop(b);
    assert_eq!(c.as_bytes(), &[10u8, 20, 30]);
}

#[test]
fn clone_shares_the_allocation() {
    let a = CowBytes::from(vec![1u8; 64]);
    let b = a.clone();
    assert_eq!(a.as_bytes().as_ptr(), b.as_bytes().as_ptr());
}

#[test]
fn to_vec_is_an_independent_copy() {
    let a = CowBytes::from(vec![1u8, 2, 3]);
    let mut v = a.to_vec();
    v[0] = 99;
    assert_eq!(a.as_bytes(), &[1u8, 2, 3]);
    assert_eq!(v, vec![99u8, 2, 3]);
}

#[test]
fn equality_is_by_content() {
    let a = CowBytes::from(vec![1u8, 2, 3]);
    let b = CowBytes::from(vec![1u8, 2, 3]);
    let c = CowBytes::from(vec![1u8, 2, 4]);
    let d = CowBytes::from(vec![1u8, 2]);
    assert!(a == b);
    assert!(a != c);
    assert!(a != d);
    assert!(d != a);
}

#[test]
fn ordering_is_lexicographic() {
    let empty = CowBytes::new();
    let a = CowBytes::from(vec![1u8]);
    let ab = CowBytes::from(vec![1u8, 2]);
    let b = CowBytes::from(vec![2u8]);
    let high = CowBytes::from(vec![255u8]);
    assert!(empty < a);
    assert!(a < ab);
    assert!(ab < b);
    assert!(b < high);
    assert!(b > ab);
    assert!(a <= a.clone());
    assert!(a >= a.clone());
    assert!(!(a < a.clone()));
    assert_eq!(a.compare(&ab), ByteOrder::Less);
    assert_eq!(ab.compare(&a), ByteOrder::Greater);
    assert_eq!(ab.compare(&ab.clone()), ByteOrder::Equal);
    assert_eq!(a.partial_cmp(&b), Some(std::cmp::Ordering::Less));
    assert_eq!(b.partial_cmp(&a), Some(std::cmp::Ordering::Greater));
    assert_eq!(a.partial_cmp(&a.clone()), Some(std::cmp::Ordering::Equal));
}

#[test]
fn decimal_strings_order_as_bytes_not_as_numbers() {
    let ten = CowBytes::from(&b"10"[..]);
    let two = CowBytes::from(&b"2"[..]);
    assert!(ten < two);
}

#[test]
fn compare_bytes_agrees_with_std_on_samples() {
    let samples: Vec<Vec<u8>> = vec![
        vec![],
        vec![0],
        vec![0, 0],
        vec![0, 1],
        vec![1],
        vec![1, 0],
        vec![1, 255],
        vec![2],
        vec![255],
        vec![255, 255],
    ];
    for a in samples.iter() {
        for b in samples.iter() {
            let expected = match a.cmp(b) {
                std::cmp::Ordering::Less => ByteOrder::Less,
                std::cmp::Ordering::Equal => ByteOrder::Equal,
                std::cmp::Ordering::Greater => ByteOrder::Greater,
            };
            assert_eq!(compare_bytes(a, b), expected);
            assert_eq!(bytes_equal(a, b), a == b);
        }
    }
}

#[test]
fn slice_returns_the_requested_range() {
    let c = CowBytes::from(vec![0u8, 1, 2, 3, 4, 5, 6, 7]);
    let s = c.clone().slice(2, 3).unwrap();
    assert_eq!(s.as_bytes(), &[2u8, 3, 4]);
    assert_eq!(s.as_bytes(), &c.as_bytes()[2..5]);
    assert_eq!(s.len(), 3);
    assert!(!s.is_empty());
}

#[test]
fn slice_of_every_valid_range_matches_the_buffer() {
    let bytes: Vec<u8> = (0u8..12).collect();
    let c = CowBytes::from(bytes.clone());
    for offset in 0..=bytes.len() {
        for len in 0..=(bytes.len() - offset) {
            let s = c.clone().slice(offset, len).unwrap();
            assert_eq!(s.as_bytes(), &bytes[offset..offset + len]);
        }
    }
}

#[test]
fn slice_past_the_end_is_out_of_range() {
    let c = CowBytes::from(vec![0u8, 1, 2, 3]);
    assert_eq!(c.clone().slice(0, 5).unwrap_err(), Error::OutOfRange);
    assert_eq!(c.clone().slice(4, 1).unwrap_err(), Error::OutOfRange);
    assert_eq!(c.clone().slice(5, 0).unwrap_err(), Error::OutOfRange);
    assert_eq!(c.clone().slice(2, 3).unwrap_err(), Error::OutOfRange);
    assert_eq!(c.clone().slice(usize::MAX, 2).unwrap_err(), Error::OutOfRange);
    assert_eq!(c.clone().slice(2, usize::MAX).unwrap_err(), Error::OutOfRange);
}

#[test]
fn slice_at_the_edges_is_accepted() {
    let c = CowBytes::from(vec![0u8, 1, 2, 3]);
    assert_eq!(c.clone().slice(0, 4).unwrap().as_bytes(), &[0u8, 1, 2, 3]);
    assert_eq!(c.clone().slice(4, 0).unwrap().as_bytes(), &[] as &[u8]);
    assert!(c.clone().slice(4, 0).unwrap().is_empty());
    assert_eq!(c.clone().slice(0, 0).unwrap().len(), 0);
}

#[test]
fn slice_does_not_copy() {
    let c = CowBytes::from(vec![5u8; 32]);
    let s = c.clone().slice(8, 8).unwrap();
    assert_eq!(s.as_bytes().as_ptr(), c.as_bytes()[8..].as_ptr());
}

#[test]
fn sliced_from_cow_bytes_views_everything() {
    let c = CowBytes::from(vec![3u8, 1, 4, 1, 5]);
    let s = SlicedCowBytes::from(c.clone());
    assert_eq!(s.as_bytes(), c.as_bytes());
    assert_eq!(s.len(), 5);
}

#[test]
fn subslice_narrows_the_view() {
    let c = CowBytes::from((0u8..20).collect::<Vec<u8>>());
    let s = c.slice(5, 10).unwrap();
    let t = s.subslice(2, 4).unwrap();
    assert_eq!(t.as_bytes(), &[7u8, 8, 9, 10]);
    assert_eq!(s.subslice(0, 10).unwrap().as_bytes(), s.as_bytes());
    assert_eq!(s.subslice(10, 0).unwrap().len(), 0);
    assert_eq!(s.subslice(7, 4).unwrap_err(), Error::OutOfRange);
    assert_eq!(s.subslice(11, 0).unwrap_err(), Error::OutOfRange);
    assert_eq!(s.subslice(1, usize::MAX).unwrap_err(), Error::OutOfRange);
}

#[test]
fn independent_slices_do_not_interfere() {
    let c = CowBytes::from((0u8..10).collect::<Vec<u8>>());
    let left = c.clone().slice(0, 6).unwrap();
    let right = c.clone().slice(4, 6).unwrap();
    let left_again = left.clone();
    drop(c);
    assert_eq!(left.as_bytes(), &[0u8, 1, 2, 3, 4, 5]);
    assert_eq!(right.as_bytes(), &[4u8, 5, 6, 7, 8, 9]);
    drop(left);
    assert_eq!(left_again.as_bytes(), &[0u8, 1, 2, 3, 4, 5]);
    assert_eq!(right.as_bytes(), &[4u8, 5, 6, 7, 8, 9]);
}

#[test]
fn sliced_conversions_copy_the_view_only() {
    let c = CowBytes::from((0u8..10).collect::<Vec<u8>>());
    let s = c.clone().slice(3, 4).unwrap();
    let owned = s.to_cow_bytes();
    assert_eq!(owned.as_bytes(), &[3u8, 4, 5, 6]);
    assert_eq!(owned.len(), 4);
    assert_ne!(owned.as_bytes().as_ptr(), s.as_bytes().as_ptr());
    assert_eq!(s.to_vec(), vec![3u8, 4, 5, 6]);
}

#[test]
fn sliced_equality_and_order_are_by_viewed_bytes() {
    let a = CowBytes::from(vec![1u8, 2, 3, 1, 2, 3]);
    let first = a.clone().slice(0, 3).unwrap();
    let second = a.clone().slice(3, 3).unwrap();
    let shorter = a.clone().slice(0, 2).unwrap();
    assert!(first == second);
    assert!(first != shorter);
    assert_eq!(first.compare(&second), ByteOrder::Equal);
    assert_eq!(shorter.compare(&first), ByteOrder::Less);
    assert_eq!(first.compare(&shorter), ByteOrder::Greater);
}

#[test]
fn error_descriptions_differ() {
    let texts = [
        Error::OutOfRange.describe(),
        Error::CorruptArchive.describe(),
        Error::ArchiveTooLarge.describe(),
    ];
    assert_eq!(texts[0], "range lies outside the buffer");
    assert_eq!(texts[1], "archive is malformed");
    assert_eq!(texts[2], "entries do not fit a 32-bit archive");
}

#[test]
fn cow_bytes_can_key_an_ordered_map() {
    let mut map = std::collections::BTreeMap::new();
    for text in ["pear", "apple", "fig", "", "app", "b"] {
        map.insert(CowBytes::from(text.as_bytes()), text.len());
    }
    let keys: Vec<Vec<u8>> = map.keys().map(|k| k.to_vec()).collect();
    let expected: Vec<Vec<u8>> =
        ["", "app", "apple", "b", "fig", "pear"].iter().map(|t| t.as_bytes().to_vec()).collect();
    assert_eq!(keys, expected);
    assert_eq!(map.get(&CowBytes::from(&b"fig"[..])), Some(&3));
    assert_eq!(CowBytes::from(vec![1u8]).cmp(&CowBytes::from(vec![1u8, 0])), std::cmp::Ordering::Less);
}
