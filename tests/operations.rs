use roaring::{Encoding, RoaringBitmap};

fn bitmap_of(values: &[u32]) -> RoaringBitmap {
    let mut b = RoaringBitmap::new();
    b.insert_many(&values.to_vec());
    b
}

#[test]
fn insert_reports_new_members() {
    let mut b = RoaringBitmap::new();
    assert!(b.insert(1));
    assert!(!b.insert(1));
    assert!(b.contains(1));
    assert!(!b.contains(2));
    assert_eq!(b.len(), 1);
}

#[test]
fn remove_reports_old_members() {
    let mut b = RoaringBitmap::new();
    assert!(!b.remove(1));
    b.insert(1);
    assert!(b.remove(1));
    assert!(!b.contains(1));
    assert!(b.is_empty());
    assert_eq!(b.encodings(), Vec::<Encoding>::new());
}

#[test]
fn insert_many_counts_new_values() {
    let mut b = RoaringBitmap::new();
    assert_eq!(b.insert_many(&vec![1, 2, 3]), 3);
    assert_eq!(b.insert_many(&vec![3, 4, 4, 5]), 2);
    assert_eq!(b.to_vec(), vec![1, 2, 3, 4, 5]);
}

#[test]
fn extremes_of_the_domain() {
    let mut b = RoaringBitmap::new();
    b.insert(u32::MAX);
    b.insert(0);
    b.insert(65535);
    b.insert(65536);
    assert_eq!(b.to_vec(), vec![0, 65535, 65536, u32::MAX]);
    assert_eq!(b.min(), Some(0));
    assert_eq!(b.max(), Some(u32::MAX));
    assert_eq!(b.rank(65535), 2);
    assert_eq!(b.rank(u32::MAX), 4);
    assert_eq!(b.select(2), Some(65536));
    assert_eq!(b.select(4), None);
    assert_eq!(b.encodings().len(), 3);
}

#[test]
fn rank_and_select_are_inverse() {
    let values = vec![3, 9, 70_000, 70_001, 1_000_000, 4_000_000_000];
    let b = bitmap_of(&values);
    for (i, v) in values.iter().enumerate() {
        assert_eq!(b.select(i as u32), Some(*v));
        assert_eq!(b.rank(*v), i as u64 + 1);
    }
    assert_eq!(b.rank(2), 0);
    assert_eq!(b.rank(10), 2);
    assert_eq!(b.rank(69_999), 2);
}

#[test]
fn clear_empties() {
    let mut b = bitmap_of(&[1, 2, 3]);
    b.clear();
    assert!(b.is_empty());
    assert_eq!(b.to_vec(), Vec::<u32>::new());
}

#[test]
fn full_bitmap() {
    let f = RoaringBitmap::full();
    assert!(f.is_full());
    assert_eq!(f.len(), 1u64 << 32);
    assert!(f.contains(0));
    assert!(f.contains(123_456_789));
    assert!(f.contains(u32::MAX));
    assert_eq!(f.min(), Some(0));
    assert_eq!(f.max(), Some(u32::MAX));
    assert_eq!(f.rank(u32::MAX), 1u64 << 32);
    assert_eq!(f.select(70_000), Some(70_000));
    let mut g = RoaringBitmap::full();
    assert!(g.remove(7));
    assert!(!g.is_full());
    assert_eq!(g.len(), (1u64 << 32) - 1);
    assert!(!g.contains(7));
}

#[test]
fn array_becomes_dense_past_four_thousand_and_ninety_six() {
    let mut b = RoaringBitmap::new();
    for i in 0..4096u32 {
        b.insert(2 * i);
    }
    assert_eq!(b.encodings(), vec![Encoding::Array]);
    b.insert(8192);
    assert_eq!(b.encodings(), vec![Encoding::Bitmap]);
    assert_eq!(b.len(), 4097);
    b.remove(0);
    assert_eq!(b.encodings(), vec![Encoding::Array]);
    assert_eq!(b.len(), 4096);
    assert!(!b.contains(0));
    assert!(b.contains(8192));
}

#[test]
fn selector_picks_the_cheapest_encoding() {
    let sparse: Vec<u32> = (0..100).map(|i| 3 * i).collect();
    assert_eq!(RoaringBitmap::from_values(&sparse).encodings(), vec![Encoding::Array]);
    let dense: Vec<u32> = (0..5000).map(|i| 2 * i).collect();
    assert_eq!(RoaringBitmap::from_values(&dense).encodings(), vec![Encoding::Bitmap]);
    let runs: Vec<u32> = (10..3000).collect();
    assert_eq!(RoaringBitmap::from_values(&runs).encodings(), vec![Encoding::Run]);
    // Three values in one run cost 8 bytes as a run, 6 as an array.
    assert_eq!(RoaringBitmap::from_values(&vec![1, 2, 3]).encodings(), vec![Encoding::Array]);
    // Five values in one run cost 8 bytes as a run, 10 as an array: not
    // half, so they stay an array.
    assert_eq!(RoaringBitmap::from_values(&vec![1, 2, 3, 4, 5]).encodings(), vec![Encoding::Array]);
    // Eight values in one run cost 8 bytes as a run, 16 as an array.
    assert_eq!(RoaringBitmap::from_values(&(1..9).collect()).encodings(), vec![Encoding::Run]);
    assert_eq!(RoaringBitmap::from_values(&(1..8).collect()).encodings(), vec![Encoding::Array]);
}

#[test]
fn run_containers_take_inserts_and_removals() {
    let mut b = RoaringBitmap::from_values(&(100..200).collect());
    assert_eq!(b.encodings(), vec![Encoding::Run]);
    assert!(b.insert(200));
    assert!(b.insert(50));
    assert!(!b.insert(150));
    assert!(b.remove(150));
    assert!(!b.remove(150));
    assert_eq!(b.len(), 101);
    assert!(b.contains(50));
    assert!(b.contains(200));
    assert!(!b.contains(150));
    assert_eq!(b.min(), Some(50));
    assert_eq!(b.max(), Some(200));
}

#[test]
fn set_relations() {
    let small = bitmap_of(&[1, 2, 3]);
    let big = bitmap_of(&[1, 2, 3, 4, 5]);
    let other = bitmap_of(&[4, 5, 6]);
    assert!(small.is_subset(&big));
    assert!(!big.is_subset(&small));
    assert!(big.is_superset(&small));
    assert!(!small.is_superset(&big));
    assert!(small.is_disjoint(&other));
    assert!(!big.is_disjoint(&other));
    assert!(small.equals(&bitmap_of(&[3, 2, 1])));
    assert!(!small.equals(&big));
}

#[test]
fn in_place_algebra() {
    let b = bitmap_of(&[3, 4, 5, 100_000]);
    let mut u = bitmap_of(&[1, 2, 3]);
    u.union_with(&b);
    assert_eq!(u.to_vec(), vec![1, 2, 3, 4, 5, 100_000]);
    let mut i = bitmap_of(&[1, 2, 3, 100_000]);
    i.intersect_with(&b);
    assert_eq!(i.to_vec(), vec![3, 100_000]);
    let mut d = bitmap_of(&[1, 2, 3, 100_000]);
    d.difference_with(&b);
    assert_eq!(d.to_vec(), vec![1, 2]);
    let mut x = bitmap_of(&[1, 2, 3, 100_000]);
    x.symmetric_difference_with(&b);
    assert_eq!(x.to_vec(), vec![1, 2, 4, 5]);
}

#[test]
fn algebra_across_encodings() {
    let dense: Vec<u32> = (0..10_000).map(|i| 2 * i).collect();
    let runs: Vec<u32> = (5_000..15_000).collect();
    let a = RoaringBitmap::from_values(&dense);
    let b = RoaringBitmap::from_values(&runs);
    assert_eq!(a.encodings(), vec![Encoding::Bitmap]);
    assert_eq!(b.encodings(), vec![Encoding::Run]);
    let inter = a.intersection(&b);
    assert_eq!(inter.len(), 5_000);
    assert_eq!(a.intersection_len(&b), 5_000);
    assert_eq!(a.union_len(&b), 10_000 + 10_000 - 5_000);
    assert_eq!(a.union(&b).len(), 15_000);
    assert_eq!(a.difference_len(&b), 5_000);
    assert_eq!(b.difference(&a).len(), 5_000);
    assert_eq!(a.symmetric_difference_len(&b), 10_000);
    assert_eq!(inter.min(), Some(5_000));
    assert_eq!(inter.max(), Some(14_998));
}

#[test]
fn run_lists_change_in_place() {
    let start: Vec<u32> = (10..13).chain(20..60).collect();
    let mut b = RoaringBitmap::from_values(&start);
    assert_eq!(b.encodings(), vec![Encoding::Run]);
    assert!(b.insert(13));
    assert!(b.insert(19));
    assert!(b.insert(70));
    for v in 14..18u32 {
        assert!(b.insert(v));
    }
    assert!(b.insert(18));
    let mut expected: Vec<u32> = (10..60).collect();
    expected.push(70);
    assert_eq!(b.to_vec(), expected);
    assert_eq!(b.encodings(), vec![Encoding::Run]);
    assert!(b.remove(70));
    assert!(b.remove(10));
    assert!(b.remove(59));
    assert!(b.remove(17));
    let mut expected: Vec<u32> = (11..17).collect();
    expected.extend(18..59);
    assert_eq!(b.to_vec(), expected);
    assert_eq!(b.encodings(), vec![Encoding::Run]);
    assert_eq!(b.len(), 47);
}

#[test]
fn run_lists_intersect_into_a_run_list() {
    let a = RoaringBitmap::from_values(&(0..1000).chain(2000..3000).collect());
    let b = RoaringBitmap::from_values(&(500..2500).collect());
    assert_eq!(a.encodings(), vec![Encoding::Run]);
    assert_eq!(b.encodings(), vec![Encoding::Run]);
    let i = a.intersection(&b);
    assert_eq!(i.encodings(), vec![Encoding::Run]);
    let expected: Vec<u32> = (500..1000).chain(2000..2500).collect();
    assert_eq!(i.to_vec(), expected);
    assert_eq!(a.intersection_len(&b), 1000);
    assert!(a.is_disjoint(&RoaringBitmap::from_values(&(1000..2000).collect())));
}

#[test]
fn run_lists_unite_into_a_run_list() {
    let a = RoaringBitmap::from_values(&(0..1000).chain(2000..3000).collect());
    let b = RoaringBitmap::from_values(&(1000..1500).chain(2500..3500).collect());
    let u = a.union(&b);
    assert_eq!(u.encodings(), vec![Encoding::Run]);
    let expected: Vec<u32> = (0..1500).chain(2000..3500).collect();
    assert_eq!(u.to_vec(), expected);
    assert_eq!(a.union_len(&b), 3000);
}

#[test]
fn same_members_serialize_alike() {
    let values: Vec<u32> = (0..5000).chain(70_000..70_010).collect();
    let built = RoaringBitmap::from_values(&values);
    let mut inserted = RoaringBitmap::new();
    for v in values.iter().rev() {
        inserted.insert(*v);
    }
    assert_ne!(built.encodings(), inserted.encodings());
    assert_eq!(built.serialize(), inserted.serialize());
    assert_eq!(built.byte_size(), inserted.byte_size());
}
