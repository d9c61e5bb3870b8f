use roaring::{Encoding, RoaringBitmap};

fn bitmap_of(values: &[u32]) -> RoaringBitmap {
    let mut b = RoaringBitmap::new();
    b.insert_many(&values.to_vec());
    b
}

#[test]
fn set_algebra_of_two_small_sets() {
    let a = bitmap_of(&[1, 2, 3]);
    let b = bitmap_of(&[3, 4, 5]);
    assert_eq!(a.union(&b).to_vec(), vec![1, 2, 3, 4, 5]);
    assert_eq!(a.intersection(&b).to_vec(), vec![3]);
    assert_eq!(a.difference(&b).to_vec(), vec![1, 2]);
    assert_eq!(a.symmetric_difference(&b).to_vec(), vec![1, 2, 4, 5]);
    assert_eq!(a.union_len(&b), 5);
    assert_eq!(a.intersection_len(&b), 1);
    assert_eq!(a.difference_len(&b), 2);
    assert_eq!(a.symmetric_difference_len(&b), 4);
    let all = bitmap_of(&[1, 2, 3, 4, 5]);
    assert_eq!(all.rank(3), 3);
}

#[test]
fn empty_bitmap_queries() {
    let e = RoaringBitmap::new();
    assert_eq!(e.len(), 0);
    assert!(e.is_empty());
    assert!(!e.is_full());
    assert_eq!(e.min(), None);
    assert_eq!(e.max(), None);
    assert_eq!(e.select(0), None);
    assert_eq!(e.rank(0), 0);
    assert_eq!(e.rank(u32::MAX), 0);
    assert_eq!(e.to_vec(), Vec::<u32>::new());
}

#[test]
fn sequential_hundred_thousand_is_dense_or_runs() {
    let values: Vec<u32> = (0..100_000).collect();
    let b = RoaringBitmap::from_values(&values);
    assert_eq!(b.len(), 100_000);
    let kinds = b.encodings();
    assert_eq!(kinds.len(), 2);
    for k in &kinds {
        assert_ne!(*k, Encoding::Array);
    }
    assert_eq!(kinds, vec![Encoding::Run, Encoding::Run]);
    let bytes = b.serialize();
    // Cookie, one flag byte, two key/count pairs, no offsets below four
    // containers, then per container its run count and one run.
    assert_eq!(b.byte_size(), 4 + 1 + 2 * 4 + 2 * (2 + 4));
    assert_eq!(bytes.len(), b.byte_size());
    let back = RoaringBitmap::deserialize(&bytes).unwrap();
    assert!(back.equals(&b));
    assert_eq!(back.to_vec(), values);
}

#[test]
fn sequential_hundred_thousand_inserted_one_by_one_is_dense() {
    let mut b = RoaringBitmap::new();
    for v in 0..100_000u32 {
        assert!(b.insert(v));
    }
    assert_eq!(b.encodings(), vec![Encoding::Bitmap, Encoding::Bitmap]);
    // The serialized form writes each container in its chosen encoding, so
    // it is the same as for the bitmap built in one go.
    let values: Vec<u32> = (0..100_000).collect();
    let built = RoaringBitmap::from_values(&values);
    assert_eq!(b.byte_size(), 4 + 1 + 2 * 4 + 2 * (2 + 4));
    assert_eq!(b.serialize(), built.serialize());
    let back = RoaringBitmap::deserialize(&b.serialize()).unwrap();
    assert!(back.equals(&b));
    assert_eq!(back.len(), 100_000);
}
