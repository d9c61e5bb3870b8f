use roaring::RoaringBitmap;

fn bitmap_of(values: &[u32]) -> RoaringBitmap {
    let mut b = RoaringBitmap::new();
    b.insert_many(&values.to_vec());
    b
}

fn samples() -> Vec<RoaringBitmap> {
    vec![
        RoaringBitmap::new(),
        bitmap_of(&[1, 2, 3]),
        bitmap_of(&[0, 65_535, 65_536, u32::MAX]),
        RoaringBitmap::from_values(&(0..10_000).map(|i| 2 * i).collect()),
        RoaringBitmap::from_values(&(1_000..70_000).collect()),
        RoaringBitmap::from_values(&(0..40).map(|i| i * 70_000).collect()),
    ]
}

#[test]
fn union_cardinality_is_inclusion_exclusion() {
    for a in samples() {
        for b in samples() {
            let u = a.union(&b).len();
            let i = a.intersection(&b).len();
            assert_eq!(u, a.len() + b.len() - i);
        }
    }
}

#[test]
fn serialization_round_trips() {
    for a in samples() {
        let bytes = a.serialize();
        assert_eq!(a.byte_size(), bytes.len());
        let back = RoaringBitmap::deserialize(&bytes).unwrap();
        assert!(back.equals(&a));
        assert_eq!(back.serialize(), bytes);
    }
}

#[test]
fn full_bitmap_round_trips() {
    let f = RoaringBitmap::full();
    let bytes = f.serialize();
    assert_eq!(f.byte_size(), bytes.len());
    let back = RoaringBitmap::deserialize(&bytes).unwrap();
    assert!(back.is_full());
}

#[test]
fn inserted_is_contained_and_removed_is_not() {
    for v in [0u32, 1, 65_535, 65_536, 4_000_000_000, u32::MAX] {
        for mut a in samples() {
            a.insert(v);
            assert!(a.contains(v));
            a.remove(v);
            assert!(!a.contains(v));
        }
    }
}

#[test]
fn rank_of_max_is_cardinality_and_select_zero_is_min() {
    for a in samples() {
        assert_eq!(a.select(0), a.min());
        if let Some(m) = a.max() {
            assert_eq!(a.rank(m), a.len());
        }
    }
}

#[test]
fn operations_with_self() {
    for a in samples() {
        assert!(a.union(&a).equals(&a));
        assert!(a.intersection(&a).equals(&a));
        assert!(a.difference(&a).is_empty());
        assert!(a.symmetric_difference(&a).is_empty());
    }
}
