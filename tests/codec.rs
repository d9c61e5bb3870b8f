use roaring::{FormatError, RoaringBitmap};

fn bitmap_of(values: &[u32]) -> RoaringBitmap {
    let mut b = RoaringBitmap::new();
    b.insert_many(&values.to_vec());
    b
}

#[test]
fn array_container_bytes() {
    let b = bitmap_of(&[1, 2, 3]);
    let expected: Vec<u8> = vec![
        0x3A, 0x30, 0, 0, // cookie 12346
        1, 0, 0, 0, // one container
        0, 0, 2, 0, // key 0, three members
        16, 0, 0, 0, // payload at byte 16
        1, 0, 2, 0, 3, 0,
    ];
    assert_eq!(b.serialize(), expected);
    assert_eq!(b.byte_size(), 22);
}

#[test]
fn byte_size_of_five_values_in_an_array() {
    let b = bitmap_of(&[1, 2, 3, 4, 5]);
    assert_eq!(b.byte_size(), 26);
    let expected: Vec<u8> = vec![
        0x3A, 0x30, 0, 0, 1, 0, 0, 0, 0, 0, 4, 0, 0x10, 0, 0, 0, 1, 0, 2, 0, 3, 0, 4, 0, 5, 0,
    ];
    assert_eq!(b.serialize(), expected);
}

#[test]
fn run_container_bytes() {
    let b = RoaringBitmap::from_values(&(1..21).collect());
    let expected: Vec<u8> = vec![
        0x3B, 0x30, 0, 0, // cookie 12347, one container
        1, // container 0 is a run list
        0, 0, 19, 0, // key 0, twenty members
        1, 0, // one run
        1, 0, 19, 0, // from 1, length 20
    ];
    assert_eq!(b.serialize(), expected);
    assert_eq!(b.byte_size(), 15);
    let back: Vec<u32> = (1..21).collect();
    assert_eq!(RoaringBitmap::deserialize(&expected).unwrap().to_vec(), back);
}

#[test]
fn non_canonical_layouts_decode() {
    // Five consecutive values written as a run list: a valid layout, though
    // not the one this library writes for them.
    let bytes: Vec<u8> = vec![0x3B, 0x30, 0, 0, 1, 0, 0, 4, 0, 1, 0, 1, 0, 4, 0];
    let b = RoaringBitmap::deserialize(&bytes).unwrap();
    assert_eq!(b.to_vec(), vec![1, 2, 3, 4, 5]);
    assert_eq!(b.byte_size(), 26);
}

#[test]
fn empty_bitmap_bytes() {
    let e = RoaringBitmap::new();
    assert_eq!(e.serialize(), vec![0x3A, 0x30, 0, 0, 0, 0, 0, 0]);
    assert!(RoaringBitmap::deserialize(&e.serialize()).unwrap().is_empty());
}

#[test]
fn dense_container_size() {
    let b = RoaringBitmap::from_values(&(0..10_000).map(|i| 2 * i).collect());
    assert_eq!(b.byte_size(), 8 + 8 + 8192);
    assert_eq!(b.serialize().len(), 8 + 8 + 8192);
}

#[test]
fn offsets_from_four_run_containers() {
    let values: Vec<u32> = (0..4u32).flat_map(|k| (k * 65_536..k * 65_536 + 10)).collect();
    let b = RoaringBitmap::from_values(&values);
    // Cookie, one flag byte, four key/count pairs, four offsets, four payloads.
    assert_eq!(b.byte_size(), 4 + 1 + 16 + 16 + 4 * 6);
    let back = RoaringBitmap::deserialize(&b.serialize()).unwrap();
    assert_eq!(back.to_vec(), values);
}

#[test]
fn truncated_input_is_refused() {
    assert_eq!(RoaringBitmap::deserialize(&vec![]).err(), Some(FormatError::Truncated));
    let mut bytes = bitmap_of(&[1, 2, 3]).serialize();
    bytes.pop();
    assert_eq!(RoaringBitmap::deserialize(&bytes).err(), Some(FormatError::BadContainer));
    assert_eq!(
        RoaringBitmap::deserialize(&vec![0x3A, 0x30, 0, 0, 1, 0, 0, 0]).err(),
        Some(FormatError::Truncated)
    );
}

#[test]
fn unknown_cookie_is_refused() {
    assert_eq!(RoaringBitmap::deserialize(&vec![1, 2, 3, 4]).err(), Some(FormatError::BadCookie));
}

#[test]
fn too_many_containers_are_refused() {
    let bytes = vec![0x3A, 0x30, 0, 0, 0x71, 0x11, 0x01, 0];
    assert_eq!(RoaringBitmap::deserialize(&bytes).err(), Some(FormatError::BadHeader));
}

#[test]
fn unordered_array_is_refused() {
    let bytes: Vec<u8> = vec![0x3A, 0x30, 0, 0, 1, 0, 0, 0, 0, 0, 1, 0, 16, 0, 0, 0, 2, 0, 1, 0];
    assert_eq!(RoaringBitmap::deserialize(&bytes).err(), Some(FormatError::BadContainer));
}

#[test]
fn trailing_bytes_are_refused() {
    let mut bytes = bitmap_of(&[1, 2, 3]).serialize();
    bytes.push(0);
    assert_eq!(RoaringBitmap::deserialize(&bytes).err(), Some(FormatError::Inconsistent));
}

#[test]
fn wrong_offset_is_refused() {
    let mut bytes = bitmap_of(&[1, 2, 3]).serialize();
    bytes[12] = 17;
    assert_eq!(RoaringBitmap::deserialize(&bytes).err(), Some(FormatError::Inconsistent));
}
