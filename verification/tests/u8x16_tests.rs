use simdcsv::u8x16::u8x16;

#[test]
fn test_load_slice() {
    let slice = &[1; 16];
    let lanes: [u8; 16] = u8x16::from_slice_unchecked(slice).to_array();

    assert_eq!(lanes, [1; 16])
}

#[test]
fn test_broadcast() {
    let ones: [u8; 16] = u8x16::from_slice_unchecked(&[10; 16]).to_array();
    assert_eq!(ones, [10; 16]);
}

#[test]
fn test_nibbles() {
    let slice =
        u8x16::from_slice_unchecked(&[0x2c, 0xD, 0xA, 0, 0, 0, 0, 0, 0, 0, 0, 0, 0, 0, 0, 0]);

    let (hi, lo) = slice.nibbles();

    let hi: [u8; 16] = hi.to_array();
    let lo: [u8; 16] = lo.to_array();

    assert_eq!(hi, [2, 0, 0, 0, 0, 0, 0, 0, 0, 0, 0, 0, 0, 0, 0, 0]);
    assert_eq!(lo, [0xC, 0xD, 0xA, 0, 0, 0, 0, 0, 0, 0, 0, 0, 0, 0, 0, 0]);
}

#[test]
fn test_broadcast_fills_lanes() {
    let lanes: [u8; 16] = u8x16::broadcast(7).to_array();
    assert_eq!(lanes, [7; 16]);
}

#[test]
fn test_eq_and_bitset() {
    let v = u8x16::from_slice_unchecked(&[3, 0, 3, 0, 0, 0, 0, 0, 0, 0, 0, 0, 0, 0, 0, 3]);
    let mask = v.eq(u8x16::broadcast(3)).bitset();
    // Lane 0 lands in the most significant bit of the mask.
    assert_eq!(mask, 0b1010_0000_0000_0001);
}

#[test]
fn test_table_lookup() {
    let table =
        u8x16::from_slice_unchecked(&[9, 8, 7, 6, 5, 4, 3, 2, 1, 0, 0, 0, 0, 0, 0, 0]);
    let idx = u8x16::from_slice_unchecked(&[0, 1, 2, 3, 0, 0, 0, 0, 0, 0, 0, 0, 0, 0, 0, 200]);
    let out: [u8; 16] = table.classify(idx).to_array();
    // An out-of-range index selects zero.
    assert_eq!(out, [9, 8, 7, 6, 9, 9, 9, 9, 9, 9, 9, 9, 9, 9, 9, 0]);
}
