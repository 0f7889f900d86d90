use data_encoding::bigint::{BigUint, BigUintView};

#[test]
fn view_starts_at_zero() {
    let mut chunks = [7u32; 4];
    let view = BigUintView::new(&mut chunks);
    assert!(view.is_zero());
    let mut out = [9u8; 4];
    assert_eq!(view.copy_into_bytes_be(&mut out), Ok(0));
    assert_eq!(out, [9u8; 4]);
}

#[test]
fn view_loads_and_copies_bytes() {
    let mut chunks = [0u32; 4];
    let mut view = BigUintView::new(&mut chunks);
    assert!(view.load_be_bytes(&[0, 0, 1, 2, 3, 4, 5]));
    assert!(!view.is_zero());
    let mut out = [0xeeu8; 8];
    assert_eq!(view.copy_into_bytes_be(&mut out), Ok(5));
    assert_eq!(out, [1, 2, 3, 4, 5, 0xee, 0xee, 0xee]);
    let mut small = [0xeeu8; 4];
    assert_eq!(view.copy_into_bytes_be(&mut small), Err(()));
    assert_eq!(small, [0xee; 4]);
    assert!(view.load_be_bytes(&[]));
    assert!(view.is_zero());
    assert!(view.load_be_bytes(&[0, 0, 0]));
    assert!(view.is_zero());
}

#[test]
fn view_refuses_what_does_not_fit() {
    let mut chunks = [0u32; 2];
    let mut view = BigUintView::new(&mut chunks);
    assert!(view.load_be_bytes(&[1; 8]));
    assert!(!view.load_be_bytes(&[1; 9]));
    let mut out = [0u8; 8];
    assert_eq!(view.copy_into_bytes_be(&mut out), Ok(8));
    assert_eq!(out, [1; 8]);
}

#[test]
fn view_divides() {
    let mut chunks = [0u32; 3];
    let mut view = BigUintView::new(&mut chunks);
    // 0x01_00000000_00000005 = 18446744073709551621
    assert!(view.load_be_bytes(&[1, 0, 0, 0, 0, 0, 0, 0, 5]));
    assert_eq!(view.div_mod(10), 1);
    // 1844674407370955162 = 0x1999999999999999 + 1
    let mut out = [0u8; 12];
    assert_eq!(view.copy_into_bytes_be(&mut out), Ok(8));
    assert_eq!(&out[..8], &1844674407370955162u64.to_be_bytes());
    assert_eq!(view.div_mod(1844674407), 370955162);
    assert_eq!(view.div_mod(1_000_000_000), 0);
    assert!(!view.is_zero());
    assert_eq!(view.div_mod(7), 1);
    assert!(view.is_zero());
    assert_eq!(view.div_mod(7), 0);
}

#[test]
fn view_multiplies_and_adds() {
    let mut chunks = [0u32; 2];
    let mut view = BigUintView::new(&mut chunks);
    assert_eq!(view.mul_add(58, 7), Ok(()));
    assert_eq!(view.mul_add(u32::MAX, u32::MAX), Ok(()));
    // 7 * (2^32 - 1) + 2^32 - 1 = 8 * (2^32 - 1)
    let mut out = [0u8; 8];
    assert_eq!(view.copy_into_bytes_be(&mut out), Ok(5));
    assert_eq!(&out[..5], &(8u64 * 0xffff_ffff).to_be_bytes()[3..]);
    assert_eq!(view.mul_add(0x1000_0000, 0), Ok(()));
    // Now the number has 63 bits; sixteen times as much has no room.
    assert_eq!(view.mul_add(16, 0), Err(()));
}

#[test]
fn view_of_no_limbs() {
    let mut chunks: [u32; 0] = [];
    let mut view = BigUintView::new(&mut chunks);
    assert!(view.is_zero());
    assert_eq!(view.mul_add(3, 0), Ok(()));
    assert_eq!(view.mul_add(3, 1), Err(()));
    assert!(view.load_be_bytes(&[]));
    assert!(!view.load_be_bytes(&[0]));
}

#[test]
fn owned_number_grows() {
    let mut big = BigUint::with_capacity(4);
    assert!(big.is_zero());
    assert_eq!(big.chunks, vec![0]);
    for _ in 0..5 {
        big.mul_add(u32::MAX, u32::MAX);
    }
    // (2^32)^5 - 1 ... each step: x * (2^32 - 1) + (2^32 - 1) = (x + 1) * (2^32 - 1)
    let mut expected: u128 = 0;
    for _ in 0..3 {
        expected = (expected + 1) * 0xffff_ffff;
    }
    let mut three = BigUint::with_capacity(1);
    for _ in 0..3 {
        three.mul_add(u32::MAX, u32::MAX);
    }
    let bytes = three.into_bytes_be();
    let all = expected.to_be_bytes();
    let first = all.iter().position(|b| *b != 0).unwrap();
    assert_eq!(bytes, &all[first..]);
    assert!(!big.is_zero());
    assert!(big.into_bytes_be().len() > 16);
}

#[test]
fn owned_number_from_and_into_bytes() {
    assert_eq!(BigUint::from_bytes_be(&[]).into_bytes_be(), Vec::<u8>::new());
    assert_eq!(BigUint::from_bytes_be(&[0, 0]).into_bytes_be(), Vec::<u8>::new());
    assert_eq!(BigUint::from_bytes_be(&[0, 0, 9, 8, 7, 6, 5]).into_bytes_be(), vec![9, 8, 7, 6, 5]);
    assert!(BigUint::from_bytes_be(&[0, 0, 0, 0, 0]).is_zero());
    let mut big = BigUint::from_bytes_be(&[1, 0, 0, 0, 0, 0, 0, 0, 5]);
    assert_eq!(big.div_mod(10), 1);
    assert_eq!(big.into_bytes_be(), 1844674407370955162u64.to_be_bytes());
    let mut empty = BigUint { chunks: Vec::new() };
    assert!(empty.is_zero());
    assert_eq!(empty.div_mod(3), 0);
    empty.mul_add(10, 3);
    assert_eq!(empty.into_bytes_be(), vec![3]);
}
