use data_encoding::block::{
    check_pad, check_trail, dec, decode_base_len, decode_block, decode_pad_len, decode_wrap_block,
    decode_wrap_len, div_ceil, enc, encode_base, encode_base_len, encode_block, encode_len,
    encode_mut, encode_pad, encode_pad_len, encode_wrap_len, encode_wrap_mut, floor, order,
    skip_ignore, IGNORE, INVALID, PADDING,
};
use data_encoding::error::{DecodeKind, EncodeKind};
use data_encoding::predefined::{base32, base64, base64_mime, hexlower};

#[test]
fn block_sizes() {
    assert_eq!((enc(1), dec(1)), (8, 1));
    assert_eq!((enc(2), dec(2)), (4, 1));
    assert_eq!((enc(3), dec(3)), (8, 3));
    assert_eq!((enc(4), dec(4)), (2, 1));
    assert_eq!((enc(5), dec(5)), (8, 5));
    assert_eq!((enc(6), dec(6)), (4, 3));
    assert_eq!((enc(0), dec(0)), (0, 0));
    assert_eq!((enc(7), dec(7)), (0, 0));
    for bit in 1..=6 {
        assert_eq!(bit * enc(bit), 8 * dec(bit));
    }
}

#[test]
fn small_arithmetic() {
    assert_eq!(div_ceil(7, 0), None);
    assert_eq!(div_ceil(0, 3), Some(0));
    assert_eq!(div_ceil(6, 3), Some(2));
    assert_eq!(div_ceil(7, 3), Some(3));
    assert_eq!(div_ceil(usize::MAX, 1), Some(usize::MAX));
    assert_eq!(div_ceil(usize::MAX, 2), Some(usize::MAX / 2 + 1));
    assert_eq!(floor(7, 3), 6);
    assert_eq!(floor(6, 3), 6);
    assert_eq!(floor(2, 3), 0);
    assert_eq!(order(8, true, 0), 0);
    assert_eq!(order(8, true, 7), 7);
    assert_eq!(order(8, false, 0), 7);
    assert_eq!(order(8, false, 7), 0);
    assert_eq!(order(5, false, 1), 3);
}

#[test]
fn lengths() {
    assert_eq!(encode_len(6, 0), Some(0));
    assert_eq!(encode_len(6, 1), Some(4));
    assert_eq!(encode_len(6, 3), Some(4));
    assert_eq!(encode_len(5, 6), Some(16));
    assert_eq!(encode_len(6, usize::MAX), None);
    assert_eq!(encode_base_len(6, 1), Some(2));
    assert_eq!(encode_base_len(6, 2), Some(3));
    assert_eq!(encode_base_len(5, 6), Some(10));
    assert_eq!(encode_base_len(1, 2), Some(16));
    assert_eq!(encode_base_len(1, usize::MAX), None);
    assert_eq!(encode_pad_len(6, true, 2), Some(4));
    assert_eq!(encode_pad_len(6, false, 2), Some(3));
    assert_eq!(encode_wrap_len(6, true, None, 2), Some(4));
    assert_eq!(encode_wrap_len(6, true, Some((4, 2)), 2), Some(6));
    assert_eq!(encode_wrap_len(6, true, Some((4, 2)), 3), Some(6));
    assert_eq!(encode_wrap_len(6, true, Some((4, 2)), 4), Some(12));
    assert_eq!(encode_wrap_len(6, true, Some((4, 2)), 0), Some(0));
    assert_eq!(encode_wrap_len(4, false, Some((2, usize::MAX)), 2), None);
    assert_eq!(decode_base_len(6, 7), 5);
    assert_eq!(decode_base_len(5, 9), 5);
    assert_eq!(decode_pad_len(6, true, 7), None);
    assert_eq!(decode_pad_len(6, true, 8), Some(6));
    assert_eq!(decode_pad_len(6, false, 7), Some(5));
    assert_eq!(decode_wrap_len(6, true, 7), (4, 3));
    assert_eq!(decode_wrap_len(6, false, 7), (7, 5));
    assert_eq!(decode_wrap_len(6, false, 5), (4, 3));
    assert_eq!(decode_wrap_len(3, false, 5), (3, 1));
    assert_eq!(decode_wrap_len(1, false, 11), (8, 1));
    assert_eq!(decode_wrap_len(4, false, usize::MAX), (usize::MAX - 1, usize::MAX / 2));
}

#[test]
fn one_block() {
    let base64 = base64();
    let mut out = [b'.'; 6];
    encode_block(6, true, base64.sym(), b"foo", &mut out, 1, 4);
    assert_eq!(&out, b".Zm9v.");
    let mut out = [b'.'; 6];
    encode_block(6, true, base64.sym(), b"fo", &mut out, 1, 3);
    assert_eq!(&out, b".Zm8..");
    let mut out = [b'.'; 4];
    encode_block(6, true, base64.sym(), b"fo", &mut out, 0, 4);
    assert_eq!(&out, b"Zm8A");
    let mut bytes = [0xeeu8; 4];
    assert_eq!(decode_block(6, true, base64.val(), b"Zm9v", 4, &mut bytes), Ok(()));
    assert_eq!(bytes, [b'f', b'o', b'o', 0xee]);
    let mut bytes = [0xeeu8; 3];
    assert_eq!(decode_block(6, true, base64.val(), b"Zm8", 3, &mut bytes), Ok(()));
    assert_eq!(bytes, [b'f', b'o', 0]);
    assert_eq!(decode_block(6, true, base64.val(), b"Zm9", 2, &mut bytes), Ok(()));
    assert_eq!(bytes, [b'f', b'`', 0]);
    let mut bytes = [0xeeu8; 3];
    assert_eq!(decode_block(6, true, base64.val(), b"Zm=v", 4, &mut bytes), Err(2));
    assert_eq!(decode_block(6, true, base64.val(), b"Z\xffm9", 4, &mut bytes), Err(1));
    assert_eq!(bytes, [0xee; 3]);
    // With the least significant bit first the first symbol holds the low bits.
    let mut out = [0u8; 8];
    encode_block(5, false, base32().sym(), &[1], &mut out, 0, 8);
    assert_eq!(&out, b"BAAAAAAA");
    encode_block(5, true, base32().sym(), &[1], &mut out, 0, 8);
    assert_eq!(&out, b"AEAAAAAA");
}

#[test]
fn whole_inputs() {
    let base64 = base64();
    let mut out = [b'.'; 10];
    assert_eq!(encode_mut(6, true, base64.sym(), b"foobar", &mut out, 1), 8);
    assert_eq!(&out, b".Zm9vYmFy.");
    let mut out = [b'.'; 10];
    assert_eq!(encode_base(6, true, base64.sym(), b"fooba", &mut out, 1), 7);
    assert_eq!(&out, b".Zm9vYmE..");
    let mut out = [b'.'; 10];
    assert_eq!(encode_pad(6, true, base64.sym(), Some(b'='), b"fooba", &mut out, 1), 8);
    assert_eq!(&out, b".Zm9vYmE=.");
    assert_eq!(encode_pad(6, true, base64.sym(), None, b"foob", &mut out, 0), 6);
    assert_eq!(&out, b"Zm9vYgmE=.");
    let mut out = [b'.'; 15];
    let wrap: Option<(usize, &[u8])> = Some((4, b"\r\n"));
    assert_eq!(encode_wrap_mut(6, true, base64.sym(), Some(b'='), wrap, b"fooba", &mut out), 12);
    assert_eq!(&out, b"Zm9v\r\nYmE=\r\n...");
    let mut out = [b'.'; 12];
    assert_eq!(encode_wrap_mut(6, true, base64.sym(), Some(b'='), wrap, b"foobar", &mut out), 12);
    assert_eq!(&out, b"Zm9v\r\nYmFy\r\n");
    let wide: Option<(usize, &[u8])> = Some((8, b"|"));
    let mut out = [b'.'; 14];
    assert_eq!(encode_wrap_mut(6, true, base64.sym(), None, wide, b"foobarf", &mut out), 12);
    assert_eq!(&out, b"Zm9vYmFy|Zg|..");
}

#[test]
fn skipping_and_gathering() {
    let mime = base64_mime();
    let val = mime.val();
    assert_eq!(val[b'\r' as usize], IGNORE);
    assert_eq!(val[b'=' as usize], PADDING);
    assert_eq!(val[b'!' as usize], INVALID);
    assert_eq!(val[b'B' as usize], 1);
    assert_eq!(skip_ignore(val, true, b"\r\n\r\nab", 0), 4);
    assert_eq!(skip_ignore(val, true, b"\r\n\r\nab", 4), 4);
    assert_eq!(skip_ignore(val, true, b"ab\r\n", 2), 4);
    assert_eq!(skip_ignore(val, true, b"\xff\xfea", 0), 2);
    assert_eq!(skip_ignore(val, false, b"\r\na", 0), 0);
    let mut block = [0u8; 8];
    let mut positions = [0usize; 8];
    assert_eq!(decode_wrap_block(val, true, b"\nZ\rm\n\n9v\rQ", 0, 4, &mut block, &mut positions), 4);
    assert_eq!(&block[..4], b"Zm9v");
    assert_eq!(&positions[..4], &[1, 3, 6, 7]);
    assert_eq!(decode_wrap_block(val, true, b"\nZ\rm\n\n9v\rQ", 8, 4, &mut block, &mut positions), 1);
    assert_eq!(block[0], b'Q');
    assert_eq!(positions[0], 9);
    assert_eq!(decode_wrap_block(val, true, b"\n\r", 0, 4, &mut block, &mut positions), 0);
    assert_eq!(decode_wrap_block(val, false, b"\n\rab", 0, 2, &mut block, &mut positions), 2);
    assert_eq!(&block[..2], b"\n\r");
}

#[test]
fn padding_and_trailing_checks() {
    assert_eq!(check_pad(Some(b'='), b"Zg=="), (2, 4));
    assert_eq!(check_pad(Some(b'='), b"Zg=a"), (2, 3));
    assert_eq!(check_pad(Some(b'='), b"Zm9v"), (4, 4));
    assert_eq!(check_pad(Some(b'='), b"===="), (0, 4));
    assert_eq!(check_pad(None, b"Zg=="), (4, 4));
    assert!(check_trail(&[1, 0, 0], 1, 3));
    assert!(!check_trail(&[1, 0, 2], 1, 3));
    assert!(check_trail(&[1, 2, 3], 3, 3));
    assert!(!check_trail(&[1, 2, 3], 2, 3));
}

#[test]
fn kinds_have_words() {
    assert_eq!(DecodeKind::Length.message(), "invalid length");
    assert_eq!(DecodeKind::Symbol.message(), "invalid symbol");
    assert_eq!(DecodeKind::Trailing.message(), "non-zero trailing bits");
    assert_eq!(DecodeKind::Padding.message(), "invalid padding");
    assert_eq!(DecodeKind::BufferTooSmall.message(), "buffer too small");
    assert_eq!(DecodeKind::Overflow.message(), "overflow");
    assert_eq!(EncodeKind::BufferTooSmall.message(), "buffer too small");
    assert_eq!(EncodeKind::Overflow.message(), "overflow");
    assert_eq!(hexlower().bit(), 4);
}
