use data_encoding::arithmetic::{decode, decode_to_buffer, encode, encode_to_buffer};
use data_encoding::error::{DecodeError, DecodeKind, EncodeKind};

const BASE58: &[u8] = b"123456789ABCDEFGHJKLMNPQRSTUVWXYZabcdefghijkmnopqrstuvwxyz";

#[test]
fn compare_no_alloc_to_standard() {
    let input = [0xde, 0xad, 0xbe, 0xef, 0x00, 0x01];

    let std_encoded = encode(BASE58, &input).unwrap();
    let mut buf_encoded = [0u8; 128];
    let len_encoded = encode_to_buffer(BASE58, &input, &mut buf_encoded).unwrap();
    let no_alloc_encoded = std::str::from_utf8(&buf_encoded[..len_encoded]).unwrap();
    assert_eq!(std_encoded, no_alloc_encoded, "Encode produce different results!");

    let std_decoded = decode(BASE58, std_encoded.as_bytes()).unwrap();
    let mut buf_decoded = [0u8; 128];
    let len_decoded =
        decode_to_buffer(BASE58, std_encoded.as_bytes(), &mut buf_decoded).unwrap();
    let no_alloc_decoded = &buf_decoded[..len_decoded];
    assert_eq!(std_decoded, no_alloc_decoded, "Decode produce different results!");
    assert_eq!(std_decoded, input);
}

#[test]
fn binary_alphabet() {
    let alphabet = b"01";
    let decoded = decode(alphabet, b"11111111000000001111111100000000").unwrap();
    assert_eq!(decoded, vec![0xff, 0x00, 0xff, 0x00]);
    let encoded = encode(alphabet, &decoded).unwrap();
    assert_eq!(encoded, "11111111000000001111111100000000");
    // A zero byte at the front is one first symbol, not eight.
    assert_eq!(encode(alphabet, &[0, 1]).unwrap(), "01");
    assert_eq!(decode(alphabet, b"01").unwrap(), vec![0, 1]);
    assert_eq!(decode(alphabet, b"000").unwrap(), vec![0, 0, 0]);
}

#[test]
fn decimal_alphabet() {
    let alphabet = b"0123456789";
    assert_eq!(encode(alphabet, &[1, 0]).unwrap(), "256");
    assert_eq!(encode(alphabet, &[0xff, 0xff, 0xff, 0xff, 0xff]).unwrap(), "1099511627775");
    assert_eq!(decode(alphabet, b"1099511627775").unwrap(), vec![0xff; 5]);
    assert_eq!(decode(alphabet, b"00256").unwrap(), vec![0, 0, 1, 0]);
    assert_eq!(encode(alphabet, &[0, 0, 1, 0]).unwrap(), "00256");
    // More digits than one division of the big number gives.
    let text = encode(alphabet, &[0x12; 20]).unwrap();
    assert_eq!(text, "103164821458651970696730694074090566093359944210");
    assert_eq!(decode(alphabet, text.as_bytes()).unwrap(), vec![0x12; 20]);
}

#[test]
fn buffer_errors() {
    let mut small = [0u8; 3];
    assert_eq!(
        encode_to_buffer(BASE58, b"hello", &mut small).unwrap_err().kind,
        EncodeKind::BufferTooSmall
    );
    let mut leaders = [0u8; 2];
    assert_eq!(
        encode_to_buffer(BASE58, &[0, 0, 0], &mut leaders).unwrap_err().kind,
        EncodeKind::BufferTooSmall
    );
    let mut exact = [0u8; 7];
    assert_eq!(encode_to_buffer(BASE58, b"hello", &mut exact), Ok(7));
    assert_eq!(&exact, b"Cn8eVZg");
    let mut room = [0u8; 2048];
    assert_eq!(
        encode_to_buffer(BASE58, &[1; 513], &mut room).unwrap_err().kind,
        EncodeKind::Overflow
    );
    assert!(encode_to_buffer(BASE58, &[0xff; 512], &mut room).is_ok());

    let mut out = [0u8; 4];
    assert_eq!(
        decode_to_buffer(BASE58, b"Cn8eVZg", &mut out),
        Err(DecodeError { position: 0, kind: DecodeKind::BufferTooSmall })
    );
    assert_eq!(
        decode_to_buffer(BASE58, b"11Cn8eVZg", &mut [0u8; 6]),
        Err(DecodeError { position: 0, kind: DecodeKind::BufferTooSmall })
    );
    let mut fits = [0xaau8; 8];
    assert_eq!(decode_to_buffer(BASE58, b"11Cn8eVZg", &mut fits), Ok(7));
    assert_eq!(&fits, b"\0\0hello\xaa");
    assert_eq!(
        decode_to_buffer(BASE58, b"Cn8e VZg", &mut fits),
        Err(DecodeError { position: 4, kind: DecodeKind::Symbol })
    );
    assert_eq!(
        decode(BASE58, b"0").err(),
        Some(DecodeError { position: 0, kind: DecodeKind::Symbol })
    );
}

#[test]
fn the_growing_number_has_no_limit() {
    let text = [b'z'; 800];
    let mut out = [0u8; 800];
    assert_eq!(
        decode_to_buffer(BASE58, &text, &mut out),
        Err(DecodeError { position: 0, kind: DecodeKind::Overflow })
    );
    let bytes = decode(BASE58, &text).unwrap();
    assert_eq!(bytes.len(), 586);
    // The overflow comes before a byte behind it that is no symbol.
    let mut text = vec![b'z'; 800];
    text.push(b'!');
    assert_eq!(
        decode_to_buffer(BASE58, &text, &mut out),
        Err(DecodeError { position: 0, kind: DecodeKind::Overflow })
    );
    assert_eq!(
        decode(BASE58, &text).err(),
        Some(DecodeError { position: 800, kind: DecodeKind::Symbol })
    );
}

#[test]
fn the_allocating_encoder_has_no_limit() {
    let mut bytes = vec![0u8; 3];
    bytes.extend((0..2000u32).map(|i| (i * 31 + 7) as u8));
    for alphabet in [BASE58, &b"01"[..], &b"0123456789"[..]] {
        let text = encode(alphabet, &bytes).unwrap();
        assert!(text.bytes().take(3).all(|c| c == alphabet[0]));
        assert_eq!(decode(alphabet, text.as_bytes()).unwrap(), bytes);
    }
    // Up to 512 bytes it gives what the encoder into a buffer gives.
    let mut room = [0u8; 1024];
    let n = encode_to_buffer(BASE58, &bytes[..512], &mut room).unwrap();
    assert_eq!(encode(BASE58, &bytes[..512]).unwrap().as_bytes(), &room[..n]);
    // In base 2 a byte takes eight symbols.
    assert_eq!(encode(b"01", &[0xff; 600]).unwrap(), "1".repeat(4800));
}

#[test]
fn empty_input() {
    let mut none: [u8; 0] = [];
    assert_eq!(encode_to_buffer(BASE58, b"", &mut none), Ok(0));
    assert_eq!(decode_to_buffer(BASE58, b"", &mut none), Ok(0));
    assert_eq!(encode(BASE58, b"").unwrap(), "");
    assert_eq!(decode(BASE58, b"").unwrap(), Vec::<u8>::new());
}
