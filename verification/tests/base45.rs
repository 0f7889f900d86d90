use data_encoding::base45::{
    decode, decode_to_buffer, encode, encode_to_buffer, symbol, value, DecodeError, EncodeError,
};

#[test]
fn encode_ab() {
    assert_eq!(encode("AB".as_bytes()), "BB8")
}

#[test]
fn decode_fail() {
    assert!(decode(":::".as_bytes()).is_err());
}

#[test]
fn decode_fail_out_of_range() {
    assert!(decode(":::".as_bytes()).is_err());
}

#[test]
fn encode_hello() {
    assert_eq!(encode("Hello!!".as_bytes()), "%69 VD92EX0")
}

#[test]
fn encode_base45() {
    assert_eq!(encode("base-45".as_bytes()), "UJCLQE7W581")
}

#[test]
fn encode_long_string() {
    assert_eq!(
        encode("The quick brown fox jumps over the lazy dog".as_bytes()),
        "8UADZCKFEOEDJOD2KC54EM-DX.CH8FSKDQ$D.OE44E5$CS44+8DK44OEC3EFGVCD2",
    )
}

#[test]
fn encode_unicode() {
    assert_eq!(encode("foo © bar 𝌆 baz".as_bytes()), "X.C82EIROA44GECH74C-J1/GUJCW2")
}

#[test]
fn encode_emoji() {
    assert_eq!(encode("I ❤️  Rust".as_bytes()), "0B98TSD%K.ENY244JA QE")
}

#[test]
fn encode_ietf() {
    assert_eq!(encode("ietf!".as_bytes()), "QED8WEX0")
}

#[test]
fn decode_ab() {
    assert_eq!(String::from_utf8(decode("BB8".as_bytes()).unwrap()).unwrap(), "AB")
}

#[test]
fn decode_hello() {
    assert_eq!(String::from_utf8(decode("%69 VD92EX0".as_bytes()).unwrap()).unwrap(), "Hello!!")
}

#[test]
fn decode_base45() {
    assert_eq!(String::from_utf8(decode("UJCLQE7W581".as_bytes()).unwrap()).unwrap(), "base-45")
}

#[test]
fn decode_ietf() {
    assert_eq!(String::from_utf8(decode("QED8WEX0".as_bytes()).unwrap()).unwrap(), "ietf!")
}

const QUICK_BROWN_FOX_ENC: &str =
    "8UADZCKFEOEDJOD2KC54EM-DX.CH8FSKDQ$D.OE44E5$CS44+8DK44OEC3EFGVCD2";
const QUICK_BROWN_FOX_DEC: &str = "The quick brown fox jumps over the lazy dog";

#[test]
fn decode_long_string() {
    assert_eq!(
        String::from_utf8(decode(QUICK_BROWN_FOX_ENC.as_bytes()).unwrap()).unwrap(),
        QUICK_BROWN_FOX_DEC,
    )
}

#[test]
fn encode_hello_from_buffer() {
    assert_eq!(encode(&vec![72, 101, 108, 108, 111, 33, 33]), "%69 VD92EX0")
}

#[test]
fn encode_full_bytes() {
    let s = encode(b"\xff\xff\xff\xff\xff\xff");
    assert_eq!(s, "FGWFGWFGW");
    let s = encode(b"\xff\xff\xff\xff\xff\xff\xff");
    assert_eq!(s, "FGWFGWFGWU5");
    let s = encode(b"\xff\xff\xff\xff\xff\xff\xff\xff");
    assert_eq!(s, "FGWFGWFGWFGW");
}

#[test]
fn decode_full_bytes() {
    let s = decode("FGWFGWFGW".as_bytes()).unwrap();
    assert_eq!(s, b"\xff\xff\xff\xff\xff\xff");
    let s = decode("FGWFGWFGWU5".as_bytes()).unwrap();
    assert_eq!(s, b"\xff\xff\xff\xff\xff\xff\xff");
    let s = decode("FGWFGWFGWFGW".as_bytes()).unwrap();
    assert_eq!(s, b"\xff\xff\xff\xff\xff\xff\xff\xff");
}

#[test]
fn base45_alphabet() {
    let alphabet = b"0123456789ABCDEFGHIJKLMNOPQRSTUVWXYZ $%*+-./:";
    for (v, c) in alphabet.iter().enumerate() {
        assert_eq!(symbol(v as u8), Some(*c));
        assert_eq!(value(*c), Some(v as u8));
    }
    assert_eq!(symbol(45), None);
    assert_eq!(symbol(255), None);
    let mut symbols = 0;
    for c in 0..=255u8 {
        if value(c).is_some() {
            symbols += 1;
        }
    }
    assert_eq!(symbols, 45);
    assert_eq!(value(b'a'), None);
}

#[test]
fn base45_errors() {
    assert_eq!(decode(b"A"), Err(DecodeError::InvalidLength));
    assert_eq!(decode(b"ABCD"), Err(DecodeError::InvalidLength));
    assert_eq!(decode(b"AB!"), Err(DecodeError::InvalidCharacter));
    assert_eq!(decode(b"a0"), Err(DecodeError::InvalidCharacter));
    assert_eq!(decode(b":::"), Err(DecodeError::OutOfRange));
    assert_eq!(decode(b"GGW"), Err(DecodeError::OutOfRange));
    assert_eq!(decode(b"FGW"), Ok(vec![0xff, 0xff]));
    assert_eq!(decode(b"V5"), Err(DecodeError::OutOfRange));
    assert_eq!(decode(b"U5"), Ok(vec![0xff]));
    assert_eq!(decode(b""), Ok(vec![]));
    // The first thing that is wrong decides.
    assert_eq!(decode(b":::!"), Err(DecodeError::InvalidLength));
    assert_eq!(decode(b":::!!"), Err(DecodeError::OutOfRange));
    assert_eq!(decode(b"!::::"), Err(DecodeError::InvalidCharacter));
}

#[test]
fn base45_buffers() {
    let mut text = [b'.'; 8];
    assert_eq!(encode_to_buffer(b"ietf!", &mut text), Ok(8));
    assert_eq!(&text, b"QED8WEX0");
    let mut long = [b'.'; 10];
    assert_eq!(encode_to_buffer(b"ietf!", &mut long), Ok(8));
    assert_eq!(&long, b"QED8WEX0..");
    let mut short = [b'.'; 7];
    assert_eq!(encode_to_buffer(b"ietf!", &mut short), Err(EncodeError::BufferTooSmall));
    assert_eq!(&short, b".......");
    let mut none: [u8; 0] = [];
    assert_eq!(encode_to_buffer(b"", &mut none), Ok(0));

    let mut bytes = [b'.'; 6];
    assert_eq!(decode_to_buffer(b"QED8WEX0", &mut bytes), Ok(5));
    assert_eq!(&bytes, b"ietf!.");
    let mut short = [b'.'; 4];
    assert_eq!(decode_to_buffer(b"QED8WEX0", &mut short), Err(DecodeError::BufferTooSmall));
    assert_eq!(&short, b"....");
    // What was decoded before the failure stands in the buffer.
    let mut bytes = [b'.'; 6];
    assert_eq!(decode_to_buffer(b"QED8WE!0", &mut bytes), Err(DecodeError::InvalidCharacter));
    assert_eq!(&bytes, b"ietf..");
    assert_eq!(decode_to_buffer(b"", &mut bytes), Ok(0));
    assert_eq!(decode_to_buffer(b"0", &mut bytes), Err(DecodeError::InvalidLength));
}

#[test]
fn base45_round_trips() {
    let mut input = Vec::new();
    for n in 0..300u32 {
        let text = encode(&input);
        assert_eq!(text.len(), input.len() + (input.len() + 1) / 2);
        assert_eq!(decode(text.as_bytes()).unwrap(), input);
        input.push((n.wrapping_mul(2654435761) >> 11) as u8);
    }
}
