use data_encoding::encoding::{BitOrder, PaddingMode};
use data_encoding::error::{DecodeError, DecodeKind, DecodePartial, EncodeKind};
use data_encoding::predefined::{
    base32, base32_dnscurve, base32_dnssec, base32_nopad, base32_nopad_nocase,
    base32_nopad_visual, base32hex, base32hex_nopad, base58, base62, base64, base64_mime,
    base64_mime_permissive, base64_nopad, base64url, base64url_nopad, hexlower,
    hexlower_permissive, hexupper, hexupper_permissive,
};
use data_encoding::specification::{
    is_power_of_two_base, Specification, SpecificationError, SpecificationErrorImpl,
};

#[test]
fn test_base58_roundtrip() {
    let input = b"Hello World!";
    let encoded = base58().encode(input);
    let decoded = match base58().decode(encoded.as_bytes()) {
        Ok(bytes) => bytes,
        Err(e) => panic!(
            "Decode Base58 failed at position {} with kind {:?}. Encoded: {}",
            e.position, e.kind, encoded
        ),
    };
    assert_eq!(input, decoded.as_slice());
}

#[test]
fn test_base62_roundtrip() {
    let input = b"Hello World!";
    let encoded = base62().encode(input);
    let decoded = match base62().decode(encoded.as_bytes()) {
        Ok(bytes) => bytes,
        Err(e) => panic!(
            "Decode Base62 failed at position {} with kind {:?}. Encoded: {}",
            e.position, e.kind, encoded
        ),
    };
    assert_eq!(input, decoded.as_slice());
}

#[test]
fn test_base58_leaders() {
    let input = b"\0\0\0Hello";
    let encoded = base58().encode(input);
    let decoded = match base58().decode(encoded.as_bytes()) {
        Ok(bytes) => bytes,
        Err(e) => panic!("Decode failed at position {} with kind {:?}", e.position, e.kind),
    };
    assert_eq!(input, decoded.as_slice());
}

#[test]
fn base58_known_texts() {
    assert_eq!(base58().encode(b"Hello World!"), "2NEpo7TZRRrLZSi2U");
    assert_eq!(base58().encode(b"hello"), "Cn8eVZg");
    assert_eq!(base58().encode(b""), "");
    assert_eq!(base58().decode(b"Cn8eVZg").unwrap(), b"hello");
}

#[test]
fn base58_leading_zeros_become_leading_ones() {
    let encoded = base58().encode(b"\0\0\0Hello");
    assert_eq!(encoded, "1119Ajdvzr");
    assert!(encoded.starts_with("111"));
    assert_ne!(encoded.as_bytes()[3], b'1');
    assert_eq!(base58().encode(&[0, 0, 0]), "111");
    assert_eq!(base58().decode(b"111").unwrap(), vec![0, 0, 0]);
}

#[test]
fn base62_known_text() {
    assert_eq!(base62().encode(b"Hello World!"), "T8dgcjRGkZ3aysdN");
}

#[test]
fn base64_of_hello_world() {
    assert_eq!(base64().encode(b"Hello world"), "SGVsbG8gd29ybGQ=");
    assert_eq!(base64().decode(b"SGVsbG8gd29ybGQ=").unwrap(), b"Hello world");
}

#[test]
fn base64_rfc_vectors() {
    let cases: [(&[u8], &str); 7] = [
        (b"", ""),
        (b"f", "Zg=="),
        (b"fo", "Zm8="),
        (b"foo", "Zm9v"),
        (b"foob", "Zm9vYg=="),
        (b"fooba", "Zm9vYmE="),
        (b"foobar", "Zm9vYmFy"),
    ];
    for (bytes, text) in cases {
        assert_eq!(base64().encode(bytes), text);
        assert_eq!(base64().decode(text.as_bytes()).unwrap(), bytes);
    }
    assert_eq!(base64_nopad().encode(b"f"), "Zg");
    assert_eq!(base64_nopad().encode(b"fo"), "Zm8");
    assert_eq!(base64_nopad().decode(b"Zm8").unwrap(), b"fo");
    assert_eq!(base64url().encode(&[0xfb, 0xff]), "-_8=");
    assert_eq!(base64url_nopad().encode(&[0xfb, 0xff]), "-_8");
    assert_eq!(base64().encode(&[0xfb, 0xff]), "+/8=");
}

#[test]
fn base32_rfc_vectors() {
    let cases: [(&[u8], &str, &str); 7] = [
        (b"", "", ""),
        (b"f", "MY======", "CO======"),
        (b"fo", "MZXQ====", "CPNG===="),
        (b"foo", "MZXW6===", "CPNMU==="),
        (b"foob", "MZXW6YQ=", "CPNMUOG="),
        (b"fooba", "MZXW6YTB", "CPNMUOJ1"),
        (b"foobar", "MZXW6YTBOI======", "CPNMUOJ1E8======"),
    ];
    for (bytes, text, hex) in cases {
        assert_eq!(base32().encode(bytes), text);
        assert_eq!(base32().decode(text.as_bytes()).unwrap(), bytes);
        assert_eq!(base32hex().encode(bytes), hex);
        assert_eq!(base32hex().decode(hex.as_bytes()).unwrap(), bytes);
    }
    assert_eq!(base32_nopad().encode(b"foob"), "MZXW6YQ");
    assert_eq!(base32hex_nopad().encode(b"foob"), "CPNMUOG");
    assert_eq!(base32_nopad_nocase().decode(b"mzxw6yq").unwrap(), b"foob");
    assert_eq!(base32_nopad_visual().decode(b"MZXW6YQ").unwrap(), b"foob");
    assert_eq!(
        base32_nopad_visual().decode(b"0").err(),
        Some(DecodeError { position: 0, kind: DecodeKind::Length })
    );
    assert_eq!(
        base32_nopad_visual().decode(b"81").unwrap(),
        base32_nopad().decode(b"BI").unwrap()
    );
    assert_eq!(base32_dnssec().encode(b"foob"), "cpnmuog");
    assert_eq!(base32_dnssec().decode(b"CPNMUOG").unwrap(), b"foob");
}

#[test]
fn least_significant_bit_first() {
    // RFC 4648 order would give "MY"; with the least significant bit first the
    // low five bits of the byte come first.
    let input = [0x66u8];
    let text = base32_dnscurve().encode(&input);
    assert_eq!(text, "63");
    assert_eq!(base32_dnscurve().decode(text.as_bytes()).unwrap(), input);
    assert_eq!(base32_dnscurve().decode(b"63").unwrap(), input);
    let longer = [0x64u8, 0x88];
    let text = base32_dnscurve().encode(&longer);
    assert_eq!(text, "4321");
    assert_eq!(base32_dnscurve().decode(b"4321").unwrap(), longer);
    assert_eq!(base32_dnscurve().decode(b"4321".to_ascii_uppercase().as_slice()).unwrap(), longer);
}

#[test]
fn hex_of_deadbeef() {
    assert_eq!(hexlower().encode(&[0xde, 0xad, 0xbe, 0xef]), "deadbeef");
    assert_eq!(hexupper().encode(&[0xde, 0xad, 0xbe, 0xef]), "DEADBEEF");
    assert_eq!(hexlower().decode(b"deadbeef").unwrap(), vec![0xde, 0xad, 0xbe, 0xef]);
    assert_eq!(hexlower_permissive().decode(b"DeadBeef").unwrap(), vec![0xde, 0xad, 0xbe, 0xef]);
    assert_eq!(hexupper_permissive().decode(b"DeadBeef").unwrap(), vec![0xde, 0xad, 0xbe, 0xef]);
    assert_eq!(
        hexlower().decode(b"DEADBEEF").err(),
        Some(DecodeError { position: 0, kind: DecodeKind::Symbol })
    );
}

#[test]
fn odd_length_hex_fails_with_length() {
    assert_eq!(
        hexlower().decode(b"abc").err(),
        Some(DecodeError { position: 2, kind: DecodeKind::Length })
    );
    assert_eq!(
        hexlower().decode_len(3),
        Err(DecodeError { position: 2, kind: DecodeKind::Length })
    );
    assert_eq!(hexlower().decode_len(4), Ok(2));
}

#[test]
fn trailing_bits_fail_at_the_last_symbol() {
    // "MZ" holds ten bits: one byte and two bits that must be zero. "MY" is the
    // text of "f"; "MZ" has the last of the two bits set.
    assert_eq!(base32_nopad().decode(b"MY").unwrap(), b"f");
    assert_eq!(
        base32_nopad().decode(b"MZ").err(),
        Some(DecodeError { position: 1, kind: DecodeKind::Trailing })
    );
    assert_eq!(
        base32_nopad().decode(b"MZXW6YTBMZ").err(),
        Some(DecodeError { position: 9, kind: DecodeKind::Trailing })
    );
    assert_eq!(
        base64().decode(b"Zh==").err(),
        Some(DecodeError { position: 1, kind: DecodeKind::Trailing })
    );
    assert_eq!(base64_mime_permissive().decode(b"Zh==").unwrap(), b"f");
}

#[test]
fn lengths_of_texts() {
    assert_eq!(base64().encode_len(0).unwrap(), 0);
    assert_eq!(base64().encode_len(1).unwrap(), 4);
    assert_eq!(base64().encode_len(3).unwrap(), 4);
    assert_eq!(base64().encode_len(4).unwrap(), 8);
    assert_eq!(base64_nopad().encode_len(1).unwrap(), 2);
    assert_eq!(base64_nopad().encode_len(2).unwrap(), 3);
    assert_eq!(base64_nopad().encode_len(4).unwrap(), 6);
    assert_eq!(base32().encode_len(1).unwrap(), 8);
    assert_eq!(base32_nopad().encode_len(1).unwrap(), 2);
    assert_eq!(base32_nopad().encode_len(4).unwrap(), 7);
    assert_eq!(hexlower().encode_len(5).unwrap(), 10);
    assert_eq!(base64_mime().encode_len(1).unwrap(), 6);
    assert_eq!(base64_mime().encode_len(57).unwrap(), 78);
    assert_eq!(base64_mime().encode_len(58).unwrap(), 84);
    assert_eq!(base58().encode_len(12).unwrap(), 20);
    assert_eq!(base64().encode_len(usize::MAX).unwrap_err().kind, EncodeKind::Overflow);
    assert_eq!(base58().encode_len(usize::MAX).unwrap_err().kind, EncodeKind::Overflow);
    assert_eq!(base64().decode_len(8), Ok(6));
    assert_eq!(
        base64().decode_len(7),
        Err(DecodeError { position: 4, kind: DecodeKind::Length })
    );
    assert_eq!(base64_nopad().decode_len(7), Ok(5));
    assert_eq!(
        base64_nopad().decode_len(5),
        Err(DecodeError { position: 4, kind: DecodeKind::Length })
    );
    assert_eq!(base64_mime().decode_len(7), Ok(3));
    assert_eq!(base58().decode_len(7), Ok(7));
}

#[test]
fn encode_mut_fills_a_buffer_of_the_exact_length() {
    let input = b"Hello world";
    let mut exact = [0u8; 16];
    assert_eq!(base64().encode_mut(input, &mut exact).unwrap(), 16);
    assert_eq!(&exact, b"SGVsbG8gd29ybGQ=");
    assert_eq!(base64().encode(input).as_bytes(), &exact);
    let mut long = [0u8; 17];
    assert_eq!(
        base64().encode_mut(input, &mut long).unwrap_err().kind,
        EncodeKind::BufferTooSmall
    );
    assert_eq!(long, [0u8; 17]);
    let mut short = [0u8; 15];
    assert_eq!(
        base64().encode_mut(input, &mut short).unwrap_err().kind,
        EncodeKind::BufferTooSmall
    );
}

#[test]
fn arithmetic_encode_mut_writes_to_the_front() {
    let mut buffer = [b'.'; 20];
    let written = base58().encode_mut(b"Hello World!", &mut buffer).unwrap();
    assert_eq!(written, 17);
    assert_eq!(&buffer[..written], b"2NEpo7TZRRrLZSi2U");
    assert_eq!(&buffer[written..], b"...");
    assert_eq!(base58().encode(b"Hello World!").as_bytes(), &buffer[..written]);
    let mut small = [0u8; 16];
    assert_eq!(
        base58().encode_mut(b"Hello World!", &mut small).unwrap_err().kind,
        EncodeKind::BufferTooSmall
    );
    let big = [1u8; 513];
    let mut room = [0u8; 1024];
    assert_eq!(base58().encode_mut(&big, &mut room).unwrap_err().kind, EncodeKind::Overflow);
    let fits = [1u8; 512];
    assert!(base58().encode_mut(&fits, &mut room).is_ok());
}

#[test]
fn wrapped_text() {
    let input = [0u8; 58];
    let text = base64_mime().encode(&input);
    assert_eq!(text.len(), 84);
    let mut expected = "A".repeat(76);
    expected.push_str("\r\n");
    expected.push_str("AA==");
    expected.push_str("\r\n");
    assert_eq!(text, expected);
    assert_eq!(base64_mime().decode(text.as_bytes()).unwrap(), input);
    assert_eq!(base64_mime().encode(b"a"), "YQ==\r\n");
    assert_eq!(base64_mime().encode(b""), "");
    let whole = [0xffu8; 57];
    let text = base64_mime().encode(&whole);
    assert_eq!(text.len(), 78);
    assert!(text.ends_with("////\r\n"));
    assert_eq!(base64_mime().decode(b"YQ==\r\n").unwrap(), b"a");
    assert_eq!(base64_mime().decode(b"Y\r\nQ=\r\n=").unwrap(), b"a");
}

#[test]
fn decode_mut_reports_how_far_it_came() {
    let input = b"SGVsbG8g!29ybGQ=";
    let mut output = [0u8; 12];
    let partial = base64().decode_mut(input, &mut output).unwrap_err();
    assert_eq!(
        partial,
        DecodePartial {
            read: 8,
            written: 6,
            error: DecodeError { position: 8, kind: DecodeKind::Symbol },
        }
    );
    assert_eq!(&output[..6], b"Hello ");
    let mut wrong = [0u8; 11];
    assert_eq!(
        base64().decode_mut(input, &mut wrong).unwrap_err(),
        DecodePartial {
            read: 0,
            written: 0,
            error: DecodeError { position: 16, kind: DecodeKind::BufferTooSmall },
        }
    );
    let mut none = [0u8; 5];
    assert_eq!(
        base64().decode_mut(b"SGVsbG8", &mut none).unwrap_err(),
        DecodePartial {
            read: 0,
            written: 0,
            error: DecodeError { position: 4, kind: DecodeKind::Length },
        }
    );
}

#[test]
fn padding_errors() {
    assert_eq!(
        base64().decode(b"Zg=a").err(),
        Some(DecodeError { position: 3, kind: DecodeKind::Padding })
    );
    assert_eq!(
        base64().decode(b"====").err(),
        Some(DecodeError { position: 0, kind: DecodeKind::Padding })
    );
    assert_eq!(
        base64().decode(b"Z===").err(),
        Some(DecodeError { position: 1, kind: DecodeKind::Length })
    );
    // Padded texts may follow one another.
    assert_eq!(base64().decode(b"SGVsbA==byB3b3JsZA==").unwrap(), b"Hello world");
    // Where the padding is final, nothing may follow it.
    let mut spec = base64().specification();
    spec.padding_mode = PaddingMode::PadFinal;
    let strict = spec.encoding().unwrap();
    assert_eq!(strict.decode(b"SGVsbA==").unwrap(), b"Hell");
    assert_eq!(
        strict.decode(b"SGVsbA==byB3b3JsZA==").err(),
        Some(DecodeError { position: 8, kind: DecodeKind::Padding })
    );
    assert_eq!(
        base64_mime().decode(b"YQ=").err(),
        Some(DecodeError { position: 0, kind: DecodeKind::Length })
    );
}

#[test]
fn arithmetic_decode_errors() {
    assert_eq!(
        base58().decode(b"Cn8e0Zg").err(),
        Some(DecodeError { position: 4, kind: DecodeKind::Symbol })
    );
    let mut output = [0u8; 7];
    assert_eq!(
        base58().decode_mut(b"Cn8eVZ!", &mut output).unwrap_err(),
        DecodePartial {
            read: 6,
            written: 0,
            error: DecodeError { position: 6, kind: DecodeKind::Symbol },
        }
    );
    let huge = [b'z'; 800];
    assert_eq!(
        base58().decode(&huge).err(),
        Some(DecodeError { position: 0, kind: DecodeKind::Overflow })
    );
    let mut tiny = [0u8; 2];
    assert_eq!(
        base58().decode_mut(b"Cn8eVZg", &mut tiny).unwrap_err().error,
        DecodeError { position: 0, kind: DecodeKind::BufferTooSmall }
    );
}

#[test]
fn sizes_pick_the_codec() {
    let mut spec = Specification::new();
    spec.symbols.push_str("123456789ABCDEFGHJKLMNPQRSTUVWXYZabcdefghijkmnopqrstuvwxyz");
    let arithmetic = spec.encoding().unwrap();
    assert!(arithmetic.is_arithmetic());
    assert_eq!(arithmetic.bit(), 0);
    assert_eq!(arithmetic.bit_width(), 6);
    assert_eq!(arithmetic, base58());

    let mut spec = Specification::new();
    spec.symbols
        .push_str("ABCDEFGHIJKLMNOPQRSTUVWXYZabcdefghijklmnopqrstuvwxyz0123456789+/");
    let block = spec.encoding().unwrap();
    assert!(!block.is_arithmetic());
    assert_eq!(block.bit(), 6);
    assert_eq!(block.bit_width(), 6);
    assert_eq!(block, base64_nopad());

    spec.use_arithmetic = true;
    let forced = spec.encoding().unwrap();
    assert!(forced.is_arithmetic());
    let text = forced.encode(b"Hello");
    assert_eq!(forced.decode(text.as_bytes()).unwrap(), b"Hello");
}

fn error_of(spec: &Specification) -> SpecificationErrorImpl {
    match spec.encoding() {
        Ok(_) => panic!("the specification compiles"),
        Err(SpecificationError(e)) => e,
    }
}

#[test]
fn specification_errors() {
    let mut spec = Specification::new();
    assert_eq!(error_of(&spec), SpecificationErrorImpl::BadSize);
    spec.symbols.push_str("0");
    assert_eq!(error_of(&spec), SpecificationErrorImpl::BadSize);
    spec.symbols.push_str("1");
    assert!(spec.encoding().is_ok());

    let mut spec = Specification::new();
    spec.symbols.push_str("0é");
    assert_eq!(error_of(&spec), SpecificationErrorImpl::NotAscii);

    let mut spec = Specification::new();
    spec.symbols.push_str("0120");
    assert_eq!(error_of(&spec), SpecificationErrorImpl::Duplicate(b'0'));

    let mut spec = Specification::new();
    spec.symbols.push_str("0123456789abcdef");
    spec.padding = Some('=');
    assert_eq!(error_of(&spec), SpecificationErrorImpl::ExtraPadding);

    let mut spec = Specification::new();
    spec.symbols.push_str("01234567");
    spec.padding = Some('7');
    assert_eq!(error_of(&spec), SpecificationErrorImpl::Duplicate(b'7'));
    spec.padding = Some('é');
    assert_eq!(error_of(&spec), SpecificationErrorImpl::NotAscii);

    let mut spec = Specification::new();
    spec.symbols.push_str("01234567");
    spec.wrap.width = 7;
    spec.wrap.separator.push_str("\n");
    assert_eq!(error_of(&spec), SpecificationErrorImpl::WrapWidth(8));
    spec.wrap.width = 256;
    assert_eq!(error_of(&spec), SpecificationErrorImpl::WrapLength);
    spec.wrap.width = 8;
    spec.wrap.separator.push_str("0123456789abcde");
    assert_eq!(error_of(&spec), SpecificationErrorImpl::WrapSeparator);

    let mut spec = Specification::new();
    spec.symbols.push_str("01");
    spec.translate.from.push_str("ab");
    spec.translate.to.push_str("0");
    assert_eq!(error_of(&spec), SpecificationErrorImpl::FromTo);
    spec.translate.to.push_str("2");
    assert_eq!(error_of(&spec), SpecificationErrorImpl::Undefined(b'2'));

    let mut spec = Specification::new();
    spec.symbols.push_str("01");
    spec.ignore.push_str(" 1");
    assert_eq!(error_of(&spec), SpecificationErrorImpl::Duplicate(b'1'));
}

#[test]
fn specification_of_an_encoding() {
    let spec = base64_mime().specification();
    assert_eq!(
        spec.symbols,
        "ABCDEFGHIJKLMNOPQRSTUVWXYZabcdefghijklmnopqrstuvwxyz0123456789+/"
    );
    assert_eq!(spec.bit_order, BitOrder::MostSignificantFirst);
    assert!(spec.check_trailing_bits);
    assert_eq!(spec.padding, Some('='));
    assert_eq!(spec.ignore, "\n\r");
    assert_eq!(spec.wrap.width, 76);
    assert_eq!(spec.wrap.separator, "\r\n");
    assert_eq!(spec.translate.from, "");
    assert!(!spec.use_arithmetic);
    assert_eq!(spec.encoding().unwrap(), base64_mime());

    let spec = hexlower_permissive().specification();
    assert_eq!(spec.symbols, "0123456789abcdef");
    assert_eq!(spec.translate.from, "ABCDEF");
    assert_eq!(spec.translate.to, "abcdef");
    assert_eq!(spec.encoding().unwrap(), hexlower_permissive());

    let spec = base58().specification();
    assert!(spec.use_arithmetic);
    assert_eq!(spec.encoding().unwrap(), base58());
    assert_eq!(base32_dnscurve().specification().bit_order, BitOrder::LeastSignificantFirst);
}

#[test]
fn canonical_encodings() {
    assert!(hexlower().is_canonical());
    assert!(base64_nopad().is_canonical());
    assert!(base58().is_canonical());
    assert!(!hexlower_permissive().is_canonical());
    assert!(!base64().is_canonical());
    assert!(!base64_mime().is_canonical());
    assert!(!base64_mime_permissive().is_canonical());
    assert!(!base32_nopad_visual().is_canonical());
}

#[test]
fn alignment() {
    assert_eq!(base58().encode_align(), 1);
    assert_eq!(base64().encode_align(), 4);
    assert_eq!(base32().encode_align(), 8);
    assert_eq!(hexlower().encode_align(), 2);
    assert_eq!(base64_mime().encode_align(), 78);
    assert_eq!(base64().block_len(), (3, 4));
    assert_eq!(base64_mime().block_len(), (57, 78));
}

#[test]
fn ignored_bytes_are_skipped() {
    let mut spec = base64().specification();
    spec.ignore.push_str(" \n");
    let lenient = spec.encoding().unwrap();
    assert!(lenient.has_ignore());
    assert_eq!(lenient.decode(b"SGVs bG8g\nd29y bGQ=\n").unwrap(), b"Hello world");
    assert_eq!(lenient.decode(b"  \n ").unwrap(), b"");
    assert_eq!(
        lenient.decode(b"SGVs bG8!").err(),
        Some(DecodeError { position: 8, kind: DecodeKind::Symbol })
    );
    assert_eq!(
        lenient.decode(b"SGVs bG").err(),
        Some(DecodeError { position: 5, kind: DecodeKind::Length })
    );
    let mut spec = base64_nopad().specification();
    spec.ignore.push_str(" ");
    let lenient = spec.encoding().unwrap();
    assert_eq!(lenient.decode(b"SGVs bG8").unwrap(), b"Hello");
    assert_eq!(
        lenient.decode(b"SGVs b").err(),
        Some(DecodeError { position: 5, kind: DecodeKind::Length })
    );
}

#[test]
fn round_trips() {
    let encodings = [
        hexlower(),
        hexupper(),
        base32(),
        base32_nopad(),
        base32hex(),
        base32hex_nopad(),
        base32_dnssec(),
        base32_dnscurve(),
        base64(),
        base64_nopad(),
        base64_mime(),
        base64url(),
        base64url_nopad(),
        base58(),
        base62(),
    ];
    let mut input = Vec::new();
    for n in 0..200u32 {
        for encoding in encodings.iter() {
            let text = encoding.encode(&input);
            assert!(text.is_ascii());
            assert_eq!(encoding.decode(text.as_bytes()).unwrap(), input);
            if !encoding.is_arithmetic() {
                assert_eq!(text.len(), encoding.encode_len(input.len()).unwrap());
            }
        }
        input.push((n.wrapping_mul(2654435761) >> 13) as u8);
    }
}

#[test]
fn canonical_encodings_decode_only_their_own_texts() {
    let bytes: &[u8] = b"0123456789ABCDEFabcdefghijklmnopqrstuvwxyz+/=_-";
    for encoding in [hexlower(), hexupper(), base32_nopad(), base64_nopad(), base58(), base62()] {
        assert!(encoding.is_canonical());
        let mut accepted = 0;
        for a in bytes {
            for b in bytes {
                for c in bytes {
                    let text = [*a, *b, *c];
                    if let Ok(decoded) = encoding.decode(&text) {
                        assert_eq!(encoding.encode(&decoded).as_bytes(), &text);
                        accepted += 1;
                    }
                    if let Ok(decoded) = encoding.decode(&text[..2]) {
                        assert_eq!(encoding.encode(&decoded).as_bytes(), &text[..2]);
                    }
                }
            }
        }
        if !encoding.is_arithmetic() && encoding.bit() == 4 {
            assert_eq!(accepted, 0);
        }
    }
    // An encoding that reads more than it writes is not canonical.
    assert_eq!(
        base32_nopad_nocase().encode(&base32_nopad_nocase().decode(b"my").unwrap()),
        "MY"
    );
    assert_eq!(base64().encode(&base64().decode(b"Zg==Zg==").unwrap()), "ZmY=");
}

#[test]
fn block_sizes_are_powers_of_two() {
    for n in 0..200usize {
        assert_eq!(is_power_of_two_base(n), [2, 4, 8, 16, 32, 64].contains(&n));
    }
}

#[test]
fn specifications_compile_back_to_their_encodings() {
    let all = [
        hexlower(),
        hexlower_permissive(),
        hexupper(),
        hexupper_permissive(),
        base32(),
        base32_nopad(),
        base32_nopad_nocase(),
        base32_nopad_visual(),
        base32hex(),
        base32hex_nopad(),
        base32_dnssec(),
        base32_dnscurve(),
        base64(),
        base64_nopad(),
        base64_mime(),
        base64_mime_permissive(),
        base64url(),
        base64url_nopad(),
        base58(),
        base62(),
    ];
    for encoding in all.iter() {
        assert_eq!(encoding.specification().encoding().unwrap(), *encoding);
    }
}

#[test]
fn decode_len_is_exact_where_nothing_is_padded_or_skipped() {
    for encoding in [hexlower(), base32_nopad(), base64_nopad(), base64url_nopad(), base32_dnscurve()] {
        for n in 0..40usize {
            let bytes: Vec<u8> = (0..n).map(|i| (i * 37 + 11) as u8).collect();
            let text = encoding.encode(&bytes);
            assert_eq!(encoding.decode_len(text.len()), Ok(n));
        }
    }
    // With padding or with bytes to skip the length is a bound.
    assert_eq!(base64().decode_len(4), Ok(3));
    assert_eq!(base64().decode(b"Zg==").unwrap().len(), 1);
    assert_eq!(base64_mime().decode_len(6), Ok(3));
    assert_eq!(base64_mime().decode(b"Zg==\r\n").unwrap().len(), 1);
}

#[test]
fn specification_errors_describe_themselves() {
    let describe = |e: SpecificationErrorImpl| SpecificationError(e).description();
    assert_eq!(describe(SpecificationErrorImpl::BadSize), "invalid number of symbols");
    assert_eq!(describe(SpecificationErrorImpl::NotAscii), "non-ascii character");
    assert_eq!(describe(SpecificationErrorImpl::Duplicate(b'a')), "conflicting definitions");
    assert_eq!(describe(SpecificationErrorImpl::ExtraPadding), "unnecessary padding");
    assert_eq!(
        describe(SpecificationErrorImpl::WrapLength),
        "invalid wrap width or separator length"
    );
    assert_eq!(describe(SpecificationErrorImpl::WrapSeparator), "invalid wrap separator");
    assert_eq!(describe(SpecificationErrorImpl::WrapWidth(4)), "wrap width mismatch");
    assert_eq!(describe(SpecificationErrorImpl::FromTo), "translate mismatch");
    assert_eq!(describe(SpecificationErrorImpl::Undefined(b'a')), "undefined character");
}
