use data_encoding::block::{decode_block, encode_block};
use data_encoding::error::{DecodeError, DecodeKind};
use data_encoding::predefined::{base64, base64_mime, base64_nopad, hexlower, hexupper};
use data_encoding::wide::{decode_wide, encode_wide};

fn sample(n: usize) -> Vec<u8> {
    let mut state: u32 = 0x2545_f491;
    (0..n)
        .map(|_| {
            state = state.wrapping_mul(1_664_525).wrapping_add(1_013_904_223);
            (state >> 24) as u8
        })
        .collect()
}

fn block_by_block(bit: usize, sym: &[u8; 256], input: &[u8]) -> Vec<u8> {
    let (d, e) = if bit == 4 { (1, 2) } else { (3, 4) };
    let mut output = vec![0u8; input.len() / d * e];
    for (i, block) in input.chunks_exact(d).enumerate() {
        encode_block(bit, true, sym, block, &mut output, i * e, e);
    }
    output
}

#[test]
fn wide_hexadecimal_is_the_codec_block_by_block() {
    let encoding = hexlower();
    for n in 0..100 {
        let input = sample(n);
        let mut output = vec![b'#'; 2 * n + 3];
        let read = encode_wide(4, encoding.sym(), &input, &mut output, 3);
        assert_eq!(read, n / 16 * 16);
        assert_eq!(&output[..3], b"###");
        assert_eq!(&output[3..3 + 2 * read], &block_by_block(4, encoding.sym(), &input[..read])[..]);
        assert!(output[3 + 2 * read..].iter().all(|&x| x == b'#'));
    }
}

#[test]
fn wide_base64_is_the_codec_block_by_block() {
    let encoding = base64();
    for n in 0..100 {
        let input = sample(n);
        let mut output = vec![b'#'; (8 * n + 5) / 6 + 1];
        let read = encode_wide(6, encoding.sym(), &input, &mut output, 1);
        assert_eq!(read, n / 12 * 12);
        assert_eq!(output[0], b'#');
        assert_eq!(
            &output[1..1 + read / 3 * 4],
            &block_by_block(6, encoding.sym(), &input[..read])[..]
        );
        assert!(output[1 + read / 3 * 4..].iter().all(|&x| x == b'#'));
    }
}

#[test]
fn wide_encoding_of_known_bytes() {
    let input: Vec<u8> = (0u8..16).map(|i| i * 17).collect();
    let mut output = [0u8; 32];
    assert_eq!(encode_wide(4, hexupper().sym(), &input, &mut output, 0), 16);
    assert_eq!(&output, b"00112233445566778899AABBCCDDEEFF");
    let mut output = [0u8; 16];
    assert_eq!(encode_wide(6, base64().sym(), b"Hello world!", &mut output, 0), 12);
    assert_eq!(&output, b"SGVsbG8gd29ybGQh");
}

#[test]
fn wide_decoding_is_the_codec_block_by_block() {
    for (bit, encoding) in [(4usize, hexlower()), (6usize, base64_nopad())] {
        let (d, e, vector) = if bit == 4 { (1, 2, 32) } else { (3, 4, 16) };
        for blocks in 0..40 {
            let bytes = sample(blocks * d);
            let text = encoding.encode(&bytes).into_bytes();
            let mut output = vec![b'#'; bytes.len()];
            let read = decode_wide(bit, encoding.val(), None, &text, &mut output);
            assert_eq!(read, text.len() / vector * vector);
            let written = read / e * d;
            let mut expected = vec![0u8; written];
            for (i, block) in text[..read].chunks_exact(e).enumerate() {
                let mut bytes = [0u8; 8];
                assert_eq!(decode_block(bit, true, encoding.val(), block, e, &mut bytes), Ok(()));
                expected[i * d..(i + 1) * d].copy_from_slice(&bytes[..d]);
            }
            assert_eq!(&output[..written], &expected[..]);
            assert_eq!(&output[..written], &bytes[..written]);
            assert!(output[written..].iter().all(|&x| x == b'#'));
        }
    }
}

#[test]
fn wide_decoding_stops_before_a_vector_with_another_byte() {
    let text = hexlower().encode(&sample(48)).into_bytes();
    for at in 0..text.len() {
        let mut spoiled = text.clone();
        spoiled[at] = b'g';
        let mut output = vec![0u8; 48];
        let read = decode_wide(4, hexlower().val(), None, &spoiled, &mut output);
        assert_eq!(read, at / 32 * 32);
        assert_eq!(&output[..read / 2], &sample(48)[..read / 2]);
    }
    let text = base64().encode(&sample(36)).into_bytes();
    for at in 0..text.len() {
        let mut padded = text.clone();
        padded[at] = b'=';
        let mut output = vec![0u8; 36];
        assert_eq!(decode_wide(6, base64().val(), Some(b'='), &padded, &mut output), at / 16 * 16);
        let mut high = text.clone();
        high[at] = 0xc3;
        assert_eq!(decode_wide(6, base64().val(), Some(b'='), &high, &mut output), at / 16 * 16);
    }
}

#[test]
fn a_wrong_symbol_is_found_where_it_stands() {
    let bytes = sample(60);
    let text = hexlower().encode(&bytes).into_bytes();
    for at in 0..text.len() {
        let mut spoiled = text.clone();
        spoiled[at] = b'x';
        assert_eq!(
            hexlower().decode(&spoiled),
            Err(DecodeError { position: at, kind: DecodeKind::Symbol })
        );
        let mut output = vec![0u8; 60];
        let partial = hexlower().decode_mut(&spoiled, &mut output).unwrap_err();
        assert_eq!(partial.read, at / 2 * 2);
        assert_eq!(partial.written, at / 2);
        assert_eq!(&output[..at / 2], &bytes[..at / 2]);
    }
    let text = base64().encode(&bytes).into_bytes();
    for at in 0..text.len() {
        let mut spoiled = text.clone();
        spoiled[at] = b'!';
        assert_eq!(
            base64().decode(&spoiled),
            Err(DecodeError { position: at, kind: DecodeKind::Symbol })
        );
        let mut output = vec![0u8; 60];
        let partial = base64().decode_mut(&spoiled, &mut output).unwrap_err();
        assert_eq!(partial.read, at / 4 * 4);
        assert_eq!(partial.written, at / 4 * 3);
        assert_eq!(&output[..at / 4 * 3], &bytes[..at / 4 * 3]);
    }
}

#[test]
fn long_inputs_round_trip() {
    for n in 0..200 {
        let bytes = sample(n);
        let hex: String = bytes.iter().map(|b| format!("{:02x}", b)).collect();
        assert_eq!(hexlower().encode(&bytes), hex);
        assert_eq!(hexlower().decode(hex.as_bytes()).unwrap(), bytes);
        assert_eq!(hexupper().decode(hex.to_uppercase().as_bytes()).unwrap(), bytes);
        for encoding in [base64(), base64_nopad(), base64_mime()] {
            let text = encoding.encode(&bytes);
            assert_eq!(text.len(), encoding.encode_len(n).unwrap());
            assert_eq!(encoding.decode(text.as_bytes()).unwrap(), bytes);
        }
    }
}

#[test]
fn padding_between_vectors_is_read_block_by_block() {
    let text = b"SGVsbG8gd29ybGQhSGVsbA==SGVsbG8gd29ybGQhSGVsbG8gd29ybGQh";
    assert_eq!(
        base64().decode(text).unwrap(),
        b"Hello world!HellHello world!Hello world!".to_vec()
    );
}
