use data_encoding::predefined::{base32, base64, base64_mime, base64_nopad, hexlower};

#[test]
fn pieces_give_the_text_of_the_whole() {
    let input: Vec<u8> = (0..200u32).map(|n| (n * 37 % 251) as u8).collect();
    for encoding in [base64(), base64_nopad(), base32(), hexlower(), base64_mime()] {
        for step in [1usize, 2, 3, 5, 7, 56, 57, 58, 199, 200] {
            let mut output = String::from("head:");
            {
                let mut encoder = encoding.new_encoder(&mut output);
                for piece in input.chunks(step) {
                    encoder.append(piece);
                }
                encoder.finalize();
            }
            let mut expected = String::from("head:");
            expected.push_str(&encoding.encode(&input));
            assert_eq!(output, expected);
        }
    }
}

#[test]
fn what_is_held_is_encoded_at_the_end() {
    let mut output = String::new();
    let encoding = base64();
    let mut encoder = encoding.new_encoder(&mut output);
    encoder.append(b"fo");
    encoder.append(b"");
    encoder.append(b"ob");
    encoder.finalize();
    encoder.finalize();
    encoder.append(b"a");
    encoder.finalize();
    assert_eq!(output, "Zm9vYg==YQ==");
}

#[test]
fn appending_to_a_string() {
    let mut output = String::from("<");
    base64().encode_append(b"foob", &mut output);
    base64().encode_append(b"", &mut output);
    hexlower().encode_append(&[0xab], &mut output);
    output.push('>');
    assert_eq!(output, "<Zm9vYg==ab>");
}

#[test]
fn a_buffer_takes_whole_units() {
    assert_eq!(base64().chunk_len(1024), 768);
    assert_eq!(base64().chunk_len(3), 0);
    assert_eq!(hexlower().chunk_len(1023), 511);
    assert_eq!(base32().chunk_len(17), 10);
    // A line of 76 symbols and its separator hold 57 bytes.
    assert_eq!(base64_mime().chunk_len(1024), 13 * 57);
    assert_eq!(base64_mime().chunk_len(77), 0);
    assert_eq!(base64_mime().chunk_len(78), 57);
    for encoding in [base64(), base64_mime(), hexlower(), base32()] {
        let input: Vec<u8> = (0..1000u32).map(|i| (i * 7 + 3) as u8).collect();
        for room in [78usize, 100, 510, 1024] {
            let step = encoding.chunk_len(room);
            let mut text = String::new();
            for chunk in input.chunks(step) {
                assert!(encoding.encode_len(chunk.len()).unwrap() <= room);
                text.push_str(&encoding.encode(chunk));
            }
            assert_eq!(text, encoding.encode(&input));
        }
    }
}
