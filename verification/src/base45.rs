//! Base45 as RFC 9285 has it: two bytes are three symbols of an alphabet of 45, a
//! last single byte is two. The least significant symbol comes first.
use crate::block::written_at;
use crate::text::{ascii_chars, ascii_string, is_ascii};
use vstd::prelude::*;

verus! {

/// How many symbols the alphabet has.
pub const SIZE: u32 = 45;

/// The square of the size of the alphabet.
pub const SIZE_SIZE: u32 = 2025;

/// What can go wrong when encoding.
#[derive(Debug, Clone, Copy, PartialEq, Eq, Structural)]
pub enum EncodeError {
    /// The output buffer is too small for the text.
    BufferTooSmall,
}

/// What can go wrong when decoding.
#[derive(Debug, Clone, Copy, PartialEq, Eq, Structural)]
pub enum DecodeError {
    /// The text has a length that no text has: one symbol more than whole triples.
    InvalidLength,
    /// The text holds a byte that is no symbol.
    InvalidCharacter,
    /// Three symbols spell more than two bytes hold, or two more than one holds.
    OutOfRange,
    /// The output buffer is too small for the bytes.
    BufferTooSmall,
}

/// The symbol of a value: the digits, the letters from A to Z, and then
/// ` $%*+-./:`.
pub open spec fn symbol_of(v: nat) -> u8 {
    if v < 10 {
        (48 + v) as u8
    } else if v < 36 {
        (55 + v) as u8
    } else if v == 36 {
        32
    } else if v == 37 {
        36
    } else if v == 38 {
        37
    } else if v == 39 {
        42
    } else if v == 40 {
        43
    } else if v == 41 {
        45
    } else if v == 42 {
        46
    } else if v == 43 {
        47
    } else {
        58
    }
}

/// The value of a symbol, or nothing where the byte is no symbol.
pub open spec fn value_of(c: u8) -> Option<u8> {
    if 48 <= c <= 57 {
        Some((c - 48) as u8)
    } else if 65 <= c <= 90 {
        Some((c - 55) as u8)
    } else if c == 32 {
        Some(36)
    } else if c == 36 {
        Some(37)
    } else if c == 37 {
        Some(38)
    } else if c == 42 {
        Some(39)
    } else if c == 43 {
        Some(40)
    } else if c == 45 {
        Some(41)
    } else if c == 46 {
        Some(42)
    } else if c == 47 {
        Some(43)
    } else if c == 58 {
        Some(44)
    } else {
        None
    }
}

/// The symbol of a value, or nothing where the value is 45 or more.
pub fn symbol(v: u8) -> (r: Option<u8>)
    ensures
        r == if v < 45 {
            Some(symbol_of(v as nat))
        } else {
            None
        },
{
    if v < 10 {
        Some(48 + v)
    } else if v < 36 {
        Some(55 + v)
    } else {
        match v {
            36 => Some(32),
            37 => Some(36),
            38 => Some(37),
            39 => Some(42),
            40 => Some(43),
            41 => Some(45),
            42 => Some(46),
            43 => Some(47),
            44 => Some(58),
            _ => None,
        }
    }
}

/// The value of a symbol, or nothing where the byte is no symbol.
pub fn value(c: u8) -> (r: Option<u8>)
    ensures
        r == value_of(c),
{
    if 48 <= c && c <= 57 {
        Some(c - 48)
    } else if 65 <= c && c <= 90 {
        Some(c - 55)
    } else {
        match c {
            32 => Some(36),
            36 => Some(37),
            37 => Some(38),
            42 => Some(39),
            43 => Some(40),
            45 => Some(41),
            46 => Some(42),
            47 => Some(43),
            58 => Some(44),
            _ => None,
        }
    }
}

/// The symbol of a value below 45.
fn ae(v: u8) -> (r: u8)
    requires
        v < 45,
    ensures
        r == symbol_of(v as nat),
{
    match symbol(v) {
        Some(c) => c,
        None => vstd::pervasive::unreached(),
    }
}

/// How long the text of `n` bytes is.
pub open spec fn encoded_len(n: nat) -> nat {
    n + (n + 1) / 2
}

/// The text of `input`.
pub open spec fn encoded(input: Seq<u8>) -> Seq<u8>
    decreases input.len(),
{
    if input.len() == 0 {
        Seq::empty()
    } else if input.len() == 1 {
        let v = input[0] as nat;
        seq![symbol_of(v % 45), symbol_of(v / 45)]
    } else {
        let v = input[0] as nat * 256 + input[1] as nat;
        seq![symbol_of(v % 45), symbol_of((v % 2025) / 45), symbol_of(v / 2025)] + encoded(
            input.subrange(2, input.len() as int),
        )
    }
}

/// What decoding a text gave: the bytes decoded before it ended or failed, and
/// the failure if there was one.
pub struct Decoded {
    /// The bytes that were decoded.
    pub bytes: Seq<u8>,
    /// What stopped the decoding, if anything did.
    pub failure: Option<DecodeError>,
}

/// What decoding the symbols of `text` gives, triple by triple, behind the bytes
/// `acc` that were decoded before. The length of the text is in order.
pub open spec fn decoded_from(text: Seq<u8>, acc: Seq<u8>) -> Decoded
    decreases text.len(),
{
    if text.len() < 2 {
        Decoded { bytes: acc, failure: None }
    } else if value_of(text[0]) is None || value_of(text[1]) is None {
        Decoded { bytes: acc, failure: Some(DecodeError::InvalidCharacter) }
    } else if text.len() == 2 {
        let v = value_of(text[0])->Some_0 as nat + value_of(text[1])->Some_0 as nat * 45;
        if v > 255 {
            Decoded { bytes: acc, failure: Some(DecodeError::OutOfRange) }
        } else {
            Decoded { bytes: acc.push(v as u8), failure: None }
        }
    } else if value_of(text[2]) is None {
        Decoded { bytes: acc, failure: Some(DecodeError::InvalidCharacter) }
    } else {
        let v = value_of(text[0])->Some_0 as nat + value_of(text[1])->Some_0 as nat * 45
            + value_of(text[2])->Some_0 as nat * 2025;
        if v > 65535 {
            Decoded { bytes: acc, failure: Some(DecodeError::OutOfRange) }
        } else {
            decoded_from(
                text.subrange(3, text.len() as int),
                acc.push((v / 256) as u8).push((v % 256) as u8),
            )
        }
    }
}

/// How many bytes a text of `n` symbols gives.
pub open spec fn decoded_len(n: nat) -> nat {
    n / 3 * 2 + if n % 3 == 2 {
        1nat
    } else {
        0nat
    }
}

/// What decoding `text` into a buffer of `room` bytes gives.
pub open spec fn decoded(text: Seq<u8>, room: nat) -> Decoded {
    if text.len() == 0 {
        Decoded { bytes: Seq::empty(), failure: None }
    } else if text.len() % 3 == 1 {
        Decoded { bytes: Seq::empty(), failure: Some(DecodeError::InvalidLength) }
    } else if room < decoded_len(text.len()) {
        Decoded { bytes: Seq::empty(), failure: Some(DecodeError::BufferTooSmall) }
    } else {
        decoded_from(text, Seq::empty())
    }
}

/// A text has three symbols for every two bytes, and two for a last single one.
pub proof fn lemma_encoded_len(input: Seq<u8>)
    ensures
        encoded(input).len() == encoded_len(input.len()),
    decreases input.len(),
{
    if input.len() >= 2 {
        lemma_encoded_len(input.subrange(2, input.len() as int));
    }
}

/// A text is ASCII.
pub proof fn lemma_encoded_ascii(input: Seq<u8>)
    ensures
        is_ascii(encoded(input)),
    decreases input.len(),
{
    let out = encoded(input);
    if input.len() >= 2 {
        let rest = encoded(input.subrange(2, input.len() as int));
        lemma_encoded_ascii(input.subrange(2, input.len() as int));
        assert forall|i: int| 0 <= i < out.len() implies #[trigger] out[i] < 128 by {
            if i >= 3 {
                assert(out[i] == rest[i - 3]);
                assert(rest[i - 3] < 128);
            }
        }
    }
}

/// The symbol of a value has that value.
pub proof fn lemma_value_of_symbol(v: nat)
    requires
        v < 45,
    ensures
        value_of(symbol_of(v)) == Some(v as u8),
{
}

/// A whole triple gives two bytes and a pair gives one, as far as they decode.
pub proof fn lemma_decoded_from_len(text: Seq<u8>, acc: Seq<u8>)
    requires
        text.len() % 3 != 1,
    ensures
        decoded_from(text, acc).bytes.len() <= acc.len() + decoded_len(text.len()),
        decoded_from(text, acc).failure is None ==> decoded_from(text, acc).bytes.len()
            == acc.len() + decoded_len(text.len()),
        decoded_from(text, acc).bytes.len() >= acc.len(),
        decoded_from(text, acc).bytes.subrange(0, acc.len() as int) == acc,
    decreases text.len(),
{
    let out = decoded_from(text, acc).bytes;
    if text.len() >= 3 {
        let rest = text.subrange(3, text.len() as int);
        if value_of(text[0]) is Some && value_of(text[1]) is Some && value_of(text[2]) is Some {
            let v = value_of(text[0])->Some_0 as nat + value_of(text[1])->Some_0 as nat * 45
                + value_of(text[2])->Some_0 as nat * 2025;
            if v <= 65535 {
                let next = acc.push((v / 256) as u8).push((v % 256) as u8);
                lemma_decoded_from_len(rest, next);
                assert(out.subrange(0, acc.len() as int) =~= acc) by {
                    assert forall|i: int| 0 <= i < acc.len() implies out[i] == acc[i] by {
                        assert(out.subrange(0, next.len() as int)[i] == next[i]);
                    }
                }
            } else {
                assert(out.subrange(0, acc.len() as int) =~= acc);
            }
        } else {
            assert(out.subrange(0, acc.len() as int) =~= acc);
        }
    } else {
        assert(out.subrange(0, acc.len() as int) =~= acc);
    }
}

/// The three digits of two bytes spell them.
proof fn lemma_digits(v: nat)
    requires
        v <= 65535,
    ensures
        v % 45 < 45,
        (v % 2025) / 45 < 45,
        v / 2025 < 45,
        v % 45 + ((v % 2025) / 45) * 45 + (v / 2025) * 2025 == v,
        v <= 255 ==> v / 45 < 45 && v % 45 + (v / 45) * 45 == v,
{
    assert((v % 2025) % 45 == v % 45) by {
        vstd::arithmetic::div_mod::lemma_mod_mod(v as int, 45, 45);
    }
}

/// Symbols of values decode to the values.
proof fn lemma_step(c: nat, d: nat, e: nat, text: Seq<u8>, acc: Seq<u8>)
    requires
        c < 45,
        d < 45,
        e < 45,
        c + d * 45 + e * 2025 <= 65535,
        text.len() >= 3,
        text[0] == symbol_of(c),
        text[1] == symbol_of(d),
        text[2] == symbol_of(e),
    ensures
        decoded_from(text, acc) == decoded_from(
            text.subrange(3, text.len() as int),
            acc.push(((c + d * 45 + e * 2025) / 256) as u8).push(
                ((c + d * 45 + e * 2025) % 256) as u8,
            ),
        ),
{
    lemma_value_of_symbol(c);
    lemma_value_of_symbol(d);
    lemma_value_of_symbol(e);
}

/// Decoding the text of an input gives the input back.
pub proof fn lemma_round_trip_from(input: Seq<u8>, acc: Seq<u8>)
    ensures
        decoded_from(encoded(input), acc) == (Decoded { bytes: acc + input, failure: None }),
    decreases input.len(),
{
    let text = encoded(input);
    if input.len() == 0 {
        assert(acc + input =~= acc);
    } else if input.len() == 1 {
        let v = input[0] as nat;
        lemma_digits(v);
        lemma_value_of_symbol(v % 45);
        lemma_value_of_symbol(v / 45);
        assert(text[0] == symbol_of(v % 45) && text[1] == symbol_of(v / 45));
        assert(acc.push(v as u8) =~= acc + input);
    } else {
        let v = input[0] as nat * 256 + input[1] as nat;
        let rest = input.subrange(2, input.len() as int);
        lemma_digits(v);
        let c = v % 45;
        let d = (v % 2025) / 45;
        let e = v / 2025;
        assert(text[0] == symbol_of(c) && text[1] == symbol_of(d) && text[2] == symbol_of(e));
        assert(text.subrange(3, text.len() as int) =~= encoded(rest));
        lemma_step(c, d, e, text, acc);
        let next = acc.push((v / 256) as u8).push((v % 256) as u8);
        lemma_round_trip_from(rest, next);
        assert(next + rest =~= acc + input);
    }
}

/// Decoding the text of an input gives the input back.
pub proof fn lemma_round_trip(input: Seq<u8>)
    ensures
        decoded(encoded(input), input.len()) == (Decoded { bytes: input, failure: None }),
        decoded_len(encoded(input).len()) == input.len(),
{
    lemma_encoded_len(input);
    lemma_round_trip_from(input, Seq::empty());
    assert(Seq::<u8>::empty() + input =~= input);
    if input.len() == 0 {
        assert(input =~= Seq::<u8>::empty());
    }
}

/// Encodes `input` into the front of `output` and returns the length of the text.
/// Fails, and leaves `output` as it is, where the text does not fit.
pub fn encode_to_buffer(input: &[u8], output: &mut [u8]) -> (r: Result<usize, EncodeError>)
    ensures
        r is Ok <==> encoded_len(input@.len()) <= old(output)@.len(),
        r matches Ok(n) ==> n == encoded_len(input@.len()) && written_at(
            old(output)@,
            final(output)@,
            0,
            encoded(input@),
        ),
        r is Err ==> final(output)@ == old(output)@,
{
    let n = input.len();
    let total = output.len();
    let required = match n.checked_add(n / 2 + n % 2) {
        Some(len) => len,
        None => {
            return Err(EncodeError::BufferTooSmall);
        },
    };
    if total < required {
        return Err(EncodeError::BufferTooSmall);
    }
    let mut i: usize = 0;
    let mut out_idx: usize = 0;
    proof {
        assert(input@.subrange(0, n as int) =~= input@);
        assert(output@.subrange(0, 0) =~= Seq::<u8>::empty());
        lemma_encoded_len(input@);
    }
    while n - i >= 2
        invariant
            i <= n,
            n == input@.len(),
            total == output@.len(),
            output@.len() == old(output)@.len(),
            required == encoded_len(n as nat),
            required <= total,
            i % 2 == 0,
            out_idx == i / 2 * 3,
            out_idx + encoded_len((n - i) as nat) == required,
            output@.subrange(0, out_idx as int) + encoded(input@.subrange(i as int, n as int))
                == encoded(input@),
            forall|j: int| out_idx <= j < total ==> output@[j] == old(output)@[j],
        decreases n - i,
    {
        let v: u32 = (input[i] as u32) * 256 + input[i + 1] as u32;
        let e = v / SIZE_SIZE;
        let rest = v % SIZE_SIZE;
        let d = rest / SIZE;
        let c = v % SIZE;
        let ghost before = output@;
        let ghost tail = input@.subrange(i as int, n as int);
        proof {
            assert(tail[0] == input@[i as int] && tail[1] == input@[i + 1]);
            assert(tail.subrange(2, tail.len() as int) =~= input@.subrange(i + 2, n as int));
        }
        output[out_idx] = ae(c as u8);
        output[out_idx + 1] = ae(d as u8);
        output[out_idx + 2] = ae(e as u8);
        proof {
            let triple = seq![
                symbol_of((v % 45) as nat),
                symbol_of(((v % 2025) / 45) as nat),
                symbol_of((v / 2025) as nat),
            ];
            assert(output@.subrange(0, out_idx + 3) =~= before.subrange(0, out_idx as int)
                + triple);
            assert(before.subrange(0, out_idx as int) + (triple + encoded(
                input@.subrange(i + 2, n as int),
            )) =~= (before.subrange(0, out_idx as int) + triple) + encoded(
                input@.subrange(i + 2, n as int),
            ));
        }
        i += 2;
        out_idx += 3;
    }
    if i < n {
        let v: u32 = input[i] as u32;
        let d = v / SIZE;
        let c = v % SIZE;
        let ghost before = output@;
        let ghost tail = input@.subrange(i as int, n as int);
        proof {
            assert(tail[0] == input@[i as int]);
        }
        output[out_idx] = ae(c as u8);
        output[out_idx + 1] = ae(d as u8);
        proof {
            let pair = seq![symbol_of((v % 45) as nat), symbol_of((v / 45) as nat)];
            assert(output@.subrange(0, out_idx + 2) =~= before.subrange(0, out_idx as int) + pair);
        }
        out_idx += 2;
    } else {
        proof {
            let none = encoded(input@.subrange(i as int, n as int));
            assert(output@.subrange(0, out_idx as int) + none =~= output@.subrange(
                0,
                out_idx as int,
            ));
        }
    }
    Ok(out_idx)
}

/// The text of `input` as a string. The text must have a length that a `usize`
/// holds.
pub fn encode(input: &[u8]) -> (s: String)
    requires
        encoded_len(input@.len()) <= usize::MAX,
    ensures
        s@ == ascii_chars(encoded(input@)),
{
    let n = input.len();
    let len = n + (n / 2 + n % 2);
    let mut buffer: Vec<u8> = vec![0u8; len];
    proof {
        lemma_encoded_len(input@);
        lemma_encoded_ascii(input@);
    }
    match encode_to_buffer(input, buffer.as_mut_slice()) {
        Ok(_) => {},
        Err(_) => {},
    }
    proof {
        assert(buffer@ =~= encoded(input@));
    }
    ascii_string(buffer)
}

/// Decodes `input` into the front of `output` and returns how many bytes it gave.
/// On a failure the bytes that were decoded before it stand in `output`.
pub fn decode_to_buffer(input: &[u8], output: &mut [u8]) -> (r: Result<usize, DecodeError>)
    ensures
        match decoded(input@, old(output)@.len()).failure {
            None => r == Ok::<usize, DecodeError>(
                decoded(input@, old(output)@.len()).bytes.len() as usize,
            ),
            Some(e) => r == Err::<usize, DecodeError>(e),
        },
        written_at(old(output)@, final(output)@, 0, decoded(input@, old(output)@.len()).bytes),
{
    let n = input.len();
    let total = output.len();
    proof {
        assert(output@.subrange(0, 0) =~= Seq::<u8>::empty());
    }
    if n == 0 {
        return Ok(0);
    }
    if n % 3 == 1 {
        return Err(DecodeError::InvalidLength);
    }
    let required = n / 3 * 2 + if n % 3 == 2 {
        1
    } else {
        0
    };
    if total < required {
        return Err(DecodeError::BufferTooSmall);
    }
    let mut i: usize = 0;
    let mut out_idx: usize = 0;
    proof {
        assert(input@.subrange(0, n as int) =~= input@);
    }
    while n - i >= 3
        invariant
            i <= n,
            n == input@.len(),
            n % 3 != 1,
            i % 3 == 0,
            total == output@.len(),
            output@.len() == old(output)@.len(),
            required == decoded_len(n as nat),
            required <= total,
            out_idx == i / 3 * 2,
            out_idx + decoded_len((n - i) as nat) == required,
            decoded_from(input@, Seq::empty()) == decoded_from(
                input@.subrange(i as int, n as int),
                output@.subrange(0, out_idx as int),
            ),
            forall|j: int| out_idx <= j < total ==> output@[j] == old(output)@[j],
        decreases n - i,
    {
        let ghost tail = input@.subrange(i as int, n as int);
        let ghost acc = output@.subrange(0, out_idx as int);
        proof {
            assert(tail[0] == input@[i as int] && tail[1] == input@[i + 1] && tail[2] == input@[i
                + 2]);
            assert(tail.subrange(3, tail.len() as int) =~= input@.subrange(i + 3, n as int));
        }
        let c = match value(input[i]) {
            Some(x) => x,
            None => {
                return Err(DecodeError::InvalidCharacter);
            },
        };
        let d = match value(input[i + 1]) {
            Some(x) => x,
            None => {
                return Err(DecodeError::InvalidCharacter);
            },
        };
        let e = match value(input[i + 2]) {
            Some(x) => x,
            None => {
                return Err(DecodeError::InvalidCharacter);
            },
        };
        let v: u32 = c as u32 + (d as u32) * SIZE + (e as u32) * SIZE_SIZE;
        if v > 65535 {
            return Err(DecodeError::OutOfRange);
        }
        output[out_idx] = (v / 256) as u8;
        output[out_idx + 1] = (v % 256) as u8;
        proof {
            assert(output@.subrange(0, out_idx + 2) =~= acc.push((v / 256) as u8).push(
                (v % 256) as u8,
            ));
        }
        i += 3;
        out_idx += 2;
    }
    if i < n {
        let ghost tail = input@.subrange(i as int, n as int);
        let ghost acc = output@.subrange(0, out_idx as int);
        proof {
            assert(tail[0] == input@[i as int] && tail[1] == input@[i + 1]);
        }
        let c = match value(input[i]) {
            Some(x) => x,
            None => {
                return Err(DecodeError::InvalidCharacter);
            },
        };
        let d = match value(input[i + 1]) {
            Some(x) => x,
            None => {
                return Err(DecodeError::InvalidCharacter);
            },
        };
        let v: u32 = c as u32 + (d as u32) * SIZE;
        if v > 255 {
            return Err(DecodeError::OutOfRange);
        }
        output[out_idx] = v as u8;
        proof {
            assert(output@.subrange(0, out_idx + 1) =~= acc.push(v as u8));
        }
        out_idx += 1;
    }
    Ok(out_idx)
}

/// Decodes `input`.
pub fn decode(input: &[u8]) -> (r: Result<Vec<u8>, DecodeError>)
    ensures
        match decoded(input@, decoded_len(input@.len())).failure {
            None => r is Ok && r->Ok_0@ == decoded(input@, decoded_len(input@.len())).bytes,
            Some(e) => r == Err::<Vec<u8>, DecodeError>(e),
        },
{
    let n = input.len();
    if n == 0 {
        return Ok(Vec::new());
    }
    if n % 3 == 1 {
        return Err(DecodeError::InvalidLength);
    }
    let required = n / 3 * 2 + if n % 3 == 2 {
        1
    } else {
        0
    };
    let mut output: Vec<u8> = vec![0u8; required];
    match decode_to_buffer(input, output.as_mut_slice()) {
        Ok(len) => {
            output.truncate(len);
            proof {
                lemma_decoded_from_len(input@, Seq::empty());
            }
            Ok(output)
        },
        Err(e) => Err(e),
    }
}

} // verus!
