//! The quick way through hexadecimal and base 64 with the most significant bit
//! first: sixteen bytes or symbols at a time, by plain arithmetic on whole bytes.
//! It gives what the way block by block gives.
use crate::block::{
    base_len, block_bytes, block_number, block_symbols, block_values, bytes_at, data_len, dec_of,
    decode_block_result, decode_from, decode_room, decode_spec, enc_of, encode_base_spec, gather,
    is_byte, is_ignored, is_symbol, lemma_base_len_monotonic, lemma_base_len_step,
    lemma_block_shape, lemma_decode_ok, lemma_encode_base_append, lemma_encode_base_len,
    lemma_prefix_len_is, lemma_written_at_then, next_sig, not_byte, prefix_len, Rules, symbol_pred,
    valid_bit, values_number, values_of, written_at,
};
use crate::error::DecodeKind;
use crate::radix::{
    be_digits, be_value, lemma_be_digits_len, lemma_be_value_push, lemma_be_value_single, repeat,
};
use vstd::prelude::*;

verus! {

/// The two symbols of a byte in hexadecimal are its two halves.
pub proof fn lemma_hex_values(b: u8)
    ensures
        block_values(4, true, seq![b]) == seq![b / 16, b % 16],
{
    lemma_block_shape(4);
    lemma_be_value_single(b, 256);
    assert(seq![b] + repeat(0, 0) =~= seq![b]);
    assert(block_number(4, true, seq![b]) == b as nat);
    reveal_with_fuel(be_digits, 3);
    assert(be_digits(b as nat, 16, 2) =~= seq![b / 16, b % 16]);
}

/// The four least significant digits of a number in radix 64.
proof fn lemma_four_sixes(n: nat)
    requires
        n < 16777216,
    ensures
        be_digits(n, 64, 4) == seq![
            (n / 262144) as u8,
            (n / 4096 % 64) as u8,
            (n / 64 % 64) as u8,
            (n % 64) as u8,
        ],
{
    reveal_with_fuel(be_digits, 5);
    assert(n / 64 / 64 == n / 4096 && n / 64 / 64 / 64 == n / 262144);
    assert(be_digits(n, 64, 4) =~= seq![
        (n / 262144) as u8,
        (n / 4096 % 64) as u8,
        (n / 64 % 64) as u8,
        (n % 64) as u8,
    ]);
}

/// The number that three bytes spell.
proof fn lemma_three_digits(a: u8, b: u8, c: u8)
    ensures
        be_value(seq![a, b, c], 256) == a as nat * 65536 + b as nat * 256 + c as nat,
{
    lemma_be_value_single(a, 256);
    lemma_be_value_push(seq![a], b, 256);
    lemma_be_value_push(seq![a, b], c, 256);
    assert(seq![a].push(b) =~= seq![a, b]);
    assert(seq![a, b].push(c) =~= seq![a, b, c]);
}

/// The four symbols of three bytes in base 64 are the four digits of their
/// number.
pub proof fn lemma_base64_values(a: u8, b: u8, c: u8)
    ensures
        ({
            let n = a as nat * 65536 + b as nat * 256 + c as nat;
            block_values(6, true, seq![a, b, c]) == seq![
                (n / 262144) as u8,
                (n / 4096 % 64) as u8,
                (n / 64 % 64) as u8,
                (n % 64) as u8,
            ]
        }),
{
    let n = a as nat * 65536 + b as nat * 256 + c as nat;
    lemma_block_shape(6);
    lemma_three_digits(a, b, c);
    assert(seq![a, b, c] + repeat(0, 0) =~= seq![a, b, c]);
    assert(block_number(6, true, seq![a, b, c]) == n);
    lemma_four_sixes(n);
}

/// The byte of two hexadecimal digits.
pub proof fn lemma_hex_byte(h: u8, l: u8)
    requires
        h < 16,
        l < 16,
    ensures
        block_bytes(4, true, seq![h, l]) == seq![(h * 16 + l) as u8],
{
    lemma_block_shape(4);
    lemma_be_value_single(h, 16);
    lemma_be_value_push(seq![h], l, 16);
    assert(seq![h].push(l) =~= seq![h, l]);
    assert(values_number(4, true, seq![h, l]) == h * 16 + l);
    reveal_with_fuel(be_digits, 2);
    assert(be_digits((h * 16 + l) as nat, 256, 1) =~= seq![(h * 16 + l) as u8]);
}

/// The three least significant digits of a number in radix 256.
proof fn lemma_three_bytes(n: nat)
    requires
        n < 16777216,
    ensures
        be_digits(n, 256, 3) == seq![(n / 65536) as u8, (n / 256 % 256) as u8, (n % 256) as u8],
{
    reveal_with_fuel(be_digits, 4);
    assert(n / 256 / 256 == n / 65536);
    assert(be_digits(n, 256, 3) =~= seq![
        (n / 65536) as u8,
        (n / 256 % 256) as u8,
        (n % 256) as u8,
    ]);
}

/// The number that four digits of base 64 spell.
proof fn lemma_four_digits(a: u8, b: u8, c: u8, d: u8)
    ensures
        be_value(seq![a, b, c, d], 64) == a as nat * 262144 + b as nat * 4096 + c as nat * 64
            + d as nat,
{
    lemma_be_value_single(a, 64);
    lemma_be_value_push(seq![a], b, 64);
    lemma_be_value_push(seq![a, b], c, 64);
    lemma_be_value_push(seq![a, b, c], d, 64);
    assert(seq![a].push(b) =~= seq![a, b]);
    assert(seq![a, b].push(c) =~= seq![a, b, c]);
    assert(seq![a, b, c].push(d) =~= seq![a, b, c, d]);
}

/// The three bytes of four digits of base 64.
pub proof fn lemma_base64_bytes(a: u8, b: u8, c: u8, d: u8)
    requires
        a < 64,
        b < 64,
        c < 64,
        d < 64,
    ensures
        ({
            let n = a as nat * 262144 + b as nat * 4096 + c as nat * 64 + d as nat;
            block_bytes(6, true, seq![a, b, c, d]) == seq![
                (n / 65536) as u8,
                (n / 256 % 256) as u8,
                (n % 256) as u8,
            ]
        }),
{
    let n = a as nat * 262144 + b as nat * 4096 + c as nat * 64 + d as nat;
    lemma_block_shape(6);
    lemma_four_digits(a, b, c, d);
    lemma_three_bytes(n);
}

/// How many bytes the quick way takes at a time.
pub open spec fn vector_of(bit: nat) -> nat {
    if bit == 4 {
        16
    } else {
        12
    }
}

/// One more block: its symbols behind those of the blocks before.
proof fn lemma_block_step(
    bit: nat,
    old: Seq<u8>,
    before: Seq<u8>,
    after: Seq<u8>,
    at: int,
    sym: Seq<u8>,
    input: Seq<u8>,
    k: int,
    o: int,
)
    requires
        bit == 4 || bit == 6,
        0 <= k,
        k % (dec_of(bit) as int) == 0,
        k + dec_of(bit) <= input.len(),
        o == at + base_len(bit, k as nat),
        written_at(old, before, at, encode_base_spec(bit, true, sym, input.subrange(0, k))),
        written_at(
            before,
            after,
            o,
            block_symbols(bit, true, sym, input.subrange(k, k + dec_of(bit))),
        ),
    ensures
        written_at(
            old,
            after,
            at,
            encode_base_spec(bit, true, sym, input.subrange(0, k + dec_of(bit))),
        ),
{
    let d = dec_of(bit) as int;
    let done = input.subrange(0, k);
    let block = input.subrange(k, k + d);
    let symbols = block_symbols(bit, true, sym, block);
    lemma_block_shape(bit);
    assert(block.subrange(0, d) =~= block);
    assert(block.subrange(d, d) =~= Seq::<u8>::empty());
    assert(encode_base_spec(bit, true, sym, Seq::<u8>::empty()) == Seq::<u8>::empty());
    assert(encode_base_spec(bit, true, sym, block) =~= symbols);
    assert(done + block =~= input.subrange(0, k + d));
    lemma_encode_base_append(bit, true, sym, done, block);
    lemma_encode_base_len(bit, true, sym, done);
    lemma_written_at_then(old, before, after, at, encode_base_spec(bit, true, sym, done), symbols);
}

/// Writes the two hexadecimal digits of `b` to `output[o..]`.
fn encode_hex_block(sym: &[u8; 256], b: u8, output: &mut [u8], o: usize)
    requires
        o + 2 <= old(output)@.len(),
    ensures
        written_at(old(output)@, final(output)@, o as int, block_symbols(4, true, sym@, seq![b])),
{
    output[o] = sym[(b / 16) as usize];
    output[o + 1] = sym[(b % 16) as usize];
    proof {
        lemma_hex_values(b);
        assert(output@.subrange(o as int, o + 2) =~= block_symbols(4, true, sym@, seq![b]));
    }
}

/// Writes the four digits of base 64 of the bytes `a`, `b` and `c` to
/// `output[o..]`.
fn encode_base64_block(sym: &[u8; 256], a: u8, b: u8, c: u8, output: &mut [u8], o: usize)
    requires
        o + 4 <= old(output)@.len(),
    ensures
        written_at(
            old(output)@,
            final(output)@,
            o as int,
            block_symbols(6, true, sym@, seq![a, b, c]),
        ),
{
    let x: u32 = (a as u32) * 65536 + (b as u32) * 256 + (c as u32);
    output[o] = sym[(x / 262144) as usize];
    output[o + 1] = sym[(x / 4096 % 64) as usize];
    output[o + 2] = sym[(x / 64 % 64) as usize];
    output[o + 3] = sym[(x % 64) as usize];
    proof {
        lemma_base64_values(a, b, c);
        assert(output@.subrange(o as int, o + 4) =~= block_symbols(6, true, sym@, seq![a, b, c]));
    }
}

/// Encodes the bytes of `input` that fill whole vectors to `output[at..]` and
/// returns how many bytes that were: vectors of sixteen bytes in hexadecimal,
/// where `bit` is 4, and of twelve bytes in base 64, where it is 6. The symbols
/// are those that the codec gives block by block.
pub fn encode_wide(
    bit: usize,
    sym: &[u8; 256],
    input: &[u8],
    output: &mut [u8],
    at: usize,
) -> (read: usize)
    requires
        bit == 4 || bit == 6,
        at + base_len(bit as nat, input@.len()) <= old(output)@.len(),
    ensures
        read == input@.len() / vector_of(bit as nat) * vector_of(bit as nat),
        read <= input@.len(),
        read as nat % dec_of(bit as nat) == 0,
        written_at(
            old(output)@,
            final(output)@,
            at as int,
            encode_base_spec(bit as nat, true, sym@, input@.subrange(0, read as int)),
        ),
{
    let n = input.len();
    let total = output.len();
    let (d, e, blocks): (usize, usize, usize) = if bit == 4 {
        (1, 2, 16)
    } else {
        (3, 4, 4)
    };
    let mut i: usize = 0;
    let mut o: usize = at;
    proof {
        lemma_block_shape(bit as nat);
        assert(input@.subrange(0, 0) =~= Seq::<u8>::empty());
        assert(output@.subrange(at as int, at as int) =~= Seq::<u8>::empty());
        assert(encode_base_spec(bit as nat, true, sym@, Seq::<u8>::empty()) == Seq::<u8>::empty());
        lemma_encode_base_len(bit as nat, true, sym@, Seq::<u8>::empty());
    }
    while n - i >= d * blocks
        invariant
            bit == 4 || bit == 6,
            d == dec_of(bit as nat),
            e == enc_of(bit as nat),
            d * blocks == vector_of(bit as nat),
            blocks <= 16,
            i <= n,
            i as nat % vector_of(bit as nat) == 0,
            i % d == 0,
            o == at + base_len(bit as nat, i as nat),
            n == input@.len(),
            total == output@.len(),
            output@.len() == old(output)@.len(),
            at + base_len(bit as nat, n as nat) <= total,
            written_at(
                old(output)@,
                output@,
                at as int,
                encode_base_spec(bit as nat, true, sym@, input@.subrange(0, i as int)),
            ),
        decreases n - i,
    {
        let mut j: usize = 0;
        let ghost start = i;
        while j < blocks
            invariant
                bit == 4 || bit == 6,
                d == dec_of(bit as nat),
                e == enc_of(bit as nat),
                d * blocks == vector_of(bit as nat),
                j <= blocks <= 16,
                start + d * blocks <= n,
                i == start + d * j,
                i % d == 0,
                o == at + base_len(bit as nat, i as nat),
                n == input@.len(),
                total == output@.len(),
                output@.len() == old(output)@.len(),
                at + base_len(bit as nat, n as nat) <= total,
                written_at(
                    old(output)@,
                    output@,
                    at as int,
                    encode_base_spec(bit as nat, true, sym@, input@.subrange(0, i as int)),
                ),
            decreases blocks - j,
        {
            let ghost before = output@;
            proof {
                assert(i + d <= n) by (nonlinear_arith)
                    requires
                        i == start + d * j,
                        j < blocks,
                        start + d * blocks <= n,
                        d >= 1,
                ;
                lemma_base_len_step(bit as nat, i as nat);
                lemma_base_len_monotonic(bit as nat, (i + d) as nat, n as nat);
            }
            if bit == 4 {
                encode_hex_block(sym, input[i], output, o);
                proof {
                    assert(input@.subrange(i as int, i + 1) =~= seq![input@[i as int]]);
                }
            } else {
                encode_base64_block(sym, input[i], input[i + 1], input[i + 2], output, o);
                proof {
                    assert(input@.subrange(i as int, i + 3) =~= seq![
                        input@[i as int],
                        input@[i + 1],
                        input@[i + 2],
                    ]);
                }
            }
            proof {
                lemma_block_step(
                    bit as nat,
                    old(output)@,
                    before,
                    output@,
                    at as int,
                    sym@,
                    input@,
                    i as int,
                    o as int,
                );
                assert((i + d) % (d as int) == 0) by {
                    vstd::arithmetic::div_mod::lemma_mod_add_multiples_vanish(i as int, d as int);
                }
                assert(i + d == start + d * (j + 1)) by (nonlinear_arith)
                    requires
                        i == start + d * j,
                ;
            }
            i += d;
            o += e;
            j += 1;
        }
        proof {
            let v = vector_of(bit as nat) as int;
            assert(i == start + v);
            vstd::arithmetic::div_mod::lemma_mod_add_multiples_vanish(start as int, v);
        }
    }
    proof {
        let v = vector_of(bit as nat) as int;
        vstd::arithmetic::div_mod::lemma_fundamental_div_mod(i as int, v);
        vstd::arithmetic::div_mod::lemma_fundamental_div_mod_converse(
            n as int,
            v,
            i as int / v,
            n - i,
        );
    }
    i
}

/// How many symbols the quick way takes at a time.
pub open spec fn text_vector_of(bit: nat) -> nat {
    if bit == 4 {
        32
    } else {
        16
    }
}

/// The byte is a symbol, and not the padding.
pub open spec fn is_plain(val: Seq<u8>, bit: nat, pad: Option<u8>, c: u8) -> bool {
    is_symbol(val, bit, c) && pad != Some(c)
}

/// The bytes of a text of whole blocks of symbols, block by block, with the most
/// significant bit first.
pub open spec fn blocks_bytes(bit: nat, val: Seq<u8>, text: Seq<u8>) -> Seq<u8>
    decreases text.len(),
{
    let e = enc_of(bit);
    if e == 0 || text.len() < e {
        Seq::empty()
    } else {
        blocks_bytes(bit, val, text.subrange(0, text.len() - e)) + block_bytes(
            bit,
            true,
            values_of(val, text.subrange(text.len() - e, text.len() as int)),
        )
    }
}

/// Where no byte is skipped, the bytes gathered are those that follow.
proof fn lemma_gather_run(val: Seq<u8>, ignore: bool, input: Seq<u8>, from: int, count: nat)
    requires
        0 <= from,
        from + count <= input.len(),
        forall|j: int| from <= j < from + count ==> !is_ignored(val, ignore, #[trigger] input[j]),
    ensures
        gather(val, ignore, input, from, count) == Seq::new(count, |i: int| from + i),
    decreases count,
{
    if count > 0 {
        assert(!is_ignored(val, ignore, input[from]));
        assert(next_sig(val, ignore, input, from) == from);
        lemma_gather_run(val, ignore, input, from + 1, (count - 1) as nat);
        assert(gather(val, ignore, input, from, count) =~= Seq::new(count, |i: int| from + i));
    } else {
        assert(gather(val, ignore, input, from, count) =~= Seq::new(count, |i: int| from + i));
    }
}

/// A whole block of symbols, none of them the padding, gives its bytes, and the
/// decoding goes on behind it.
proof fn lemma_decode_whole(r: Rules, val: Seq<u8>, input: Seq<u8>, from: int, acc: Seq<u8>)
    requires
        valid_bit(r.bit as nat),
        0 <= from,
        from + enc_of(r.bit as nat) <= input.len(),
        forall|j: int|
            from <= j < from + enc_of(r.bit as nat) ==> is_plain(
                val,
                r.bit as nat,
                r.pad,
                #[trigger] input[j],
            ),
    ensures
        decode_from(r, val, input, from, acc) == decode_from(
            r,
            val,
            input,
            from + enc_of(r.bit as nat),
            acc + block_bytes(
                r.bit as nat,
                r.msb,
                values_of(val, input.subrange(from, from + enc_of(r.bit as nat))),
            ),
        ),
{
    let bit = r.bit as nat;
    let e = enc_of(bit);
    lemma_block_shape(bit);
    assert forall|j: int| from <= j < from + e implies !is_ignored(
        val,
        r.ignore,
        #[trigger] input[j],
    ) by {
        assert(is_plain(val, bit, r.pad, input[j]));
    }
    lemma_gather_run(val, r.ignore, input, from, e);
    let pos = gather(val, r.ignore, input, from, e);
    let block = bytes_at(input, pos);
    assert(block =~= input.subrange(from, from + e));
    assert forall|i: int| 0 <= i < e implies is_plain(val, bit, r.pad, #[trigger] block[i]) by {
        assert(block[i] == input[from + i]);
    }
    match r.pad {
        None => {},
        Some(x) => {
            assert forall|i: int| 0 <= i < e implies not_byte(x)(block[i]) by {
                assert(is_plain(val, bit, r.pad, block[i]));
            }
            lemma_prefix_len_is(block, not_byte(x), e);
            assert(block.subrange(e as int, block.len() as int) =~= Seq::<u8>::empty());
            assert(prefix_len(Seq::<u8>::empty(), is_byte(x)) == 0);
        },
    }
    assert(data_len(r.pad, block) == e);
    let data = block.subrange(0, e as int);
    assert(data =~= block);
    assert forall|i: int| 0 <= i < e implies symbol_pred(val, bit)(data[i]) by {
        assert(is_plain(val, bit, r.pad, block[i]));
    }
    lemma_prefix_len_is(data, symbol_pred(val, bit), e);
    let bytes = block_bytes(bit, r.msb, values_of(val, data));
    assert(decode_block_result(r, val, block) == Ok::<Seq<u8>, (nat, DecodeKind)>(bytes));
    lemma_decode_ok(r, val, input, from, acc, bytes);
    assert(pos.last() + 1 == from + e);
}

/// Whole blocks of symbols at the front of a text, none of them the padding,
/// give their bytes, and the decoding goes on behind them.
pub proof fn lemma_decode_run(r: Rules, val: Seq<u8>, input: Seq<u8>, k: nat)
    requires
        valid_bit(r.bit as nat),
        r.msb,
        k <= input.len(),
        k % enc_of(r.bit as nat) == 0,
        forall|j: int| 0 <= j < k ==> is_plain(val, r.bit as nat, r.pad, #[trigger] input[j]),
    ensures
        decode_spec(r, val, input) == decode_from(
            r,
            val,
            input,
            k as int,
            blocks_bytes(r.bit as nat, val, input.subrange(0, k as int)),
        ),
    decreases k,
{
    let bit = r.bit as nat;
    let e = enc_of(bit);
    lemma_block_shape(bit);
    let text = input.subrange(0, k as int);
    if k == 0 {
        assert(blocks_bytes(bit, val, text) =~= Seq::<u8>::empty());
    } else {
        assert(k >= e) by {
            if k < e {
                vstd::arithmetic::div_mod::lemma_small_mod(k, e);
            }
        }
        let before = (k - e) as nat;
        assert(before % e == 0) by {
            vstd::arithmetic::div_mod::lemma_mod_sub_multiples_vanish(k as int, e as int);
        }
        lemma_decode_run(r, val, input, before);
        let acc = blocks_bytes(bit, val, input.subrange(0, before as int));
        lemma_decode_whole(r, val, input, before as int, acc);
        assert(text.subrange(0, text.len() - e) =~= input.subrange(0, before as int));
        assert(text.subrange(text.len() - e, text.len() as int) =~= input.subrange(
            before as int,
            k as int,
        ));
    }
}

/// One more block behind a text of whole blocks: its bytes behind theirs.
proof fn lemma_blocks_push(bit: nat, val: Seq<u8>, input: Seq<u8>, k: int)
    requires
        valid_bit(bit),
        0 <= k,
        k + enc_of(bit) <= input.len(),
    ensures
        blocks_bytes(bit, val, input.subrange(0, k + enc_of(bit))) == blocks_bytes(
            bit,
            val,
            input.subrange(0, k),
        ) + block_bytes(bit, true, values_of(val, input.subrange(k, k + enc_of(bit)))),
{
    let e = enc_of(bit);
    lemma_block_shape(bit);
    let text = input.subrange(0, k + e);
    assert(text.subrange(0, text.len() - e) =~= input.subrange(0, k));
    assert(text.subrange(text.len() - e, text.len() as int) =~= input.subrange(k, k + e));
}

/// Whether the byte is a symbol, and not the padding.
fn plain(bit: usize, val: &[u8; 128], pad: Option<u8>, c: u8) -> (r: bool)
    requires
        bit == 4 || bit == 6,
    ensures
        r == is_plain(val@, bit as nat, pad, c),
{
    proof {
        lemma_block_shape(bit as nat);
    }
    if c >= 128 {
        return false;
    }
    let limit: u8 = if bit == 4 {
        16
    } else {
        64
    };
    let padding = match pad {
        None => false,
        Some(x) => x == c,
    };
    val[c as usize] < limit && !padding
}

/// Whether the `count` bytes from `from` on are all symbols, none of them the
/// padding.
fn all_plain(
    bit: usize,
    val: &[u8; 128],
    pad: Option<u8>,
    input: &[u8],
    from: usize,
    count: usize,
) -> (r: bool)
    requires
        bit == 4 || bit == 6,
        from + count <= input@.len(),
    ensures
        r == forall|j: int|
            from <= j < from + count ==> is_plain(val@, bit as nat, pad, #[trigger] input@[j]),
{
    let n = input.len();
    let mut i: usize = 0;
    while i < count
        invariant
            bit == 4 || bit == 6,
            i <= count,
            n == input@.len(),
            from + count <= n,
            forall|j: int|
                from <= j < from + i ==> is_plain(val@, bit as nat, pad, #[trigger] input@[j]),
        decreases count - i,
    {
        if !plain(bit, val, pad, input[from + i]) {
            return false;
        }
        i += 1;
    }
    true
}

/// Writes the byte of the hexadecimal digits `h` and `l` to `output[o]`.
fn decode_hex_block(val: &[u8; 128], h: u8, l: u8, output: &mut [u8], o: usize)
    requires
        is_symbol(val@, 4, h),
        is_symbol(val@, 4, l),
        o + 1 <= old(output)@.len(),
    ensures
        written_at(
            old(output)@,
            final(output)@,
            o as int,
            block_bytes(4, true, values_of(val@, seq![h, l])),
        ),
{
    proof {
        lemma_block_shape(4);
    }
    let x = val[h as usize];
    let y = val[l as usize];
    output[o] = x * 16 + y;
    proof {
        lemma_hex_byte(x, y);
        assert(values_of(val@, seq![h, l]) =~= seq![x, y]);
        assert(output@.subrange(o as int, o + 1) =~= seq![(x * 16 + y) as u8]);
    }
}

/// Writes the three bytes of the digits `a`, `b`, `c` and `d` of base 64 to
/// `output[o..]`.
fn decode_base64_block(val: &[u8; 128], a: u8, b: u8, c: u8, d: u8, output: &mut [u8], o: usize)
    requires
        is_symbol(val@, 6, a),
        is_symbol(val@, 6, b),
        is_symbol(val@, 6, c),
        is_symbol(val@, 6, d),
        o + 3 <= old(output)@.len(),
    ensures
        written_at(
            old(output)@,
            final(output)@,
            o as int,
            block_bytes(6, true, values_of(val@, seq![a, b, c, d])),
        ),
{
    proof {
        lemma_block_shape(6);
    }
    let (w, x, y, z) = (val[a as usize], val[b as usize], val[c as usize], val[d as usize]);
    let n: u32 = (w as u32) * 262144 + (x as u32) * 4096 + (y as u32) * 64 + (z as u32);
    output[o] = (n / 65536) as u8;
    output[o + 1] = (n / 256 % 256) as u8;
    output[o + 2] = (n % 256) as u8;
    proof {
        lemma_base64_bytes(w, x, y, z);
        assert(values_of(val@, seq![a, b, c, d]) =~= seq![w, x, y, z]);
        assert(output@.subrange(o as int, o + 3) =~= seq![
            (n / 65536) as u8,
            (n / 256 % 256) as u8,
            (n % 256) as u8,
        ]);
    }
}

/// Decodes the symbols at the front of `input` that fill whole vectors, none of
/// them the padding, to the front of `output`, and returns how many symbols that
/// were: vectors of 32 hexadecimal digits, where `bit` is 4, and of 16 digits of
/// base 64, where it is 6. It stops before the first vector that holds another
/// byte. The bytes are those that the codec gives block by block.
pub fn decode_wide(
    bit: usize,
    val: &[u8; 128],
    pad: Option<u8>,
    input: &[u8],
    output: &mut [u8],
) -> (read: usize)
    requires
        bit == 4 || bit == 6,
        decode_room(bit as nat, true, input@.len()) <= old(output)@.len(),
    ensures
        read <= input@.len(),
        read as nat % text_vector_of(bit as nat) == 0,
        read as nat % enc_of(bit as nat) == 0,
        forall|j: int| 0 <= j < read ==> is_plain(val@, bit as nat, pad, #[trigger] input@[j]),
        input@.len() - read < text_vector_of(bit as nat) || exists|j: int|
            read <= j < read + text_vector_of(bit as nat) && !is_plain(
                val@,
                bit as nat,
                pad,
                #[trigger] input@[j],
            ),
        written_at(
            old(output)@,
            final(output)@,
            0,
            blocks_bytes(bit as nat, val@, input@.subrange(0, read as int)),
        ),
        blocks_bytes(bit as nat, val@, input@.subrange(0, read as int)).len() == decode_room(
            bit as nat,
            true,
            read as nat,
        ),
{
    let n = input.len();
    let total = output.len();
    let (d, e, blocks): (usize, usize, usize) = if bit == 4 {
        (1, 2, 16)
    } else {
        (3, 4, 4)
    };
    let mut i: usize = 0;
    let mut o: usize = 0;
    let mut stop = false;
    let ghost mut q: nat = 0;
    proof {
        lemma_block_shape(bit as nat);
        assert(input@.subrange(0, 0) =~= Seq::<u8>::empty());
        assert(output@.subrange(0, 0) =~= Seq::<u8>::empty());
        assert(blocks_bytes(bit as nat, val@, Seq::<u8>::empty()) =~= Seq::<u8>::empty());
    }
    while !stop
        invariant
            bit == 4 || bit == 6,
            d == dec_of(bit as nat),
            e == enc_of(bit as nat),
            e * blocks == text_vector_of(bit as nat),
            blocks <= 16,
            i <= n,
            i == e * q,
            o == d * q,
            i as nat % text_vector_of(bit as nat) == 0,
            n == input@.len(),
            total == output@.len(),
            output@.len() == old(output)@.len(),
            decode_room(bit as nat, true, n as nat) <= total,
            forall|j: int| 0 <= j < i ==> is_plain(val@, bit as nat, pad, #[trigger] input@[j]),
            stop ==> n - i < text_vector_of(bit as nat) || exists|j: int|
                i <= j < i + text_vector_of(bit as nat) && !is_plain(
                    val@,
                    bit as nat,
                    pad,
                    #[trigger] input@[j],
                ),
            written_at(
                old(output)@,
                output@,
                0,
                blocks_bytes(bit as nat, val@, input@.subrange(0, i as int)),
            ),
            blocks_bytes(bit as nat, val@, input@.subrange(0, i as int)).len() == o,
        decreases n - i + if stop { 0int } else { 1 },
    {
        if n - i < e * blocks || !all_plain(bit, val, pad, input, i, e * blocks) {
            stop = true;
        } else {
            let mut j: usize = 0;
            let ghost start = i;
            while j < blocks
                invariant
                    bit == 4 || bit == 6,
                    d == dec_of(bit as nat),
                    e == enc_of(bit as nat),
                    e * blocks == text_vector_of(bit as nat),
                    j <= blocks <= 16,
                    start + e * blocks <= n,
                    i == start + e * j,
                    i == e * q,
                    o == d * q,
                    n == input@.len(),
                    total == output@.len(),
                    output@.len() == old(output)@.len(),
                    decode_room(bit as nat, true, n as nat) <= total,
                    forall|j: int|
                        0 <= j < start + e * blocks ==> is_plain(
                            val@,
                            bit as nat,
                            pad,
                            #[trigger] input@[j],
                        ),
                    written_at(
                        old(output)@,
                        output@,
                        0,
                        blocks_bytes(bit as nat, val@, input@.subrange(0, i as int)),
                    ),
                    blocks_bytes(bit as nat, val@, input@.subrange(0, i as int)).len() == o,
                decreases blocks - j,
            {
                let ghost before = output@;
                proof {
                    assert(i + e <= start + e * blocks) by (nonlinear_arith)
                        requires
                            i == start + e * j,
                            j < blocks,
                            e >= 1,
                    ;
                    lemma_room_for(bit as nat, q, n as nat);
                    assert(is_plain(val@, bit as nat, pad, input@[i as int]));
                    assert(is_plain(val@, bit as nat, pad, input@[i + 1]));
                }
                if bit == 4 {
                    decode_hex_block(val, input[i], input[i + 1], output, o);
                    proof {
                        assert(input@.subrange(i as int, i + 2) =~= seq![
                            input@[i as int],
                            input@[i + 1],
                        ]);
                    }
                } else {
                    proof {
                        assert(is_plain(val@, bit as nat, pad, input@[i + 2]));
                        assert(is_plain(val@, bit as nat, pad, input@[i + 3]));
                    }
                    decode_base64_block(
                        val,
                        input[i],
                        input[i + 1],
                        input[i + 2],
                        input[i + 3],
                        output,
                        o,
                    );
                    proof {
                        assert(input@.subrange(i as int, i + 4) =~= seq![
                            input@[i as int],
                            input@[i + 1],
                            input@[i + 2],
                            input@[i + 3],
                        ]);
                    }
                }
                proof {
                    let bytes = block_bytes(
                        bit as nat,
                        true,
                        values_of(val@, input@.subrange(i as int, i + e)),
                    );
                    lemma_blocks_push(bit as nat, val@, input@, i as int);
                    lemma_block_bytes_len(
                        bit as nat,
                        values_of(val@, input@.subrange(i as int, i + e)),
                    );
                    lemma_written_at_then(
                        old(output)@,
                        before,
                        output@,
                        0,
                        blocks_bytes(bit as nat, val@, input@.subrange(0, i as int)),
                        bytes,
                    );
                    assert(i + e == start + e * (j + 1)) by (nonlinear_arith)
                        requires
                            i == start + e * j,
                    ;
                    assert(i + e == e * (q + 1) && o + d == d * (q + 1)) by (nonlinear_arith)
                        requires
                            i == e * q,
                            o == d * q,
                    ;
                    q = q + 1;
                }
                i += e;
                o += d;
                j += 1;
            }
            proof {
                let v = text_vector_of(bit as nat) as int;
                assert(i == start + v);
                vstd::arithmetic::div_mod::lemma_mod_add_multiples_vanish(start as int, v);
            }
        }
    }
    proof {
        assert(e * q == q * e && q * d == d * q) by (nonlinear_arith);
        vstd::arithmetic::div_mod::lemma_fundamental_div_mod_converse(
            i as int,
            e as int,
            q as int,
            0,
        );
    }
    i
}

/// A block of symbols gives a block of bytes.
proof fn lemma_block_bytes_len(bit: nat, values: Seq<u8>)
    requires
        valid_bit(bit),
    ensures
        block_bytes(bit, true, values).len() == dec_of(bit),
{
    lemma_be_digits_len(values_number(bit, true, values), 256, dec_of(bit));
}

/// The bytes of one more whole block of a text have room where the bytes of all
/// its whole blocks have.
proof fn lemma_room_for(bit: nat, q: nat, n: nat)
    requires
        valid_bit(bit),
        enc_of(bit) * q + enc_of(bit) <= n,
    ensures
        dec_of(bit) * q + dec_of(bit) <= decode_room(bit, true, n),
{
    let e = enc_of(bit);
    let d = dec_of(bit);
    lemma_block_shape(bit);
    assert(e * (q + 1) == e * q + e) by (nonlinear_arith);
    vstd::arithmetic::div_mod::lemma_div_is_ordered((e * (q + 1)) as int, n as int, e as int);
    vstd::arithmetic::div_mod::lemma_div_multiples_vanish((q + 1) as int, e as int);
    assert((e * (q + 1)) / e == q + 1);
    assert(d * (q + 1) <= (n / e) * d) by (nonlinear_arith)
        requires
            q + 1 <= n / e,
    ;
    assert(d * (q + 1) == d * q + d) by (nonlinear_arith);
}

} // verus!
