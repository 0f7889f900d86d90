//! What holds of every encoding: a text decodes to what it was encoded from, a
//! canonical encoding decodes no other text, and texts are as long as they are said
//! to be.
use crate::block::{
    base_len, block_bytes, block_number, block_symbols, block_values, bytes_at, data_len, dec_of,
    decode_block_result, decode_data, decode_from, decode_part, decode_room, enc_of,
    encode_base_spec, encode_pad_spec, gather, is_byte, is_ignored, lemma_base_len_blocks,
    lemma_base_len_small, lemma_block_shape, lemma_decode_end, lemma_decode_err, lemma_decode_ok,
    lemma_encode_base_append, lemma_encode_base_len, lemma_encode_pad_append, lemma_encode_pad_len,
    lemma_gather, lemma_next_sig, lemma_prefix_len_holds, lemma_prefix_len_is, next_sig, not_byte,
    ordered, Outcome, pad_len, PADDING, prefix_len, radix_of, Rules, symbol_pred, valid_bit,
    valid_len, values_number, values_of, wrap_spec,
};
use crate::encoding::EncodingView;
use crate::error::DecodeKind;
use crate::radix::{
    be_digits, be_value, digits_below, lemma_be_digits_below, lemma_be_digits_high_zeros,
    lemma_be_digits_len, lemma_be_digits_low_zeros, lemma_be_digits_value, lemma_be_value_bound,
    lemma_be_value_concat, lemma_be_value_digits, lemma_be_value_leading_zeros,
    lemma_be_value_repeat_zero, lemma_pow_add, lemma_pow_monotonic, lemma_pow_mul,
    lemma_pow_positive, pow, repeat,
};
use crate::text::is_ascii;
use vstd::prelude::*;

verus! {

/// The tables fit together: every value of the alphabet has an ASCII symbol, and
/// the symbol has that value.
pub open spec fn inverse_tables(bit: nat, sym: Seq<u8>, val: Seq<u8>) -> bool {
    &&& sym.len() == 256
    &&& val.len() == 128
    &&& is_ascii(sym)
    &&& forall|v: int| 0 <= v < radix_of(bit) ==> val[#[trigger] sym[v] as int] == v
}

/// How many symbols of the block of `r` bytes hold bits of them.
pub open spec fn data_symbols(bit: nat, r: nat) -> nat {
    if r == dec_of(bit) {
        enc_of(bit)
    } else {
        base_len(bit, r)
    }
}

/// Turned back to front twice, a sequence is what it was.
pub proof fn lemma_ordered_twice(s: Seq<u8>, msb: bool)
    ensures
        ordered(ordered(s, msb), msb) == s,
        ordered(s, msb).len() == s.len(),
{
    if !msb {
        assert(s.reverse().reverse() =~= s);
    }
}

/// Powers of 256 and of the radix of an alphabet are powers of 2.
pub proof fn lemma_powers_of_two(bit: nat, m: nat)
    ensures
        pow(256, m) == pow(2, 8 * m),
        pow(radix_of(bit), m) == pow(2, bit * m),
{
    lemma_pow_mul(2, 8, m);
    lemma_pow_mul(2, bit, m);
    assert(pow(2, 8) == 256) by {
        reveal_with_fuel(pow, 9);
    }
}

/// The bytes of the symbols of a block are the block, with zeros where it was
/// short of bytes.
pub proof fn lemma_block_bytes_of_values(bit: nat, msb: bool, blk: Seq<u8>)
    requires
        valid_bit(bit),
        blk.len() <= dec_of(bit),
    ensures
        block_bytes(bit, msb, block_values(bit, msb, blk)) == blk + repeat(
            0,
            (dec_of(bit) - blk.len()) as nat,
        ),
        block_values(bit, msb, blk).len() == enc_of(bit),
        digits_below(block_values(bit, msb, blk), radix_of(bit)),
{
    let e = enc_of(bit);
    let d = dec_of(bit);
    let r = radix_of(bit);
    lemma_block_shape(bit);
    let full = blk + repeat(0, (d - blk.len()) as nat);
    let ord = ordered(full, msb);
    let n = block_number(bit, msb, blk);
    let digits = be_digits(n, r, e);
    let values = block_values(bit, msb, blk);
    lemma_ordered_twice(full, msb);
    lemma_ordered_twice(digits, msb);
    lemma_be_digits_len(n, r, e);
    lemma_be_digits_below(n, r, e);
    lemma_be_digits_value(n, r, e);
    assert(digits_below(ord, 256)) by {
        assert forall|i: int| 0 <= i < ord.len() implies (#[trigger] ord[i] as nat) < 256 by {}
    }
    lemma_be_value_bound(ord, 256);
    vstd::arithmetic::div_mod::lemma_small_mod(n, pow(r, e));
    assert(values_number(bit, msb, values) == n);
    lemma_be_value_digits(ord, 256);
    assert(digits_below(values, r)) by {
        assert forall|i: int| 0 <= i < values.len() implies (#[trigger] values[i] as nat) < r by {
            if msb {
                assert((digits[i] as nat) < r);
            } else {
                assert(values[i] == digits[e - 1 - i]);
                assert((digits[e - 1 - i] as nat) < r);
            }
        }
    }
}

/// The symbols of a block that is short of bytes: those that hold no bit of the
/// bytes have the value zero.
pub proof fn lemma_block_values_tail(bit: nat, msb: bool, blk: Seq<u8>)
    requires
        valid_bit(bit),
        blk.len() < dec_of(bit),
    ensures
        forall|j: int|
            base_len(bit, blk.len()) <= j < enc_of(bit) ==> #[trigger] block_values(
                bit,
                msb,
                blk,
            )[j] == 0,
{
    let e = enc_of(bit);
    let d = dec_of(bit);
    let r = radix_of(bit);
    let len = blk.len();
    let k = base_len(bit, len);
    lemma_block_shape(bit);
    lemma_base_len_small(bit, len);
    let zeros = repeat(0, (d - len) as nat);
    let full = blk + zeros;
    let n = block_number(bit, msb, blk);
    let digits = be_digits(n, r, e);
    let values = block_values(bit, msb, blk);
    lemma_be_digits_len(n, r, e);
    lemma_powers_of_two(bit, k);
    lemma_powers_of_two(bit, (e - k) as nat);
    lemma_powers_of_two(bit, e);
    lemma_powers_of_two(bit, len);
    lemma_powers_of_two(bit, (d - len) as nat);
    lemma_powers_of_two(bit, d);
    assert(digits_below(blk, 256)) by {
        assert forall|i: int| 0 <= i < blk.len() implies (#[trigger] blk[i] as nat) < 256 by {}
    }
    if msb {
        // The number is a multiple of 256 to the power of the missing bytes.
        lemma_be_value_concat(blk, zeros, 256);
        lemma_be_value_repeat_zero((d - len) as nat, 256);
        let m = be_value(blk, 256);
        let low = (bit * (e - k)) as nat;
        let gap = (8 * (d - len) - bit * (e - k)) as nat;
        assert(bit * (e - k) <= 8 * (d - len)) by (nonlinear_arith)
            requires
                8 * len <= bit * k,
                bit * e == 8 * d,
                k <= e,
                len <= d,
        ;
        lemma_pow_add(2, gap, low);
        let p = pow(r, (e - k) as nat);
        assert(n == (m * pow(2, gap)) * p) by (nonlinear_arith)
            requires
                n == m * pow(256, (d - len) as nat),
                pow(256, (d - len) as nat) == pow(2, gap) * p,
        ;
        lemma_pow_positive(r, (e - k) as nat);
        vstd::arithmetic::div_mod::lemma_mod_multiples_basic((m * pow(2, gap)) as int, p as int);
        assert(digits_below(full, 256)) by {
            assert forall|i: int| 0 <= i < full.len() implies (#[trigger] full[i] as nat)
                < 256 by {}
        }
        lemma_be_value_bound(full, 256);
        lemma_be_digits_low_zeros(n, r, e, k);
        lemma_be_digits_len(n / p, r, k);
        assert forall|j: int| k <= j < e implies #[trigger] values[j] == 0 by {
            assert(digits[j] == repeat(0, (e - k) as nat)[j - k]);
        }
    } else {
        // The number is that of the bytes alone, and fits into the first symbols.
        let back = blk.reverse();
        assert(full.reverse() =~= zeros + back);
        lemma_be_value_leading_zeros((d - len) as nat, back, 256);
        assert(digits_below(back, 256)) by {
            assert forall|i: int| 0 <= i < back.len() implies (#[trigger] back[i] as nat)
                < 256 by {}
        }
        lemma_be_value_bound(back, 256);
        assert(8 * len <= bit * k);
        lemma_pow_monotonic(2, 8 * len, bit * k);
        lemma_be_digits_high_zeros(n, r, e, k);
        assert forall|j: int| k <= j < e implies #[trigger] values[j] == 0 by {
            assert(values[j] == digits[e - 1 - j]);
            assert(digits[e - 1 - j] == repeat(0, (e - k) as nat)[e - 1 - j]);
        }
    }
}

/// The symbols of a block decode to the block.
pub proof fn lemma_block_round_trip(
    bit: nat,
    msb: bool,
    ctb: bool,
    sym: Seq<u8>,
    val: Seq<u8>,
    blk: Seq<u8>,
    length_at: nat,
)
    requires
        valid_bit(bit),
        inverse_tables(bit, sym, val),
        1 <= blk.len() <= dec_of(bit),
    ensures
        0 < data_symbols(bit, blk.len()) <= enc_of(bit),
        prefix_len(
            block_symbols(bit, msb, sym, blk).subrange(0, data_symbols(bit, blk.len()) as int),
            symbol_pred(val, bit),
        ) == data_symbols(bit, blk.len()),
        decode_data(
            bit,
            msb,
            ctb,
            val,
            block_symbols(bit, msb, sym, blk).subrange(0, data_symbols(bit, blk.len()) as int),
            length_at,
        ) == Ok::<Seq<u8>, (nat, DecodeKind)>(blk),
        (data_symbols(bit, blk.len()) * bit) / 8 == blk.len(),
{
    let e = enc_of(bit);
    let d = dec_of(bit);
    let len = blk.len();
    let k = data_symbols(bit, len);
    lemma_block_shape(bit);
    if len < d {
        lemma_base_len_small(bit, len);
    }
    let values = block_values(bit, msb, blk);
    let symbols = block_symbols(bit, msb, sym, blk);
    let data = symbols.subrange(0, k as int);
    lemma_block_bytes_of_values(bit, msb, blk);
    // Every symbol of the data is a symbol, and has the value that it stands for.
    assert forall|i: int| 0 <= i < k implies #[trigger] symbol_pred(val, bit)(data[i]) && val[data[i] as int]
        == values[i] by {
        assert((values[i] as nat) < radix_of(bit));
        assert(data[i] == sym[values[i] as int]);
        assert(sym[values[i] as int] < 128);
    }
    lemma_prefix_len_is(data, symbol_pred(val, bit), k);
    let zeros = repeat(0, (e - k) as nat);
    assert(values_of(val, data) + zeros =~= values) by {
        if len < d {
            lemma_block_values_tail(bit, msb, blk);
        }
        assert forall|i: int| 0 <= i < e implies (values_of(val, data) + zeros)[i]
            == values[i] by {
            if i < k {
                assert(val[data[i] as int] == values[i]);
            } else {
                assert(values[i] == 0);
            }
        }
    }
    let bytes = block_bytes(bit, msb, values);
    if len == d {
        assert(values_of(val, data) =~= values);
        assert(blk + repeat(0, 0) =~= blk);
        assert(k * bit == 8 * d) by (nonlinear_arith)
            requires
                k == e,
                bit * e == 8 * d,
        ;
    } else {
        // The bits of the symbols are those of the bytes and fewer than a symbol's
        // more.
        let kb = k * bit;
        assert(kb == bit * k) by (nonlinear_arith)
            requires
                kb == k * bit,
        ;
        vstd::arithmetic::div_mod::lemma_fundamental_div_mod_converse(
            kb as int,
            8,
            len as int,
            (kb - 8 * len) as int,
        );
        assert(bytes.subrange(len as int, d as int) =~= repeat(0, (d - len) as nat));
        assert(bytes.subrange(0, len as int) =~= blk);
        assert(decode_part(bit, msb, ctb, val, data, length_at) == Ok::<
            Seq<u8>,
            (nat, DecodeKind),
        >(blk));
    }
}

/// The bytes of `text` from `from` on that are not skipped.
pub open spec fn sig_bytes(val: Seq<u8>, ignore: bool, text: Seq<u8>, from: int) -> Seq<u8>
    decreases text.len() - from,
{
    if from < 0 || from >= text.len() {
        Seq::empty()
    } else if is_ignored(val, ignore, text[from]) {
        sig_bytes(val, ignore, text, from + 1)
    } else {
        seq![text[from]] + sig_bytes(val, ignore, text, from + 1)
    }
}

/// The bytes that are not skipped begin at the first byte that is not skipped.
pub proof fn lemma_sig_next(val: Seq<u8>, ignore: bool, text: Seq<u8>, from: int)
    requires
        0 <= from <= text.len(),
    ensures
        ({
            let p = next_sig(val, ignore, text, from);
            &&& from <= p <= text.len()
            &&& sig_bytes(val, ignore, text, from) == sig_bytes(val, ignore, text, p)
            &&& p < text.len() ==> sig_bytes(val, ignore, text, p) == seq![text[p]] + sig_bytes(
                val,
                ignore,
                text,
                p + 1,
            )
            &&& p >= text.len() <==> sig_bytes(val, ignore, text, from).len() == 0
        }),
    decreases text.len() - from,
{
    lemma_next_sig(val, ignore, text, from);
    if from < text.len() && is_ignored(val, ignore, text[from]) {
        lemma_sig_next(val, ignore, text, from + 1);
    }
}

/// The next bytes that are not skipped are the first of the bytes that are not
/// skipped.
pub proof fn lemma_gather_sig(val: Seq<u8>, ignore: bool, text: Seq<u8>, from: int, count: nat)
    requires
        0 <= from <= text.len(),
    ensures
        ({
            let g = gather(val, ignore, text, from, count);
            let s = sig_bytes(val, ignore, text, from);
            &&& g.len() == if s.len() < count {
                s.len()
            } else {
                count
            }
            &&& bytes_at(text, g) == s.subrange(0, g.len() as int)
            &&& g.len() > 0 ==> from <= g.last() < text.len() && sig_bytes(
                val,
                ignore,
                text,
                g.last() + 1,
            ) == s.subrange(g.len() as int, s.len() as int)
        }),
    decreases count,
{
    lemma_sig_next(val, ignore, text, from);
    let p = next_sig(val, ignore, text, from);
    let g = gather(val, ignore, text, from, count);
    let s = sig_bytes(val, ignore, text, from);
    if count == 0 || p >= text.len() {
        assert(bytes_at(text, g) =~= s.subrange(0, 0));
    } else {
        lemma_gather_sig(val, ignore, text, p + 1, (count - 1) as nat);
        let g1 = gather(val, ignore, text, p + 1, (count - 1) as nat);
        let s1 = sig_bytes(val, ignore, text, p + 1);
        assert(s == seq![text[p]] + s1);
        assert(g == seq![p] + g1);
        assert(bytes_at(text, g) =~= s.subrange(0, g.len() as int)) by {
            assert forall|i: int| 0 <= i < g.len() implies bytes_at(text, g)[i] == s[i] by {
                if i > 0 {
                    assert(g[i] == g1[i - 1]);
                    assert(bytes_at(text, g1)[i - 1] == s1[i - 1]);
                }
            }
        }
        if g1.len() > 0 {
            assert(g.last() == g1.last());
            assert(s1.subrange(g1.len() as int, s1.len() as int) =~= s.subrange(
                g.len() as int,
                s.len() as int,
            ));
        } else {
            assert(g.last() == p);
            assert(s1 =~= s.subrange(1, s.len() as int));
        }
    }
}

/// Behind the bytes of `a`, the bytes of `a + b` are those of `b`.
proof fn lemma_sig_shift(val: Seq<u8>, ignore: bool, a: Seq<u8>, b: Seq<u8>, j: int)
    requires
        0 <= j <= b.len(),
    ensures
        sig_bytes(val, ignore, a + b, a.len() + j) == sig_bytes(val, ignore, b, j),
    decreases b.len() - j,
{
    if j < b.len() {
        assert((a + b)[a.len() + j] == b[j]);
        lemma_sig_shift(val, ignore, a, b, j + 1);
    }
}

/// The bytes of `a + b` that are not skipped are those of `a` and those of `b`.
pub proof fn lemma_sig_concat(val: Seq<u8>, ignore: bool, a: Seq<u8>, b: Seq<u8>, from: int)
    requires
        0 <= from <= a.len(),
    ensures
        sig_bytes(val, ignore, a + b, from) == sig_bytes(val, ignore, a, from) + sig_bytes(
            val,
            ignore,
            b,
            0,
        ),
    decreases a.len() - from,
{
    if from < a.len() {
        assert((a + b)[from] == a[from]);
        lemma_sig_concat(val, ignore, a, b, from + 1);
        let x = sig_bytes(val, ignore, a, from + 1);
        let y = sig_bytes(val, ignore, b, 0);
        assert(seq![a[from]] + (x + y) =~= (seq![a[from]] + x) + y);
    } else {
        lemma_sig_shift(val, ignore, a, b, 0);
        assert(sig_bytes(val, ignore, a, from) + sig_bytes(val, ignore, b, 0) =~= sig_bytes(
            val,
            ignore,
            b,
            0,
        ));
    }
}

/// Where no byte is skipped, all are kept.
pub proof fn lemma_sig_kept(val: Seq<u8>, ignore: bool, s: Seq<u8>, from: int)
    requires
        0 <= from <= s.len(),
        forall|i: int| 0 <= i < s.len() ==> !is_ignored(val, ignore, #[trigger] s[i]),
    ensures
        sig_bytes(val, ignore, s, from) == s.subrange(from, s.len() as int),
    decreases s.len() - from,
{
    if from < s.len() {
        lemma_sig_kept(val, ignore, s, from + 1);
        assert(!is_ignored(val, ignore, s[from]));
        assert(seq![s[from]] + s.subrange(from + 1, s.len() as int) =~= s.subrange(
            from,
            s.len() as int,
        ));
    } else {
        assert(s.subrange(from, s.len() as int) =~= Seq::<u8>::empty());
    }
}

/// Where every byte is skipped, none is kept.
pub proof fn lemma_sig_skipped(val: Seq<u8>, ignore: bool, s: Seq<u8>, from: int)
    requires
        0 <= from <= s.len(),
        forall|i: int| 0 <= i < s.len() ==> is_ignored(val, ignore, #[trigger] s[i]),
    ensures
        sig_bytes(val, ignore, s, from) == Seq::<u8>::empty(),
    decreases s.len() - from,
{
    if from < s.len() {
        lemma_sig_skipped(val, ignore, s, from + 1);
        assert(is_ignored(val, ignore, s[from]));
    }
}

/// Of symbols in lines, where the separator is skipped and no symbol is, the
/// bytes that are not skipped are the symbols.
pub proof fn lemma_sig_wrap(
    val: Seq<u8>,
    ignore: bool,
    symbols: Seq<u8>,
    width: nat,
    sep: Seq<u8>,
)
    requires
        width > 0,
        forall|i: int| 0 <= i < symbols.len() ==> !is_ignored(val, ignore, #[trigger] symbols[i]),
        forall|i: int| 0 <= i < sep.len() ==> is_ignored(val, ignore, #[trigger] sep[i]),
    ensures
        sig_bytes(val, ignore, wrap_spec(symbols, width, sep), 0) == symbols,
    decreases symbols.len(),
{
    lemma_sig_skipped(val, ignore, sep, 0);
    if symbols.len() == 0 {
    } else if symbols.len() <= width {
        lemma_sig_concat(val, ignore, symbols, sep, 0);
        lemma_sig_kept(val, ignore, symbols, 0);
        assert(symbols.subrange(0, symbols.len() as int) + Seq::<u8>::empty() =~= symbols);
    } else {
        let line = symbols.subrange(0, width as int);
        let rest = symbols.subrange(width as int, symbols.len() as int);
        assert forall|i: int| 0 <= i < rest.len() implies !is_ignored(
            val,
            ignore,
            #[trigger] rest[i],
        ) by {
            assert(rest[i] == symbols[i + width]);
        }
        assert forall|i: int| 0 <= i < line.len() implies !is_ignored(
            val,
            ignore,
            #[trigger] line[i],
        ) by {
            assert(line[i] == symbols[i]);
        }
        lemma_sig_wrap(val, ignore, rest, width, sep);
        lemma_sig_kept(val, ignore, line, 0);
        lemma_sig_concat(val, ignore, line, sep, 0);
        lemma_sig_concat(val, ignore, line + sep, wrap_spec(rest, width, sep), 0);
        assert(line.subrange(0, line.len() as int) =~= line);
        assert((line + Seq::<u8>::empty()) + rest =~= symbols);
    }
}

/// No bytes, no text.
pub proof fn lemma_encode_pad_empty(bit: nat, msb: bool, sym: Seq<u8>, pad: Option<u8>)
    requires
        valid_bit(bit),
    ensures
        encode_pad_spec(bit, msb, sym, pad, Seq::<u8>::empty()) == Seq::<u8>::empty(),
{
    lemma_block_shape(bit);
    lemma_encode_pad_len(bit, msb, sym, pad, Seq::<u8>::empty());
    lemma_base_len_small(bit, 0);
    lemma_base_len_blocks(bit, 0);
    vstd::arithmetic::div_mod::lemma_basic_div(0, dec_of(bit) as int);
    vstd::arithmetic::div_mod::lemma_small_mod(0, dec_of(bit));
    assert(0 * enc_of(bit) == 0) by (nonlinear_arith);
    assert(encode_pad_spec(bit, msb, sym, pad, Seq::<u8>::empty()).len() == 0);
    assert(encode_pad_spec(bit, msb, sym, pad, Seq::<u8>::empty()) =~= Seq::<u8>::empty());
}

/// The padding of the rules is what the tables take it for: an ASCII byte that
/// is no symbol and is not skipped.
pub open spec fn padding_fits(r: Rules, val: Seq<u8>) -> bool {
    r.pad matches Some(p) ==> p < 128 && val[p as int] == PADDING
}

/// The padding that fills up the symbols of a block of `r` bytes.
pub open spec fn block_padding(bit: nat, pad: Option<u8>, r: nat) -> Seq<u8> {
    match pad {
        Some(p) => repeat(p, (enc_of(bit) - data_symbols(bit, r)) as nat),
        None => Seq::<u8>::empty(),
    }
}

/// The symbols of a block and the padding behind them decode to the block.
pub proof fn lemma_block_result_of_encoded(r: Rules, sym: Seq<u8>, val: Seq<u8>, first: Seq<u8>)
    requires
        valid_bit(r.bit as nat),
        inverse_tables(r.bit as nat, sym, val),
        padding_fits(r, val),
        1 <= first.len() <= dec_of(r.bit as nat),
    ensures
        ({
            let bit = r.bit as nat;
            let k = data_symbols(bit, first.len());
            let data = block_symbols(bit, r.msb, sym, first).subrange(0, k as int);
            let block = data + block_padding(bit, r.pad, first.len());
            &&& 0 < k <= enc_of(bit)
            &&& decode_block_result(r, val, block) == Ok::<Seq<u8>, (nat, DecodeKind)>(first)
            &&& data_len(r.pad, block) == k
            &&& forall|i: int|
                0 <= i < block.len() ==> !is_ignored(val, r.ignore, #[trigger] block[i])
        }),
{
    let bit = r.bit as nat;
    let e = enc_of(bit);
    let d = dec_of(bit);
    lemma_block_shape(bit);
    let k = data_symbols(bit, first.len());
    let symbols = block_symbols(bit, r.msb, sym, first);
    let data = symbols.subrange(0, k as int);
    let pads = block_padding(bit, r.pad, first.len());
    let block = data + pads;
    lemma_block_round_trip(bit, r.msb, r.ctb, sym, val, first, k);
    lemma_block_round_trip(bit, r.msb, r.ctb, sym, val, first, (k - ((k * bit) % 8) / bit) as nat);
    lemma_prefix_len_holds(data, symbol_pred(val, bit));
    assert forall|i: int| 0 <= i < k implies symbol_pred(val, bit)(#[trigger] data[i]) by {}
    match r.pad {
        None => {
            assert(block =~= data);
            assert(block.subrange(0, k as int) =~= data);
        },
        Some(p) => {
            assert forall|i: int| 0 <= i < k implies not_byte(p)(#[trigger] block[i]) by {
                assert(block[i] == data[i]);
                assert(symbol_pred(val, bit)(data[i]));
            }
            if k < block.len() {
                assert(block[k as int] == pads[0]);
            }
            lemma_prefix_len_is(block, not_byte(p), k);
            let tail = block.subrange(k as int, block.len() as int);
            assert forall|i: int| 0 <= i < tail.len() implies is_byte(p)(#[trigger] tail[i]) by {
                assert(tail[i] == pads[i]);
            }
            lemma_prefix_len_is(tail, is_byte(p), tail.len());
            assert(block.subrange(0, k as int) =~= data);
        },
    }
    assert forall|i: int| 0 <= i < block.len() implies !is_ignored(
        val,
        r.ignore,
        #[trigger] block[i],
    ) by {
        if i < k {
            assert(block[i] == data[i]);
            assert(symbol_pred(val, bit)(data[i]));
        } else {
            assert(block[i] == pads[i - k]);
        }
    }
}

/// A text decodes to what it was encoded from: where the bytes of `text` from
/// `from` on that are not skipped are the symbols and the padding of `input`,
/// decoding from there on gives `input`, behind what was decoded before.
#[verifier::rlimit(60)]
pub proof fn lemma_decode_encoded(
    r: Rules,
    sym: Seq<u8>,
    val: Seq<u8>,
    text: Seq<u8>,
    from: int,
    input: Seq<u8>,
    acc: Seq<u8>,
)
    requires
        valid_bit(r.bit as nat),
        inverse_tables(r.bit as nat, sym, val),
        padding_fits(r, val),
        0 <= from <= text.len(),
        sig_bytes(val, r.ignore, text, from) == encode_pad_spec(
            r.bit as nat,
            r.msb,
            sym,
            r.pad,
            input,
        ),
    ensures
        decode_from(r, val, text, from, acc) == (Outcome { bytes: acc + input, failure: None }),
    decreases input.len(),
{
    let bit = r.bit as nat;
    let e = enc_of(bit);
    let d = dec_of(bit);
    lemma_block_shape(bit);
    let s = sig_bytes(val, r.ignore, text, from);
    let g = gather(val, r.ignore, text, from, e);
    lemma_gather_sig(val, r.ignore, text, from, e);
    if input.len() == 0 {
        assert(input =~= Seq::<u8>::empty());
        lemma_encode_pad_empty(bit, r.msb, sym, r.pad);
        lemma_decode_end(r, val, text, from, acc);
        assert(acc + input =~= acc);
    } else {
        let first = if input.len() >= d {
            input.subrange(0, d as int)
        } else {
            input
        };
        let rest = if input.len() >= d {
            input.subrange(d as int, input.len() as int)
        } else {
            Seq::<u8>::empty()
        };
        let k = data_symbols(bit, first.len());
        let data = block_symbols(bit, r.msb, sym, first).subrange(0, k as int);
        let pads = block_padding(bit, r.pad, first.len());
        let block = data + pads;
        let after = encode_pad_spec(bit, r.msb, sym, r.pad, rest);
        lemma_encoded_split(bit, r.msb, sym, r.pad, input);
        lemma_block_result_of_encoded(r, sym, val, first);
        assert(first + rest =~= input);
        assert(s == block + after);
        let count = block.len();
        assert(g.len() == count && bytes_at(text, g) =~= block) by {
            assert(s.subrange(0, count as int) =~= block);
        }
        lemma_decode_ok(r, val, text, from, acc, first);
        let next = g.last() + 1;
        assert(sig_bytes(val, r.ignore, text, next) =~= after) by {
            assert(s.subrange(count as int, s.len() as int) =~= after);
        }
        assert((acc + first) + rest =~= acc + input);
        let pos_len = g.len();
        let padded_block = r.pad_final && data_len(r.pad, bytes_at(text, g)) < e;
        if pos_len < e {
            assert(rest =~= Seq::<u8>::empty());
            assert(acc + first =~= acc + input);
            assert(decode_from(r, val, text, from, acc) == (Outcome {
                bytes: acc + first,
                failure: None,
            }));
        } else if padded_block {
            assert(rest =~= Seq::<u8>::empty());
            assert(acc + first =~= acc + input);
            lemma_encode_pad_empty(bit, r.msb, sym, r.pad);
            lemma_sig_next(val, r.ignore, text, next);
            assert(next_sig(val, r.ignore, text, next) >= text.len());
            assert(decode_from(r, val, text, from, acc) == (Outcome {
                bytes: acc + first,
                failure: None,
            }));
        } else {
            lemma_decode_encoded(r, sym, val, text, next, rest, acc + first);
            assert(decode_from(r, val, text, from, acc) == decode_from(
                r,
                val,
                text,
                next,
                acc + first,
            ));
        }
    }
}

/// The text of an input that is not empty: the symbols of its first block, the
/// padding that fills them up, and the text of the rest. Behind a block that is
/// short there is no rest.
pub proof fn lemma_encoded_split(
    bit: nat,
    msb: bool,
    sym: Seq<u8>,
    pad: Option<u8>,
    input: Seq<u8>,
)
    requires
        valid_bit(bit),
        input.len() > 0,
    ensures
        ({
            let d = dec_of(bit);
            let first = if input.len() >= d {
                input.subrange(0, d as int)
            } else {
                input
            };
            let rest = if input.len() >= d {
                input.subrange(d as int, input.len() as int)
            } else {
                Seq::<u8>::empty()
            };
            let k = data_symbols(bit, first.len());
            let data = block_symbols(bit, msb, sym, first).subrange(0, k as int);
            &&& 1 <= first.len() <= d
            &&& encode_pad_spec(bit, msb, sym, pad, input) == data + block_padding(
                bit,
                pad,
                first.len(),
            ) + encode_pad_spec(bit, msb, sym, pad, rest)
            &&& (data + block_padding(bit, pad, first.len())).len() < enc_of(bit) ==> rest.len()
                == 0 && pad is None
            &&& data_symbols(bit, first.len()) < enc_of(bit) ==> rest.len() == 0
        }),
{
    let d = dec_of(bit);
    let e = enc_of(bit);
    lemma_block_shape(bit);
    lemma_encode_pad_empty(bit, msb, sym, pad);
    if input.len() >= d {
        let first = input.subrange(0, d as int);
        let rest = input.subrange(d as int, input.len() as int);
        let symbols = block_symbols(bit, msb, sym, first);
        vstd::arithmetic::div_mod::lemma_mod_self_0(d as int);
        assert(first + rest =~= input);
        lemma_encode_pad_append(bit, msb, sym, pad, first, rest);
        assert(first.subrange(0, d as int) =~= first);
        assert(first.subrange(d as int, d as int) =~= Seq::<u8>::empty());
        assert(encode_base_spec(bit, msb, sym, Seq::<u8>::empty()) == Seq::<u8>::empty());
        assert(encode_base_spec(bit, msb, sym, first) =~= symbols);
        assert(symbols.subrange(0, e as int) =~= symbols);
        assert(block_padding(bit, pad, d) =~= Seq::<u8>::empty());
        assert(symbols + Seq::<u8>::empty() =~= symbols);
    } else {
        lemma_base_len_small(bit, input.len());
        lemma_base_len_blocks(bit, input.len());
        lemma_encode_pad_len(bit, msb, sym, pad, input);
        lemma_encode_base_len(bit, msb, sym, input);
        vstd::arithmetic::div_mod::lemma_small_mod(input.len(), d);
        vstd::arithmetic::div_mod::lemma_basic_div(input.len() as int, d as int);
        assert(0 * e == 0) by (nonlinear_arith);
        let data = block_symbols(bit, msb, sym, input).subrange(
            0,
            base_len(bit, input.len()) as int,
        );
        assert(encode_base_spec(bit, msb, sym, input) == data);
        assert(data + block_padding(bit, pad, input.len()) + Seq::<u8>::empty()
            =~= encode_pad_spec(bit, msb, sym, pad, input));
    }
}

/// No byte of a text without lines is skipped.
pub proof fn lemma_encoded_kept(r: Rules, sym: Seq<u8>, val: Seq<u8>, input: Seq<u8>)
    requires
        valid_bit(r.bit as nat),
        inverse_tables(r.bit as nat, sym, val),
        padding_fits(r, val),
    ensures
        forall|i: int|
            0 <= i < encode_pad_spec(r.bit as nat, r.msb, sym, r.pad, input).len()
                ==> !is_ignored(
                val,
                r.ignore,
                #[trigger] encode_pad_spec(r.bit as nat, r.msb, sym, r.pad, input)[i],
            ),
    decreases input.len(),
{
    let bit = r.bit as nat;
    let d = dec_of(bit);
    lemma_block_shape(bit);
    if input.len() == 0 {
        assert(input =~= Seq::<u8>::empty());
        lemma_encode_pad_empty(bit, r.msb, sym, r.pad);
    } else {
        let first = if input.len() >= d {
            input.subrange(0, d as int)
        } else {
            input
        };
        let rest = if input.len() >= d {
            input.subrange(d as int, input.len() as int)
        } else {
            Seq::<u8>::empty()
        };
        let k = data_symbols(bit, first.len());
        let block = block_symbols(bit, r.msb, sym, first).subrange(0, k as int) + block_padding(
            bit,
            r.pad,
            first.len(),
        );
        let after = encode_pad_spec(bit, r.msb, sym, r.pad, rest);
        lemma_encoded_split(bit, r.msb, sym, r.pad, input);
        lemma_block_result_of_encoded(r, sym, val, first);
        lemma_encoded_kept(r, sym, val, rest);
        let all = encode_pad_spec(bit, r.msb, sym, r.pad, input);
        assert forall|i: int| 0 <= i < all.len() implies !is_ignored(
            val,
            r.ignore,
            #[trigger] all[i],
        ) by {
            if i < block.len() {
                assert(all[i] == block[i]);
            } else {
                assert(all[i] == after[i - block.len()]);
            }
        }
    }
}

/// The length of a text is a length that a text can have.
pub proof fn lemma_encoded_len_valid(bit: nat, padded: bool, n: nat)
    requires
        valid_bit(bit),
    ensures
        valid_len(bit, padded, pad_len(bit, padded, n)) == pad_len(bit, padded, n),
{
    let e = enc_of(bit);
    let d = dec_of(bit);
    lemma_block_shape(bit);
    lemma_base_len_blocks(bit, n);
    lemma_base_len_small(bit, n % d);
    lemma_base_len_small(bit, 0);
    let q = n / d;
    let len = pad_len(bit, padded, n);
    if padded {
        let blocks = if n % d == 0 {
            q
        } else {
            q + 1
        };
        assert(len == blocks * e) by (nonlinear_arith)
            requires
                len == q * e + if n % d == 0 {
                    0
                } else {
                    e
                },
                blocks == if n % d == 0 {
                    q
                } else {
                    q + 1
                },
        ;
        vstd::arithmetic::div_mod::lemma_mod_multiples_basic(blocks as int, e as int);
    } else {
        let tail = base_len(bit, n % d);
        vstd::arithmetic::div_mod::lemma_fundamental_div_mod(n as int, d as int);
        let bits = len * bit;
        let whole = q * e * bit;
        assert(whole == 8 * (d * q)) by (nonlinear_arith)
            requires
                whole == q * e * bit,
                bit * e == 8 * d,
        ;
        assert(bits == whole + bit * tail) by (nonlinear_arith)
            requires
                bits == len * bit,
                len == q * e + tail,
                whole == q * e * bit,
        ;
        assert(bits == 8 * n + (bit * tail - 8 * (n % d)));
        vstd::arithmetic::div_mod::lemma_fundamental_div_mod_converse(
            bits as int,
            8,
            n as int,
            (bit * tail - 8 * (n % d)) as int,
        );
        vstd::arithmetic::div_mod::lemma_basic_div((bits % 8) as int, bit as int);
    }
}

/// No two symbols of an encoding are the same.
pub proof fn lemma_symbols_distinct(e: EncodingView)
    requires
        e.wf(),
    ensures
        crate::arithmetic::distinct(e.symbols()),
{
    let symbols = e.symbols();
    if !e.arithmetic {
        lemma_block_shape(e.bit);
    }
    assert forall|a: int, b: int| 0 <= a < b < symbols.len() implies symbols[a] != symbols[b] by {
        assert(e.val[e.sym[a] as int] == a);
        assert(e.val[e.sym[b] as int] == b);
    }
}

/// Decoding the text of an input gives the input back. The arithmetic codec
/// takes no more than 512 bytes.
pub proof fn lemma_round_trip(e: EncodingView, input: Seq<u8>)
    requires
        e.wf(),
        e.arithmetic ==> input.len() <= 4 * crate::arithmetic::MAX_BIGINT_BUFFER,
    ensures
        e.decode_len(e.encoded(input).len()) is Ok,
        e.decoded(e.encoded(input), e.decode_len(e.encoded(input).len())->Ok_0) == (Outcome {
            bytes: input,
            failure: None,
        }),
{
    let text = e.encoded(input);
    if e.arithmetic {
        let symbols = e.symbols();
        lemma_symbols_distinct(e);
        crate::arithmetic::lemma_round_trip(symbols, input);
        crate::arithmetic::lemma_encoded_not_shorter(symbols, input);
        assert(crate::arithmetic::decode_result(
            symbols,
            text,
            crate::arithmetic::MAX_BIGINT_BUFFER as nat,
        ) == Ok::<Seq<u8>, crate::error::DecodeError>(input));
    } else {
        let r = e.rules();
        let bit = e.bit;
        lemma_block_shape(bit);
        assert(r.bit as nat == bit);
        assert(inverse_tables(bit, e.sym, e.val));
        let symbols = encode_pad_spec(bit, e.msb, e.sym, e.pad, input);
        lemma_encoded_kept(r, e.sym, e.val, input);
        assert(symbols == encode_pad_spec(r.bit as nat, r.msb, e.sym, r.pad, input));
        assert forall|i: int| 0 <= i < symbols.len() implies !is_ignored(
            e.val,
            e.ignore,
            #[trigger] symbols[i],
        ) by {
            assert(!is_ignored(
                e.val,
                r.ignore,
                encode_pad_spec(r.bit as nat, r.msb, e.sym, r.pad, input)[i],
            ));
        }
        lemma_encode_pad_len(bit, e.msb, e.sym, e.pad, input);
        lemma_encoded_len_valid(bit, e.pad is Some, input.len());
        match e.wrap {
            None => {
                lemma_sig_kept(e.val, e.ignore, symbols, 0);
                assert(symbols.subrange(0, symbols.len() as int) =~= symbols);
            },
            Some((width, sep)) => {
                assert(e.val[sep[0] as int] == crate::block::IGNORE);
                assert(e.ignore);
                assert forall|i: int| 0 <= i < sep.len() implies is_ignored(
                    e.val,
                    e.ignore,
                    #[trigger] sep[i],
                ) by {}
                lemma_sig_wrap(e.val, e.ignore, symbols, width, sep);
            },
        }
        lemma_decode_encoded(r, e.sym, e.val, text, 0, input, Seq::<u8>::empty());
        assert(Seq::<u8>::empty() + input =~= input);
    }
}

/// Every byte that has a value of the alphabet is the symbol of that value.
pub open spec fn canonical_tables(bit: nat, sym: Seq<u8>, val: Seq<u8>) -> bool {
    forall|c: int|
        0 <= c < 128 && (#[trigger] val[c] as nat) < radix_of(bit) ==> sym[val[c] as int] == c
}

/// The symbol values of the bytes of a block of symbol values are those values.
pub proof fn lemma_block_values_of_bytes(bit: nat, msb: bool, values: Seq<u8>)
    requires
        valid_bit(bit),
        values.len() == enc_of(bit),
        digits_below(values, radix_of(bit)),
    ensures
        block_bytes(bit, msb, values).len() == dec_of(bit),
        block_values(bit, msb, block_bytes(bit, msb, values)) == values,
{
    let e = enc_of(bit);
    let d = dec_of(bit);
    let r = radix_of(bit);
    lemma_block_shape(bit);
    let ord = ordered(values, msb);
    let n = values_number(bit, msb, values);
    let digits = be_digits(n, 256, d);
    let bytes = block_bytes(bit, msb, values);
    lemma_ordered_twice(values, msb);
    lemma_ordered_twice(digits, msb);
    lemma_be_digits_len(n, 256, d);
    lemma_be_digits_value(n, 256, d);
    assert(digits_below(ord, r)) by {
        assert forall|i: int| 0 <= i < ord.len() implies (#[trigger] ord[i] as nat) < r by {
            if msb {
                assert((values[i] as nat) < r);
            } else {
                assert(ord[i] == values[e - 1 - i]);
                assert((values[e - 1 - i] as nat) < r);
            }
        }
    }
    lemma_be_value_bound(ord, r);
    vstd::arithmetic::div_mod::lemma_small_mod(n, pow(256, d));
    assert(bytes + repeat(0, 0) =~= bytes);
    assert(block_number(bit, msb, bytes) == n);
    lemma_be_value_digits(ord, r);
}

/// Symbols that decode, with the trailing bits checked, are the symbols of what
/// they decode to, where every byte that has a value is the symbol of it.
pub proof fn lemma_block_canonical(
    bit: nat,
    msb: bool,
    sym: Seq<u8>,
    val: Seq<u8>,
    data: Seq<u8>,
    length_at: nat,
)
    requires
        valid_bit(bit),
        sym.len() == 256,
        val.len() == 128,
        canonical_tables(bit, sym, val),
        0 < data.len() <= enc_of(bit),
        decode_data(bit, msb, true, val, data, length_at) is Ok,
    ensures
        ({
            let bytes = decode_data(bit, msb, true, val, data, length_at)->Ok_0;
            &&& 1 <= bytes.len() <= dec_of(bit)
            &&& data_symbols(bit, bytes.len()) == data.len()
            &&& block_symbols(bit, msb, sym, bytes).subrange(0, data.len() as int) == data
            &&& data.len() == enc_of(bit) <==> bytes.len() == dec_of(bit)
        }),
{
    let e = enc_of(bit);
    let d = dec_of(bit);
    let k = data.len();
    lemma_block_shape(bit);
    lemma_prefix_len_holds(data, symbol_pred(val, bit));
    let zeros = repeat(0, (e - k) as nat);
    let values = values_of(val, data) + zeros;
    assert(digits_below(values, radix_of(bit))) by {
        assert forall|i: int| 0 <= i < values.len() implies (#[trigger] values[i] as nat)
            < radix_of(bit) by {
            if i < k {
                assert(symbol_pred(val, bit)(data[i]));
                assert(values[i] == val[data[i] as int]);
            }
        }
    }
    lemma_block_values_of_bytes(bit, msb, values);
    let all = block_bytes(bit, msb, values);
    let bytes = decode_data(bit, msb, true, val, data, length_at)->Ok_0;
    let kb = k * bit;
    assert(kb <= 8 * d && (k < e ==> kb < 8 * d) && kb >= bit) by (nonlinear_arith)
        requires
            kb == k * bit,
            1 <= k <= e,
            bit * e == 8 * d,
            bit >= 1,
    ;
    if k == e {
        assert(values =~= values_of(val, data));
        assert(bytes == all);
        assert(kb == 8 * d) by (nonlinear_arith)
            requires
                kb == k * bit,
                k == e,
                bit * e == 8 * d,
        ;
    } else {
        let n = (kb / 8) as nat;
        assert(bytes == all.subrange(0, n as int));
        assert(all.subrange(n as int, d as int) == repeat(0, (d - n) as nat));
        assert(all =~= bytes + repeat(0, (d - n) as nat)) by {
            assert forall|i: int| 0 <= i < d implies all[i] == (bytes + repeat(
                0,
                (d - n) as nat,
            ))[i] by {
                if i >= n {
                    assert(all.subrange(n as int, d as int)[i - n] == 0);
                }
            }
        }
        assert(block_number(bit, msb, bytes) == block_number(bit, msb, all)) by {
            assert(all + repeat(0, 0) =~= all);
        }
        // The symbols hold the bits of the bytes and fewer than a symbol's more.
        vstd::arithmetic::div_mod::lemma_fundamental_div_mod(kb as int, 8);
        assert(n >= 1) by {
            if n == 0 {
                assert(kb % 8 == kb);
            }
        }
        assert(n < d);
        assert(base_len(bit, n) == k) by {
            let extra = (kb % 8) as nat;
            assert(8 * n + bit - 1 == bit * k + (bit - 1 - extra)) by (nonlinear_arith)
                requires
                    kb == k * bit,
                    kb == 8 * n + extra,
            ;
            vstd::arithmetic::div_mod::lemma_fundamental_div_mod_converse(
                (8 * n + bit - 1) as int,
                bit as int,
                k as int,
                (bit - 1 - extra) as int,
            );
        }
    }
    assert(block_values(bit, msb, bytes) == values);
    let symbols = block_symbols(bit, msb, sym, bytes);
    assert(symbols.subrange(0, k as int) =~= data) by {
        assert forall|i: int| 0 <= i < k implies symbols[i] == data[i] by {
            assert(symbol_pred(val, bit)(data[i]));
            assert(values[i] == val[data[i] as int]);
        }
    }
}

/// What was decoded from a text without padding and with nothing skipped, the
/// trailing bits checked, encodes to that text, where every byte that has a value
/// is the symbol of it.
pub proof fn lemma_encode_decoded(
    r: Rules,
    sym: Seq<u8>,
    val: Seq<u8>,
    text: Seq<u8>,
    from: int,
    acc: Seq<u8>,
)
    requires
        valid_bit(r.bit as nat),
        sym.len() == 256,
        val.len() == 128,
        canonical_tables(r.bit as nat, sym, val),
        r.ctb,
        r.pad is None,
        !r.ignore,
        0 <= from <= text.len(),
        decode_from(r, val, text, from, acc).failure is None,
    ensures
        ({
            let out = decode_from(r, val, text, from, acc).bytes;
            &&& acc.len() <= out.len()
            &&& out.subrange(0, acc.len() as int) == acc
            &&& encode_base_spec(
                r.bit as nat,
                r.msb,
                sym,
                out.subrange(acc.len() as int, out.len() as int),
            ) == text.subrange(from, text.len() as int)
        }),
    decreases text.len() - from,
{
    let bit = r.bit as nat;
    let e = enc_of(bit);
    let d = dec_of(bit);
    lemma_block_shape(bit);
    let g = gather(val, r.ignore, text, from, e);
    let s = sig_bytes(val, r.ignore, text, from);
    let remaining = text.subrange(from, text.len() as int);
    lemma_sig_kept(val, r.ignore, text, from);
    lemma_gather_sig(val, r.ignore, text, from, e);
    let out = decode_from(r, val, text, from, acc).bytes;
    if g.len() == 0 {
        lemma_decode_end(r, val, text, from, acc);
        assert(out.subrange(0, acc.len() as int) =~= acc);
        assert(out.subrange(acc.len() as int, out.len() as int) =~= Seq::<u8>::empty());
        assert(remaining =~= Seq::<u8>::empty());
    } else {
        let block = bytes_at(text, g);
        let k = g.len();
        assert(block =~= remaining.subrange(0, k as int));
        let length_at = (k - ((k * bit) % 8) / bit) as nat;
        match decode_block_result(r, val, block) {
            Err((i, kind)) => {
                lemma_gather(val, r.ignore, text, from, e);
                lemma_decode_err(r, val, text, from, acc, i, kind);
            },
            Ok(bytes) => {
                lemma_decode_ok(r, val, text, from, acc, bytes);
                assert(data_len(r.pad, block) == k);
                assert(block.subrange(0, k as int) =~= block);
                lemma_prefix_len_holds(block, symbol_pred(val, bit));
                assert(decode_data(bit, r.msb, true, val, block, length_at) == Ok::<
                    Seq<u8>,
                    (nat, DecodeKind),
                >(bytes));
                lemma_block_canonical(bit, r.msb, sym, val, block, length_at);
                let symbols = block_symbols(bit, r.msb, sym, bytes);
                if k < e {
                    assert(out == acc + bytes);
                    assert(out.subrange(0, acc.len() as int) =~= acc);
                    assert(out.subrange(acc.len() as int, out.len() as int) =~= bytes);
                    assert(remaining =~= block);
                    assert(encode_base_spec(bit, r.msb, sym, bytes) == symbols.subrange(
                        0,
                        base_len(bit, bytes.len()) as int,
                    ));
                } else {
                    let next = g.last() + 1;
                    assert(next == from + e) by {
                        lemma_gather(val, r.ignore, text, from, e);
                        lemma_gather_consecutive(val, text, from, e);
                    }
                    lemma_encode_decoded(r, sym, val, text, next, acc + bytes);
                    let tail = out.subrange((acc + bytes).len() as int, out.len() as int);
                    assert(out.subrange(0, acc.len() as int) =~= acc) by {
                        assert(out.subrange(0, (acc + bytes).len() as int) == acc + bytes);
                        assert forall|i: int| 0 <= i < acc.len() implies out[i] == acc[i] by {
                            assert(out.subrange(0, (acc + bytes).len() as int)[i] == (acc
                                + bytes)[i]);
                        }
                    }
                    assert(out.subrange(acc.len() as int, out.len() as int) =~= bytes + tail) by {
                        assert forall|i: int| 0 <= i < bytes.len() implies out[acc.len() + i]
                            == bytes[i] by {
                            assert(out.subrange(0, (acc + bytes).len() as int)[acc.len() + i]
                                == (acc + bytes)[acc.len() + i]);
                        }
                    }
                    vstd::arithmetic::div_mod::lemma_mod_self_0(d as int);
                    lemma_encode_base_append(bit, r.msb, sym, bytes, tail);
                    assert(bytes.subrange(0, d as int) =~= bytes);
                    assert(bytes.subrange(d as int, d as int) =~= Seq::<u8>::empty());
                    assert(encode_base_spec(bit, r.msb, sym, Seq::<u8>::empty())
                        == Seq::<u8>::empty());
                    assert(encode_base_spec(bit, r.msb, sym, bytes) =~= symbols);
                    assert(symbols.subrange(0, e as int) =~= symbols);
                    assert(remaining =~= block + text.subrange(next, text.len() as int));
                }
            },
        }
    }
}

/// Where nothing is skipped, the next bytes are those that follow.
proof fn lemma_gather_consecutive(val: Seq<u8>, text: Seq<u8>, from: int, count: nat)
    requires
        0 <= from <= text.len(),
    ensures
        forall|i: int|
            0 <= i < gather(val, false, text, from, count).len() ==> #[trigger] gather(
                val,
                false,
                text,
                from,
                count,
            )[i] == from + i,
    decreases count,
{
    lemma_next_sig(val, false, text, from);
    let p = next_sig(val, false, text, from);
    if from < text.len() {
        assert(!is_ignored(val, false, text[from]));
        assert(p == from);
    }
    if count > 0 && p < text.len() {
        lemma_gather_consecutive(val, text, p + 1, (count - 1) as nat);
        let g = gather(val, false, text, from, count);
        let g1 = gather(val, false, text, p + 1, (count - 1) as nat);
        assert forall|i: int| 0 <= i < g.len() implies #[trigger] g[i] == from + i by {
            if i > 0 {
                assert(g[i] == g1[i - 1]);
            }
        }
    }
}

/// A canonical encoding decodes nothing but the texts of its encoder: a text
/// that decodes is the text of what it decodes to.
pub proof fn lemma_canonical(e: EncodingView, text: Seq<u8>)
    requires
        e.wf(),
        e.canonical(),
        e.decode_len(text.len()) is Ok,
        e.decoded(text, e.decode_len(text.len())->Ok_0).failure is None,
    ensures
        e.encoded(e.decoded(text, e.decode_len(text.len())->Ok_0).bytes) == text,
{
    if e.arithmetic {
        let symbols = e.symbols();
        lemma_symbols_distinct(e);
        crate::arithmetic::lemma_mapped_prefix_holds(symbols, text);
        crate::arithmetic::lemma_canonical(symbols, text);
    } else {
        let r = e.rules();
        let bit = e.bit;
        lemma_block_shape(bit);
        assert(r.bit as nat == bit);
        assert(e.symbols().len() == radix_of(bit));
        // Nothing is skipped, there is no padding and nothing is wrapped.
        assert(!e.ignore) by {
            if e.ignore {
                let c = choose|c: int| 0 <= c < 128 && #[trigger] e.val[c] == crate::block::IGNORE;
                assert(e.val[c] != crate::block::INVALID);
            }
        }
        assert(e.pad is None) by {
            if e.pad is Some {
                let p = e.pad->Some_0;
                assert(e.val[p as int] != crate::block::INVALID);
            }
        }
        assert(e.wrap is None) by {
            if e.wrap is Some {
                let sep = e.wrap->Some_0.1;
                assert(e.val[sep[0] as int] == crate::block::IGNORE);
                assert(crate::encoding::marks_ignored(e.val));
            }
        }
        assert(canonical_tables(bit, e.sym, e.val)) by {
            assert forall|c: int| 0 <= c < 128 && (#[trigger] e.val[c] as nat) < radix_of(
                bit,
            ) implies e.sym[e.val[c] as int] == c by {
                assert(e.val[c] != crate::block::INVALID);
            }
        }
        lemma_encode_decoded(r, e.sym, e.val, text, 0, Seq::<u8>::empty());
        let out = decode_from(r, e.val, text, 0, Seq::<u8>::empty()).bytes;
        assert(out.subrange(0, out.len() as int) =~= out);
        assert(text.subrange(0, text.len() as int) =~= text);
    }
}

/// What the block codec writes is as long as it says beforehand: where encoding
/// into a buffer succeeds, the text fills the buffer, and its length is the one
/// that the encoding has for inputs of that length.
pub proof fn lemma_length_exact(e: EncodingView, input: Seq<u8>, room: nat)
    requires
        e.wf(),
        !e.arithmetic,
        e.encode_result(input, room) is Ok,
    ensures
        e.encode_result(input, room) == Ok::<nat, crate::error::EncodeKind>(room),
        e.encoded(input).len() == room,
        e.encode_len(input.len()) == room,
{
    crate::block::lemma_encode_wrap_len(e.bit, e.msb, e.sym, e.pad, e.wrap, input);
}

/// Encoding into a buffer and encoding as a string give the same text: what
/// the buffer holds, as long as the call says, are the bytes of the string.
pub proof fn lemma_buffer_is_string(e: EncodingView, input: Seq<u8>, room: nat)
    requires
        e.wf(),
        e.encode_result(input, room) is Ok,
    ensures
        e.encode_result(input, room) == Ok::<nat, crate::error::EncodeKind>(
            e.encoded(input).len(),
        ),
        vstd::utf8::encode_utf8(crate::text::ascii_chars(e.encoded(input))) == e.encoded(input),
{
    if !e.arithmetic {
        lemma_length_exact(e, input, room);
    }
    e.lemma_encoded_ascii(input);
    crate::text::lemma_ascii_is_utf8(e.encoded(input));
}

/// The arithmetic codec keeps the zero bytes at the front: the text starts with
/// as many first symbols as the input starts with zero bytes, whatever follows
/// them.
pub proof fn lemma_leading_zeros(e: EncodingView, input: Seq<u8>)
    requires
        e.wf(),
        e.arithmetic,
    ensures
        crate::radix::count_leading(e.encoded(input), e.symbols()[0]) == crate::radix::count_leading(
            input,
            0,
        ),
{
    let symbols = e.symbols();
    lemma_symbols_distinct(e);
    crate::arithmetic::lemma_encoded_shape(symbols, input);
}

/// An encoding with an alphabet of 41 symbols or more can encode every input of
/// at most 512 bytes as a string, and so can every block codec: the text is no
/// longer than the encoding says beforehand.
pub proof fn lemma_encode_fits(e: EncodingView, input: Seq<u8>)
    requires
        e.wf(),
        input.len() <= 4 * crate::arithmetic::MAX_BIGINT_BUFFER,
        e.arithmetic ==> e.base >= 41,
    ensures
        e.encode_len(input.len()) <= usize::MAX,
        e.encode_result(input, e.encode_len(input.len())) is Ok,
{
    if e.arithmetic {
        crate::arithmetic::lemma_encoded_bound(e.symbols(), input);
    } else {
        let bit = e.bit;
        let n = input.len();
        lemma_block_shape(bit);
        lemma_base_len_blocks(bit, n);
        lemma_base_len_small(bit, n % dec_of(bit));
        let q = n / dec_of(bit);
        assert(q <= 512) by {
            vstd::arithmetic::div_mod::lemma_div_is_ordered(n as int, 512, dec_of(bit) as int);
            vstd::arithmetic::div_mod::lemma_div_pos_is_pos(n as int, dec_of(bit) as int);
            vstd::arithmetic::div_mod::lemma_div_is_ordered_by_denominator(
                512,
                1,
                dec_of(bit) as int,
            );
        }
        assert(q * enc_of(bit) <= 512 * 8) by (nonlinear_arith)
            requires
                q <= 512,
                enc_of(bit) <= 8,
        ;
        let symbols = crate::block::pad_len(bit, e.pad is Some, n);
        assert(symbols <= 4104);
        match e.wrap {
            None => {},
            Some((width, sep)) => {
                let lines = crate::block::ceil_div(symbols, width);
                assert(lines <= symbols) by {
                    vstd::arithmetic::div_mod::lemma_div_is_ordered_by_denominator(
                        (symbols + width - 1) as int,
                        1,
                        width as int,
                    );
                    if symbols == 0 {
                        vstd::arithmetic::div_mod::lemma_basic_div(
                            (width - 1) as int,
                            width as int,
                        );
                    } else {
                        assert(symbols + width - 1 <= symbols * width) by (nonlinear_arith)
                            requires
                                symbols >= 1,
                                width >= 1,
                        ;
                        assert(width * symbols == symbols * width) by (nonlinear_arith);
                        vstd::arithmetic::div_mod::lemma_div_is_ordered(
                            (symbols + width - 1) as int,
                            (symbols * width) as int,
                            width as int,
                        );
                        vstd::arithmetic::div_mod::lemma_div_multiples_vanish(
                            symbols as int,
                            width as int,
                        );
                    }
                }
                assert(sep.len() * lines <= 15 * 4104) by (nonlinear_arith)
                    requires
                        sep.len() <= 15,
                        lines <= 4104,
                ;
            },
        }
    }
}

/// A buffer as long as the text has room for what the text decodes to: the
/// arithmetic codec never fails for want of room then.
pub proof fn lemma_decode_room(e: EncodingView, text: Seq<u8>)
    requires
        e.wf(),
        e.arithmetic,
    ensures
        e.decoded(text, text.len()).failure matches Some(f) ==> f.error.kind
            != DecodeKind::BufferTooSmall,
{
    let symbols = e.symbols();
    lemma_symbols_distinct(e);
    if crate::arithmetic::decode_result(
        symbols,
        text,
        crate::arithmetic::MAX_BIGINT_BUFFER as nat,
    ) is Ok {
        crate::arithmetic::lemma_mapped_prefix_holds(symbols, text);
        crate::arithmetic::lemma_decoded_not_longer(symbols, text);
    }
}

/// The bytes of one more block have room where the bytes of the text behind it
/// have.
proof fn lemma_room_split(bit: nat, padded: bool, got: nat, rest: nat, m: nat)
    requires
        valid_bit(bit),
        0 < got <= enc_of(bit),
        m * 8 <= got * bit,
        padded ==> got == enc_of(bit),
    ensures
        m + decode_room(bit, padded, rest) <= decode_room(bit, padded, got + rest),
{
    let e = enc_of(bit);
    let d = dec_of(bit);
    lemma_block_shape(bit);
    if padded {
        assert(m <= d) by (nonlinear_arith)
            requires
                m * 8 <= got * bit,
                got == e,
                bit * e == 8 * d,
        ;
        vstd::arithmetic::div_mod::lemma_hoist_over_denominator(rest as int, 1, e);
        let q = rest / e;
        assert((q + 1) * d == q * d + d) by (nonlinear_arith);
    } else {
        let a = got * bit;
        let b = rest * bit;
        assert((got + rest) * bit == a + b) by (nonlinear_arith)
            requires
                a == got * bit,
                b == rest * bit,
        ;
        vstd::arithmetic::div_mod::lemma_fundamental_div_mod(b as int, 8);
        vstd::arithmetic::div_mod::lemma_fundamental_div_mod((a + b) as int, 8);
    }
}

/// What is decoded from a text is no longer than the room that the length of the
/// text asks for.
pub proof fn lemma_decoded_bound(r: Rules, val: Seq<u8>, text: Seq<u8>, from: int, acc: Seq<u8>)
    requires
        valid_bit(r.bit as nat),
        0 <= from <= text.len(),
    ensures
        decode_from(r, val, text, from, acc).bytes.len() <= acc.len() + decode_room(
            r.bit as nat,
            r.pad is Some,
            (text.len() - from) as nat,
        ),
    decreases text.len() - from,
{
    let bit = r.bit as nat;
    let e = enc_of(bit);
    lemma_block_shape(bit);
    let g = gather(val, r.ignore, text, from, e);
    lemma_gather(val, r.ignore, text, from, e);
    if g.len() == 0 {
        lemma_decode_end(r, val, text, from, acc);
    } else {
        let block = bytes_at(text, g);
        let next = g.last() + 1;
        let rest = (text.len() - next) as nat;
        crate::block::lemma_block_result_len(r, val, block);
        match decode_block_result(r, val, block) {
            Err((i, kind)) => {
                lemma_decode_err(r, val, text, from, acc, i, kind);
            },
            Ok(bytes) => {
                lemma_decode_ok(r, val, text, from, acc, bytes);
                assert(g[g.len() - 1] >= from + g.len() - 1);
                if r.pad is Some {
                    // A block of a text with padding decodes only where it is whole.
                    assert(block.len() == e);
                }
                lemma_room_split(bit, r.pad is Some, g.len(), rest, bytes.len());
                crate::block::lemma_room_monotonic(bit, r.pad is Some, g.len() + rest, (text.len() - from) as nat);
                if g.len() == e && !(r.pad_final && data_len(r.pad, block) < e) {
                    lemma_decoded_bound(r, val, text, next, acc + bytes);
                }
            },
        }
    }
}

/// Where nothing is skipped and nothing is padded, a text that decodes gives as
/// many bytes as its length asks room for, and no fewer.
pub proof fn lemma_decoded_exact(r: Rules, val: Seq<u8>, text: Seq<u8>, from: int, acc: Seq<u8>)
    requires
        valid_bit(r.bit as nat),
        !r.ignore,
        r.pad is None,
        0 <= from <= text.len(),
        decode_from(r, val, text, from, acc).failure is None,
    ensures
        decode_from(r, val, text, from, acc).bytes.len() == acc.len() + decode_room(
            r.bit as nat,
            false,
            (text.len() - from) as nat,
        ),
    decreases text.len() - from,
{
    let bit = r.bit as nat;
    let e = enc_of(bit);
    let d = dec_of(bit);
    let m = (text.len() - from) as nat;
    lemma_block_shape(bit);
    let g = gather(val, false, text, from, e);
    lemma_gather(val, false, text, from, e);
    lemma_gather_consecutive(val, text, from, e);
    lemma_next_sig(val, false, text, from);
    if g.len() == 0 {
        lemma_decode_end(r, val, text, from, acc);
        if from < text.len() {
            assert(!is_ignored(val, false, text[from]));
        }
        assert(m == 0);
        assert(0 * bit == 0) by (nonlinear_arith);
    } else {
        let block = bytes_at(text, g);
        let next = g.last() + 1;
        assert(g[g.len() - 1] == from + g.len() - 1);
        crate::block::lemma_block_result_len(r, val, block);
        match decode_block_result(r, val, block) {
            Err((i, kind)) => {
                lemma_decode_err(r, val, text, from, acc, i, kind);
            },
            Ok(bytes) => {
                lemma_decode_ok(r, val, text, from, acc, bytes);
                assert(data_len(r.pad, block) == g.len());
                if g.len() < e {
                    lemma_next_sig(val, false, text, next);
                    if next < text.len() {
                        assert(!is_ignored(val, false, text[next]));
                    }
                    assert(m == g.len());
                } else {
                    assert(g.len() * bit == 8 * d) by (nonlinear_arith)
                        requires
                            g.len() == e,
                            bit * e == 8 * d,
                    ;
                    assert(bytes.len() == d);
                    lemma_decoded_exact(r, val, text, next, acc + bytes);
                    let rest = (text.len() - next) as nat;
                    assert(m * bit == rest * bit + 8 * d) by (nonlinear_arith)
                        requires
                            m == rest + e,
                            bit * e == 8 * d,
                    ;
                }
            },
        }
    }
}

/// Where an encoding skips nothing and pads nothing, the length that
/// [`EncodingView::decode_len`] gives is exact: a text that decodes gives that
/// many bytes.
pub proof fn lemma_decode_len_exact(e: EncodingView, text: Seq<u8>)
    requires
        e.wf(),
        !e.arithmetic,
        !e.ignore,
        e.pad is None,
        e.decode_len(text.len()) is Ok,
        e.decoded(text, e.decode_len(text.len())->Ok_0).failure is None,
    ensures
        e.decoded(text, e.decode_len(text.len())->Ok_0).bytes.len() == e.decode_len(
            text.len(),
        )->Ok_0,
{
    let r = e.rules();
    assert(r.bit as nat == e.bit);
    lemma_decoded_exact(r, e.val, text, 0, Seq::<u8>::empty());
}

/// The length that [`EncodingView::decode_len`] gives is room enough: what is
/// decoded from a text is no longer.
pub proof fn lemma_decode_len_bound(e: EncodingView, text: Seq<u8>)
    requires
        e.wf(),
        e.decode_len(text.len()) is Ok,
    ensures
        e.decoded(text, e.decode_len(text.len())->Ok_0).bytes.len() <= e.decode_len(
            text.len(),
        )->Ok_0,
{
    if !e.arithmetic {
        let r = e.rules();
        assert(r.bit as nat == e.bit);
        lemma_decoded_bound(r, e.val, text, 0, Seq::<u8>::empty());
    }
}

} // verus!
