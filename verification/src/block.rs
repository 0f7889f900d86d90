//! The block codec: an alphabet of 2, 4, 8, 16, 32 or 64 symbols.
//!
//! A symbol stands for 1 to 6 bits. Bytes and symbols are packed into blocks that
//! hold a whole number of both: a block of bytes and the block of its symbols are
//! two spellings of one number, in radix 256 and in the radix of the alphabet.
use crate::radix::{
    be_digits, be_value, digits_below, lemma_be_digits_below, lemma_be_digits_len,
    lemma_be_value_push, lemma_pow_monotonic, pow, repeat,
};
use crate::error::{DecodeError, DecodeKind, DecodePartial};
use crate::wide::{blocks_bytes, decode_wide, encode_wide, lemma_decode_run};
use vstd::prelude::*;

verus! {

/// In the table from byte to value: the byte is no symbol.
pub const INVALID: u8 = 128;

/// In the table from byte to value: the byte is skipped when decoding.
pub const IGNORE: u8 = 129;

/// In the table from byte to value: the byte is the padding.
pub const PADDING: u8 = 130;

/// A symbol has from 1 to 6 bits.
pub open spec fn valid_bit(bit: nat) -> bool {
    1 <= bit <= 6
}

/// How many symbols a block has.
pub open spec fn enc_of(bit: nat) -> nat {
    if bit == 1 {
        8
    } else if bit == 2 {
        4
    } else if bit == 3 {
        8
    } else if bit == 4 {
        2
    } else if bit == 5 {
        8
    } else if bit == 6 {
        4
    } else {
        0
    }
}

/// How many bytes a block has.
pub open spec fn dec_of(bit: nat) -> nat {
    if bit == 1 || bit == 2 || bit == 4 {
        1
    } else if bit == 3 {
        3
    } else if bit == 5 {
        5
    } else if bit == 6 {
        3
    } else {
        0
    }
}

/// How many symbols the alphabet has: 2 to the power `bit`.
pub open spec fn radix_of(bit: nat) -> nat {
    pow(2, bit)
}

/// `s` as it stands where the most significant comes first, else back to front.
pub open spec fn ordered(s: Seq<u8>, msb: bool) -> Seq<u8> {
    if msb {
        s
    } else {
        s.reverse()
    }
}

/// The place of the `i`-th of `n` items: counted from the front where the most
/// significant comes first, else from the back.
pub open spec fn place(n: int, msb: bool, i: int) -> int {
    if msb {
        i
    } else {
        n - 1 - i
    }
}

/// The number that a block of bytes spells. A block that is short of bytes counts
/// as if zero bytes followed.
pub open spec fn block_number(bit: nat, msb: bool, input: Seq<u8>) -> nat {
    be_value(ordered(input + repeat(0, (dec_of(bit) - input.len()) as nat), msb), 256)
}

/// The values of the symbols of a block of bytes.
pub open spec fn block_values(bit: nat, msb: bool, input: Seq<u8>) -> Seq<u8> {
    ordered(be_digits(block_number(bit, msb, input), radix_of(bit), enc_of(bit)), msb)
}

/// The symbols of a block of bytes.
pub open spec fn block_symbols(bit: nat, msb: bool, sym: Seq<u8>, input: Seq<u8>) -> Seq<u8> {
    Seq::new(enc_of(bit), |i: int| sym[block_values(bit, msb, input)[i] as int])
}

/// The number that the values of a block of symbols spell.
pub open spec fn values_number(bit: nat, msb: bool, values: Seq<u8>) -> nat {
    be_value(ordered(values, msb), radix_of(bit))
}

/// The bytes of a block of symbol values.
pub open spec fn block_bytes(bit: nat, msb: bool, values: Seq<u8>) -> Seq<u8> {
    ordered(be_digits(values_number(bit, msb, values), 256, dec_of(bit)), msb)
}

/// The byte is a symbol: the table gives it a value of the alphabet.
pub open spec fn is_symbol(val: Seq<u8>, bit: nat, c: u8) -> bool {
    c < 128 && (val[c as int] as nat) < radix_of(bit)
}

/// The values of symbols.
pub open spec fn values_of(val: Seq<u8>, symbols: Seq<u8>) -> Seq<u8> {
    Seq::new(symbols.len(), |i: int| val[symbols[i] as int])
}

/// `new` is `old` with `data` written over it at `at`, and nothing else changed.
pub open spec fn written_at(old: Seq<u8>, new: Seq<u8>, at: int, data: Seq<u8>) -> bool {
    &&& new.len() == old.len()
    &&& 0 <= at
    &&& at + data.len() <= old.len()
    &&& new.subrange(at, at + data.len()) == data
    &&& forall|j: int| 0 <= j < at || at + data.len() <= j < old.len() ==> new[j] == old[j]
}

/// Two writes, one behind the other, are one write of both.
pub proof fn lemma_written_at_then(
    old: Seq<u8>,
    mid: Seq<u8>,
    new: Seq<u8>,
    at: int,
    a: Seq<u8>,
    b: Seq<u8>,
)
    requires
        written_at(old, mid, at, a),
        written_at(mid, new, at + a.len(), b),
    ensures
        written_at(old, new, at, a + b),
{
    assert forall|i: int| 0 <= i < a.len() + b.len() implies new.subrange(
        at,
        at + a.len() + b.len(),
    )[i] == (a + b)[i] by {
        if i < a.len() {
            assert(mid.subrange(at, at + a.len())[i] == a[i]);
        } else {
            assert(new.subrange(at + a.len(), at + a.len() + b.len())[i - a.len()] == b[i
                - a.len()]);
        }
    }
    assert(new.subrange(at, at + (a + b).len()) =~= a + b);
}

/// Being a symbol, as a predicate.
pub open spec fn symbol_pred(val: Seq<u8>, bit: nat) -> spec_fn(u8) -> bool {
    |c: u8| is_symbol(val, bit, c)
}

/// Being the byte `x`, as a predicate.
pub open spec fn is_byte(x: u8) -> spec_fn(u8) -> bool {
    |c: u8| c == x
}

/// Not being the byte `x`, as a predicate.
pub open spec fn not_byte(x: u8) -> spec_fn(u8) -> bool {
    |c: u8| c != x
}

/// How many bytes at the front of `s` satisfy `pred`.
pub open spec fn prefix_len(s: Seq<u8>, pred: spec_fn(u8) -> bool) -> nat
    decreases s.len(),
{
    if s.len() == 0 || !pred(s[0]) {
        0
    } else {
        1 + prefix_len(s.drop_first(), pred)
    }
}

/// What `prefix_len` counts: `z` bytes that satisfy `pred`, then the end or one
/// that does not.
pub proof fn lemma_prefix_len_is(s: Seq<u8>, pred: spec_fn(u8) -> bool, z: nat)
    requires
        z <= s.len(),
        forall|i: int| 0 <= i < z ==> pred(s[i]),
        z == s.len() || !pred(s[z as int]),
    ensures
        prefix_len(s, pred) == z,
    decreases s.len(),
{
    if z > 0 {
        let t = s.drop_first();
        assert forall|i: int| 0 <= i < z - 1 implies pred(t[i]) by {
            assert(t[i] == s[i + 1]);
        }
        if z < s.len() {
            assert(t[z - 1] == s[z as int]);
        }
        lemma_prefix_len_is(t, pred, (z - 1) as nat);
    }
}

/// The converse: what holds of the count.
pub proof fn lemma_prefix_len_holds(s: Seq<u8>, pred: spec_fn(u8) -> bool)
    ensures
        prefix_len(s, pred) <= s.len(),
        forall|i: int| 0 <= i < prefix_len(s, pred) ==> pred(s[i]),
        prefix_len(s, pred) == s.len() || !pred(s[prefix_len(s, pred) as int]),
    decreases s.len(),
{
    if s.len() > 0 && pred(s[0]) {
        let t = s.drop_first();
        lemma_prefix_len_holds(t, pred);
        let z = prefix_len(s, pred);
        assert forall|i: int| 0 <= i < z implies pred(s[i]) by {
            if i > 0 {
                assert(t[i - 1] == s[i]);
            }
        }
        if z < s.len() {
            assert(t[z - 1] == s[z as int]);
        }
    }
}

/// The sizes of a block: its symbols hold as many bits as its bytes.
pub proof fn lemma_block_shape(bit: nat)
    requires
        valid_bit(bit),
    ensures
        bit * enc_of(bit) == 8 * dec_of(bit),
        2 <= radix_of(bit) <= 64,
        radix_of(bit) == if bit == 1 {
            2nat
        } else if bit == 2 {
            4
        } else if bit == 3 {
            8
        } else if bit == 4 {
            16
        } else if bit == 5 {
            32
        } else {
            64
        },
        pow(radix_of(bit), enc_of(bit)) == pow(256, dec_of(bit)),
        pow(256, dec_of(bit)) <= 0x100_0000_0000,
        1 <= dec_of(bit) <= enc_of(bit) <= 8,
{
    reveal_with_fuel(pow, 9);
    if bit == 1 {
        assert(pow(2, 8) == 256);
    } else if bit == 2 {
        assert(pow(4, 4) == 256);
    } else if bit == 3 {
        assert(pow(8, 8) == 0x100_0000);
        assert(pow(256, 3) == 0x100_0000);
    } else if bit == 4 {
        assert(pow(16, 2) == 256);
    } else if bit == 5 {
        assert(pow(32, 8) == 0x100_0000_0000);
        assert(pow(256, 5) == 0x100_0000_0000);
    } else {
        assert(pow(64, 4) == 0x100_0000);
        assert(pow(256, 3) == 0x100_0000);
    }
}

/// How many symbols a block has, or 0 where `bit` is not from 1 to 6.
pub fn enc(bit: usize) -> (r: usize)
    ensures
        r == enc_of(bit as nat),
{
    match bit {
        1 => 8,
        2 => 4,
        3 => 8,
        4 => 2,
        5 => 8,
        6 => 4,
        _ => 0,
    }
}

/// How many bytes a block has, or 0 where `bit` is not from 1 to 6.
pub fn dec(bit: usize) -> (r: usize)
    ensures
        r == dec_of(bit as nat),
{
    match bit {
        1 | 2 | 4 => 1,
        3 => 3,
        5 => 5,
        6 => 3,
        _ => 0,
    }
}

/// The place of the `i`-th of `n` items: counted from the front where the most
/// significant comes first, else from the back.
pub fn order(n: usize, msb: bool, i: usize) -> (r: usize)
    requires
        i < n,
    ensures
        r == place(n as int, msb, i as int),
{
    if msb {
        i
    } else {
        n - 1 - i
    }
}

/// `a` divided by `b`, rounded up.
pub fn div_ceil(a: usize, b: usize) -> (r: Option<usize>)
    ensures
        r is None <==> b == 0,
        r matches Some(q) ==> q == ceil_div(a as nat, b as nat),
{
    if b == 0 {
        return None;
    }
    let d = a / b;
    assert(a == b * (a / b) + a % b) by (nonlinear_arith)
        requires
            b > 0,
    ;
    if a % b == 0 {
        assert((a + b - 1) / (b as int) == d) by (nonlinear_arith)
            requires
                a == b * d,
                b > 0,
        ;
        Some(d)
    } else {
        assert((a + b - 1) / (b as int) == d + 1 && d < a) by (nonlinear_arith)
            requires
                a == b * d + a % b,
                0 < a % b < b,
                d >= 0,
        ;
        Some(d + 1)
    }
}

/// The greatest multiple of `b` that is not above `a`.
pub fn floor(a: usize, b: usize) -> (r: usize)
    requires
        b > 0,
    ensures
        r == a - a % b,
        r == (a / b) * b,
{
    assert(a == b * (a / b) + a % b) by (nonlinear_arith)
        requires
            b > 0,
    ;
    assert(b * (a / b) == (a / b) * b) by (nonlinear_arith);
    a - a % b
}

/// The radix of the alphabet.
fn radix(bit: usize) -> (r: u64)
    requires
        valid_bit(bit as nat),
    ensures
        r == radix_of(bit as nat),
        2 <= r <= 64,
{
    proof {
        lemma_block_shape(bit as nat);
    }
    match bit {
        1 => 2,
        2 => 4,
        3 => 8,
        4 => 16,
        5 => 32,
        _ => 64,
    }
}

/// Writes the first `count` symbols of the block of `input` to
/// `output[at..at + count]`.
pub fn encode_block(
    bit: usize,
    msb: bool,
    sym: &[u8; 256],
    input: &[u8],
    output: &mut [u8],
    at: usize,
    count: usize,
)
    requires
        valid_bit(bit as nat),
        input@.len() <= dec_of(bit as nat),
        count <= enc_of(bit as nat),
        at + count <= old(output)@.len(),
    ensures
        final(output)@.len() == old(output)@.len(),
        forall|p: int|
            0 <= p < count ==> final(output)@[at + p] == block_symbols(
                bit as nat,
                msb,
                sym@,
                input@,
            )[p],
        forall|j: int|
            0 <= j < old(output)@.len() && !(at <= j < at + count) ==> final(output)@[j] == old(
                output,
            )@[j],
        written_at(
            old(output)@,
            final(output)@,
            at as int,
            block_symbols(bit as nat, msb, sym@, input@).subrange(0, count as int),
        ),
{
    let d = dec(bit);
    let e = enc(bit);
    let r = radix(bit);
    let n = input.len();
    let total = output.len();
    let ghost full = input@ + repeat(0, (d - n) as nat);
    let ghost ord = ordered(full, msb);
    let mut x: u64 = 0;
    let mut j: usize = 0;
    proof {
        lemma_block_shape(bit as nat);
        assert(ord.subrange(0, 0) =~= Seq::<u8>::empty());
        assert(pow(256, 0) == 1);
    }
    while j < d
        invariant
            valid_bit(bit as nat),
            d == dec_of(bit as nat),
            n == input@.len(),
            n <= d,
            j <= d,
            full == input@ + repeat(0, (d - n) as nat),
            ord == ordered(full, msb),
            ord.len() == d,
            x as nat == be_value(ord.subrange(0, j as int), 256),
            (x as nat) < pow(256, j as nat),
            pow(256, d as nat) <= 0x100_0000_0000,
        decreases d - j,
    {
        let idx = order(d, msb, j);
        let byte = if idx < n {
            input[idx]
        } else {
            0
        };
        proof {
            assert(ord[j as int] == byte);
            assert(ord.subrange(0, j + 1) =~= ord.subrange(0, j as int).push(byte));
            lemma_be_value_push(ord.subrange(0, j as int), byte, 256);
            lemma_pow_monotonic(256, (j + 1) as nat, d as nat);
            assert(pow(256, (j + 1) as nat) == 256 * pow(256, j as nat));
        }
        x = x * 256 + byte as u64;
        j += 1;
    }
    proof {
        assert(ord.subrange(0, d as int) =~= ord);
        lemma_be_digits_len(x as nat, r as nat, e as nat);
        lemma_be_digits_below(x as nat, r as nat, e as nat);
    }
    let ghost digits = be_digits(x as nat, r as nat, e as nat);
    let mut k: usize = e;
    let mut y: u64 = x;
    proof {
        assert(digits.subrange(0, e as int) =~= digits);
    }
    while k > 0
        invariant
            k <= e,
            e == enc_of(bit as nat),
            count <= e,
            at + count <= total,
            total == output@.len(),
            output@.len() == old(output)@.len(),
            2 <= r <= 64,
            digits == be_digits(x as nat, r as nat, e as nat),
            digits.len() == e,
            digits_below(digits, r as nat),
            be_digits(y as nat, r as nat, k as nat) == digits.subrange(0, k as int),
            forall|j: int|
                at <= j < at + count && place(e as int, msb, j - at) >= k ==> #[trigger] output@[j]
                    == sym@[digits[place(e as int, msb, j - at)] as int],
            forall|j: int|
                at <= j < at + count && place(e as int, msb, j - at) < k ==> #[trigger] output@[j]
                    == old(output)@[j],
            forall|j: int|
                0 <= j < total && !(at <= j < at + count) ==> output@[j] == old(output)@[j],
        decreases k,
    {
        let ghost dk = be_digits(y as nat, r as nat, k as nat);
        k -= 1;
        let v = (y % r) as usize;
        proof {
            assert(dk == be_digits((y / r) as nat, r as nat, k as nat).push((y % r) as u8));
            assert(dk.last() == digits[k as int]);
            assert(dk.drop_last() =~= digits.subrange(0, k as int));
            assert((digits[k as int] as nat) < r);
        }
        y = y / r;
        let pos = order(e, msb, k);
        if pos < count {
            output[at + pos] = sym[v];
        }
    }
    proof {
        let values = block_values(bit as nat, msb, input@);
        assert forall|p: int| 0 <= p < count implies output@[at + p] == block_symbols(
            bit as nat,
            msb,
            sym@,
            input@,
        )[p] by {
            assert(values[p] == digits[place(e as int, msb, p)]);
            assert(output@[at + p] == sym@[digits[place(e as int, msb, at + p - at)] as int]);
        }
        assert(output@.subrange(at as int, at + count) =~= block_symbols(
            bit as nat,
            msb,
            sym@,
            input@,
        ).subrange(0, count as int));
    }
}

/// Decodes the block whose first `k` symbols are `block[..k]` and whose other
/// symbols have the value zero, into `out[..dec]`. Fails with the index of the
/// first byte that is no symbol, and then leaves `out` as it is.
pub fn decode_block(
    bit: usize,
    msb: bool,
    val: &[u8; 128],
    block: &[u8],
    k: usize,
    out: &mut [u8],
) -> (r: Result<(), usize>)
    requires
        valid_bit(bit as nat),
        k <= enc_of(bit as nat),
        k <= block@.len(),
        dec_of(bit as nat) <= old(out)@.len(),
    ensures
        final(out)@.len() == old(out)@.len(),
        r is Ok <==> prefix_len(block@.subrange(0, k as int), symbol_pred(val@, bit as nat)) == k,
        r matches Err(i) ==> i == prefix_len(
            block@.subrange(0, k as int),
            symbol_pred(val@, bit as nat),
        ) && final(out)@ == old(out)@,
        r is Ok ==> final(out)@.subrange(0, dec_of(bit as nat) as int) == block_bytes(
            bit as nat,
            msb,
            values_of(val@, block@.subrange(0, k as int)) + repeat(
                0,
                (enc_of(bit as nat) - k) as nat,
            ),
        ) && forall|j: int|
            dec_of(bit as nat) <= j < old(out)@.len() ==> final(out)@[j] == old(out)@[j],
{
    let d = dec(bit);
    let e = enc(bit);
    let r = radix(bit);
    let total = out.len();
    let ghost given = block@.subrange(0, k as int);
    let ghost pred = symbol_pred(val@, bit as nat);
    let mut i: usize = 0;
    while i < k
        invariant
            i <= k,
            k <= block@.len(),
            given == block@.subrange(0, k as int),
            pred == symbol_pred(val@, bit as nat),
            r == radix_of(bit as nat),
            forall|t: int| 0 <= t < i ==> pred(given[t]),
            out@ == old(out)@,
        decreases k - i,
    {
        let c = block[i];
        if c >= 128 || val[c as usize] as u64 >= r {
            proof {
                assert(!pred(given[i as int]));
                lemma_prefix_len_is(given, pred, i as nat);
            }
            return Err(i);
        }
        i += 1;
    }
    proof {
        lemma_prefix_len_is(given, pred, k as nat);
        lemma_block_shape(bit as nat);
    }
    let ghost values = values_of(val@, given) + repeat(0, (e - k) as nat);
    let ghost ord = ordered(values, msb);
    let mut x: u64 = 0;
    let mut j: usize = 0;
    proof {
        assert(ord.subrange(0, 0) =~= Seq::<u8>::empty());
        assert(pow(r as nat, 0) == 1);
    }
    while j < e
        invariant
            valid_bit(bit as nat),
            e == enc_of(bit as nat),
            d == dec_of(bit as nat),
            r == radix_of(bit as nat),
            2 <= r <= 64,
            k <= e,
            k <= block@.len(),
            j <= e,
            given == block@.subrange(0, k as int),
            forall|t: int| 0 <= t < k ==> is_symbol(val@, bit as nat, given[t]),
            values == values_of(val@, given) + repeat(0, (e - k) as nat),
            ord == ordered(values, msb),
            ord.len() == e,
            x as nat == be_value(ord.subrange(0, j as int), r as nat),
            (x as nat) < pow(r as nat, j as nat),
            pow(r as nat, e as nat) <= 0x100_0000_0000,
            out@ == old(out)@,
        decreases e - j,
    {
        let idx = order(e, msb, j);
        let v = if idx < k {
            proof {
                assert(is_symbol(val@, bit as nat, given[idx as int]));
            }
            val[block[idx] as usize]
        } else {
            0
        };
        proof {
            assert(ord[j as int] == v);
            assert(v < r);
            assert(ord.subrange(0, j + 1) =~= ord.subrange(0, j as int).push(v));
            lemma_be_value_push(ord.subrange(0, j as int), v, r as nat);
            lemma_pow_monotonic(r as nat, (j + 1) as nat, e as nat);
            assert(pow(r as nat, (j + 1) as nat) == r as nat * pow(r as nat, j as nat));
            assert(x * r + v < r * pow(r as nat, j as nat)) by (nonlinear_arith)
                requires
                    (x as nat) < pow(r as nat, j as nat),
                    v < r,
            ;
        }
        x = x * r + v as u64;
        j += 1;
    }
    proof {
        assert(ord.subrange(0, e as int) =~= ord);
        lemma_be_digits_len(x as nat, 256, d as nat);
    }
    let ghost bytes = be_digits(x as nat, 256, d as nat);
    let mut t: usize = d;
    let mut y: u64 = x;
    proof {
        assert(bytes.subrange(0, d as int) =~= bytes);
    }
    while t > 0
        invariant
            t <= d,
            d == dec_of(bit as nat),
            d <= total,
            total == out@.len(),
            out@.len() == old(out)@.len(),
            bytes == be_digits(x as nat, 256, d as nat),
            bytes.len() == d,
            be_digits(y as nat, 256, t as nat) == bytes.subrange(0, t as int),
            forall|p: int|
                0 <= p < d && place(d as int, msb, p) >= t ==> #[trigger] out@[p] == bytes[place(
                    d as int,
                    msb,
                    p,
                )],
            forall|j: int| d <= j < total ==> out@[j] == old(out)@[j],
        decreases t,
    {
        let ghost bt = be_digits(y as nat, 256, t as nat);
        t -= 1;
        let byte = (y % 256) as u8;
        proof {
            assert(bt == be_digits((y / 256) as nat, 256, t as nat).push((y % 256) as u8));
            assert(bt.last() == bytes[t as int]);
            assert(bt.drop_last() =~= bytes.subrange(0, t as int));
        }
        y = y / 256;
        let pos = order(d, msb, t);
        out[pos] = byte;
    }
    proof {
        assert(out@.subrange(0, d as int) =~= block_bytes(bit as nat, msb, values));
    }
    Ok(())
}

/// `a` divided by `b`, rounded up.
pub open spec fn ceil_div(a: nat, b: nat) -> nat {
    ((a + b - 1) / (b as int)) as nat
}

/// How many symbols `n` bytes take where the last block is not filled up.
pub open spec fn base_len(bit: nat, n: nat) -> nat {
    ceil_div(8 * n, bit)
}

/// How many symbols `n` bytes take in whole blocks.
pub open spec fn full_len(bit: nat, n: nat) -> nat {
    ceil_div(n, dec_of(bit)) * enc_of(bit)
}

/// How many symbols `n` bytes take, with padding or without.
pub open spec fn pad_len(bit: nat, padded: bool, n: nat) -> nat {
    if padded {
        full_len(bit, n)
    } else {
        base_len(bit, n)
    }
}

/// How many bytes the text of `n` bytes has: the symbols, and behind every `width`
/// of them and behind the last of them a separator of `sep` bytes.
pub open spec fn wrap_len(bit: nat, padded: bool, wrap: Option<(nat, nat)>, n: nat) -> nat {
    match wrap {
        None => pad_len(bit, padded, n),
        Some((width, sep)) => pad_len(bit, padded, n) + sep * ceil_div(
            pad_len(bit, padded, n),
            width,
        ),
    }
}

/// The symbols of `input`, block by block; of a last block that is short of
/// bytes, only the symbols that hold bits of the input.
pub open spec fn encode_base_spec(bit: nat, msb: bool, sym: Seq<u8>, input: Seq<u8>) -> Seq<u8>
    decreases input.len(),
{
    let d = dec_of(bit);
    if input.len() == 0 || d == 0 {
        Seq::empty()
    } else if input.len() >= d {
        block_symbols(bit, msb, sym, input.subrange(0, d as int)) + encode_base_spec(
            bit,
            msb,
            sym,
            input.subrange(d as int, input.len() as int),
        )
    } else {
        block_symbols(bit, msb, sym, input).subrange(0, base_len(bit, input.len()) as int)
    }
}

/// The symbols of `input`, filled up with the padding to whole blocks where there
/// is a padding.
pub open spec fn encode_pad_spec(
    bit: nat,
    msb: bool,
    sym: Seq<u8>,
    pad: Option<u8>,
    input: Seq<u8>,
) -> Seq<u8> {
    let base = encode_base_spec(bit, msb, sym, input);
    match pad {
        None => base,
        Some(p) => base + repeat(p, (full_len(bit, input.len()) - base.len()) as nat),
    }
}

/// `symbols` in lines of `width`: a separator behind every line, the last one too.
pub open spec fn wrap_spec(symbols: Seq<u8>, width: nat, sep: Seq<u8>) -> Seq<u8>
    decreases symbols.len(),
{
    if symbols.len() == 0 || width == 0 {
        Seq::empty()
    } else if symbols.len() <= width {
        symbols + sep
    } else {
        symbols.subrange(0, width as int) + sep + wrap_spec(
            symbols.subrange(width as int, symbols.len() as int),
            width,
            sep,
        )
    }
}

/// The text of `input`.
pub open spec fn encode_wrap_spec(
    bit: nat,
    msb: bool,
    sym: Seq<u8>,
    pad: Option<u8>,
    wrap: Option<(nat, Seq<u8>)>,
    input: Seq<u8>,
) -> Seq<u8> {
    match wrap {
        None => encode_pad_spec(bit, msb, sym, pad, input),
        Some((width, sep)) => wrap_spec(encode_pad_spec(bit, msb, sym, pad, input), width, sep),
    }
}

/// One more block of bytes is one more block of symbols.
pub proof fn lemma_base_len_step(bit: nat, n: nat)
    requires
        valid_bit(bit),
    ensures
        base_len(bit, n + dec_of(bit)) == base_len(bit, n) + enc_of(bit),
{
    lemma_block_shape(bit);
    vstd::arithmetic::div_mod::lemma_hoist_over_denominator(
        (8 * n + bit - 1) as int,
        enc_of(bit) as int,
        bit,
    );
    assert(enc_of(bit) * bit == bit * enc_of(bit)) by (nonlinear_arith);
}

/// A block that is short of bytes is short of symbols.
pub proof fn lemma_base_len_small(bit: nat, n: nat)
    requires
        valid_bit(bit),
        n < dec_of(bit),
    ensures
        base_len(bit, n) < enc_of(bit),
        n > 0 ==> base_len(bit, n) > 0,
        n == 0 ==> base_len(bit, n) == 0,
        8 * n <= bit * base_len(bit, n) < 8 * n + bit,
{
    let c = base_len(bit, n);
    assert(c == (8 * n + bit - 1) / (bit as int));
    if bit == 1 || bit == 2 || bit == 4 {
        assert(n == 0);
        assert(c == 0);
    } else if bit == 3 {
        assert(c == (8 * n + 2) / 3);
        if n == 0 {
            assert(c == 0);
        } else if n == 1 {
            assert(c == 3);
        } else {
            assert(n == 2);
            assert(c == 6);
        }
    } else if bit == 5 {
        assert(c == (8 * n + 4) / 5);
        if n == 0 {
            assert(c == 0);
        } else if n == 1 {
            assert(c == 2);
        } else if n == 2 {
            assert(c == 4);
        } else if n == 3 {
            assert(c == 5);
        } else {
            assert(n == 4);
            assert(c == 7);
        }
    } else {
        assert(bit == 6);
        assert(c == (8 * n + 5) / 6);
        if n == 0 {
            assert(c == 0);
        } else if n == 1 {
            assert(c == 2);
        } else {
            assert(n == 2);
            assert(c == 3);
        }
    }
}

/// Whole blocks: as many symbols as `n` bytes take, padded or not.
pub proof fn lemma_base_len_blocks(bit: nat, n: nat)
    requires
        valid_bit(bit),
    ensures
        base_len(bit, n) == (n / dec_of(bit)) * enc_of(bit) + base_len(bit, n % dec_of(bit)),
        full_len(bit, n) == (n / dec_of(bit)) * enc_of(bit) + if n % dec_of(bit) == 0 {
            0
        } else {
            enc_of(bit)
        },
        base_len(bit, n) <= full_len(bit, n),
    decreases n,
{
    let d = dec_of(bit);
    let e = enc_of(bit);
    lemma_block_shape(bit);
    if n >= d {
        lemma_base_len_blocks(bit, (n - d) as nat);
        lemma_base_len_step(bit, (n - d) as nat);
        assert(n / d == (n - d) as nat / d + 1 && n % d == (n - d) as nat % d) by {
            vstd::arithmetic::div_mod::lemma_fundamental_div_mod((n - d) as int, d as int);
            vstd::arithmetic::div_mod::lemma_fundamental_div_mod_converse(
                n as int,
                d as int,
                ((n - d) as nat / d + 1) as int,
                ((n - d) as nat % d) as int,
            );
            let q1 = (n - d) as nat / d;
            assert((q1 + 1) * d == d * q1 + d) by (nonlinear_arith);
        }
        let q0 = (n - d) as nat / d;
        assert((q0 + 1) * e == q0 * e + e) by (nonlinear_arith);
        assert(ceil_div(n, d) == ceil_div((n - d) as nat, d) + 1) by {
            vstd::arithmetic::div_mod::lemma_hoist_over_denominator(
                ((n - d) as nat + d - 1) as int,
                1,
                d,
            );
        }
        let c0 = ceil_div((n - d) as nat, d);
        assert((c0 + 1) * e == c0 * e + e) by (nonlinear_arith);
    } else {
        lemma_base_len_small(bit, n);
        vstd::arithmetic::div_mod::lemma_small_mod(n, d);
        vstd::arithmetic::div_mod::lemma_basic_div(n as int, d as int);
        assert(0 * e == 0) by (nonlinear_arith);
        if n == 0 {
            assert(ceil_div(n, d) == 0);
        } else {
            assert(ceil_div(n, d) == 1) by {
                vstd::arithmetic::div_mod::lemma_fundamental_div_mod_converse(
                    (n + d - 1) as int,
                    d as int,
                    1,
                    (n - 1) as int,
                );
            }
            assert(1 * e == e) by (nonlinear_arith);
        }
    }
}

/// How many symbols an input has.
pub proof fn lemma_encode_base_len(bit: nat, msb: bool, sym: Seq<u8>, input: Seq<u8>)
    requires
        valid_bit(bit),
    ensures
        encode_base_spec(bit, msb, sym, input).len() == base_len(bit, input.len()),
    decreases input.len(),
{
    let d = dec_of(bit);
    lemma_block_shape(bit);
    if input.len() == 0 {
        lemma_base_len_small(bit, 0);
    } else if input.len() >= d {
        lemma_encode_base_len(bit, msb, sym, input.subrange(d as int, input.len() as int));
        lemma_base_len_step(bit, (input.len() - d) as nat);
    } else {
        lemma_base_len_small(bit, input.len());
    }
}

/// Behind whole blocks, the symbols of what follows simply follow.
pub proof fn lemma_encode_base_append(
    bit: nat,
    msb: bool,
    sym: Seq<u8>,
    a: Seq<u8>,
    b: Seq<u8>,
)
    requires
        valid_bit(bit),
        a.len() % dec_of(bit) == 0,
    ensures
        encode_base_spec(bit, msb, sym, a + b) == encode_base_spec(bit, msb, sym, a)
            + encode_base_spec(bit, msb, sym, b),
    decreases a.len(),
{
    let d = dec_of(bit);
    lemma_block_shape(bit);
    if a.len() == 0 {
        assert(a + b =~= b);
        assert(encode_base_spec(bit, msb, sym, a) + encode_base_spec(bit, msb, sym, b)
            =~= encode_base_spec(bit, msb, sym, b));
    } else {
        assert(a.len() >= d) by {
            if a.len() < d {
                vstd::arithmetic::div_mod::lemma_small_mod(a.len(), d);
            }
        }
        let a1 = a.subrange(d as int, a.len() as int);
        assert((a.len() - d) % (d as int) == 0) by {
            vstd::arithmetic::div_mod::lemma_mod_sub_multiples_vanish(a.len() as int, d as int);
        }
        lemma_encode_base_append(bit, msb, sym, a1, b);
        assert((a + b).subrange(0, d as int) =~= a.subrange(0, d as int));
        assert((a + b).subrange(d as int, (a + b).len() as int) =~= a1 + b);
        let blk = block_symbols(bit, msb, sym, a.subrange(0, d as int));
        assert(blk + (encode_base_spec(bit, msb, sym, a1) + encode_base_spec(bit, msb, sym, b))
            =~= (blk + encode_base_spec(bit, msb, sym, a1)) + encode_base_spec(bit, msb, sym, b));
    }
}

/// Behind whole blocks, the padded symbols of what follows simply follow.
pub proof fn lemma_encode_pad_append(
    bit: nat,
    msb: bool,
    sym: Seq<u8>,
    pad: Option<u8>,
    a: Seq<u8>,
    b: Seq<u8>,
)
    requires
        valid_bit(bit),
        a.len() % dec_of(bit) == 0,
    ensures
        encode_pad_spec(bit, msb, sym, pad, a + b) == encode_base_spec(bit, msb, sym, a)
            + encode_pad_spec(bit, msb, sym, pad, b),
{
    let d = dec_of(bit);
    let e = enc_of(bit);
    lemma_block_shape(bit);
    lemma_encode_base_append(bit, msb, sym, a, b);
    lemma_encode_base_len(bit, msb, sym, a);
    lemma_encode_base_len(bit, msb, sym, b);
    lemma_encode_base_len(bit, msb, sym, a + b);
    lemma_base_len_blocks(bit, a.len());
    lemma_base_len_blocks(bit, b.len());
    lemma_base_len_blocks(bit, (a + b).len());
    lemma_base_len_small(bit, 0);
    assert((a.len() + b.len()) / d == a.len() / d + b.len() / d && (a.len() + b.len()) % d
        == b.len() % d) by {
        vstd::arithmetic::div_mod::lemma_fundamental_div_mod(a.len() as int, d as int);
        vstd::arithmetic::div_mod::lemma_fundamental_div_mod(b.len() as int, d as int);
        vstd::arithmetic::div_mod::lemma_fundamental_div_mod_converse(
            (a.len() + b.len()) as int,
            d as int,
            (a.len() / d + b.len() / d) as int,
            (b.len() % d) as int,
        );
        let qa = a.len() / d;
        let qb = b.len() / d;
        assert((qa + qb) * d == d * qa + d * qb) by (nonlinear_arith);
    }
    let qa = a.len() / d;
    let qb = b.len() / d;
    assert((qa + qb) * e == qa * e + qb * e) by (nonlinear_arith);
    match pad {
        None => {},
        Some(p) => {
            let x = encode_base_spec(bit, msb, sym, a);
            let y = encode_base_spec(bit, msb, sym, b);
            let fill = repeat(p, (full_len(bit, b.len()) - y.len()) as nat);
            assert((x + y) + fill =~= x + (y + fill));
        },
    }
}

/// Behind whole lines, the lines of what follows simply follow.
pub proof fn lemma_wrap_append(a: Seq<u8>, b: Seq<u8>, width: nat, sep: Seq<u8>)
    requires
        width > 0,
        a.len() % width == 0,
    ensures
        wrap_spec(a + b, width, sep) == wrap_spec(a, width, sep) + wrap_spec(b, width, sep),
    decreases a.len(),
{
    if a.len() == 0 {
        assert(a + b =~= b);
        assert(wrap_spec(a, width, sep) + wrap_spec(b, width, sep) =~= wrap_spec(b, width, sep));
    } else {
        assert(a.len() >= width) by {
            if a.len() < width {
                vstd::arithmetic::div_mod::lemma_small_mod(a.len(), width);
            }
        }
        let a1 = a.subrange(width as int, a.len() as int);
        let line = a.subrange(0, width as int);
        assert((a.len() - width) % (width as int) == 0) by {
            vstd::arithmetic::div_mod::lemma_mod_sub_multiples_vanish(
                a.len() as int,
                width as int,
            );
        }
        lemma_wrap_append(a1, b, width, sep);
        if a.len() == width {
            assert(a1 =~= Seq::<u8>::empty());
            assert(line =~= a);
            assert(wrap_spec(a, width, sep) == a + sep);
            if b.len() == 0 {
                assert(a + b =~= a);
                assert(wrap_spec(a, width, sep) + wrap_spec(b, width, sep) =~= wrap_spec(
                    a,
                    width,
                    sep,
                ));
            } else {
                assert((a + b).subrange(0, width as int) =~= a);
                assert((a + b).subrange(width as int, (a + b).len() as int) =~= b);
            }
        } else {
            assert((a + b).subrange(0, width as int) =~= line);
            assert((a + b).subrange(width as int, (a + b).len() as int) =~= a1 + b);
            assert(line + sep + (wrap_spec(a1, width, sep) + wrap_spec(b, width, sep)) =~= (line
                + sep + wrap_spec(a1, width, sep)) + wrap_spec(b, width, sep));
        }
    }
}

/// How many symbols `len` bytes take in whole blocks, or nothing where that is
/// more than a `usize` holds.
pub fn encode_len(bit: usize, len: usize) -> (r: Option<usize>)
    requires
        valid_bit(bit as nat),
    ensures
        r is Some <==> full_len(bit as nat, len as nat) <= usize::MAX,
        r matches Some(n) ==> n == full_len(bit as nat, len as nat),
{
    let d = dec(bit);
    let e = enc(bit);
    proof {
        lemma_block_shape(bit as nat);
    }
    match div_ceil(len, d) {
        Some(blocks) => blocks.checked_mul(e),
        None => None,
    }
}

/// How many symbols `len` bytes take where the last block is not filled up, or
/// nothing where that is more than a `usize` holds.
pub fn encode_base_len(bit: usize, len: usize) -> (r: Option<usize>)
    requires
        valid_bit(bit as nat),
    ensures
        r is Some <==> base_len(bit as nat, len as nat) <= usize::MAX,
        r matches Some(n) ==> n == base_len(bit as nat, len as nat),
{
    let d = dec(bit);
    let e = enc(bit);
    proof {
        lemma_block_shape(bit as nat);
        lemma_base_len_blocks(bit as nat, len as nat);
        lemma_base_len_small(bit as nat, (len % d) as nat);
    }
    let rest = len % d;
    let tail = (rest * 8 + bit - 1) / bit;
    match (len / d).checked_mul(e) {
        Some(whole) => whole.checked_add(tail),
        None => None,
    }
}

/// How many symbols `len` bytes take, with padding or without.
pub fn encode_pad_len(bit: usize, padded: bool, len: usize) -> (r: Option<usize>)
    requires
        valid_bit(bit as nat),
    ensures
        r is Some <==> pad_len(bit as nat, padded, len as nat) <= usize::MAX,
        r matches Some(n) ==> n == pad_len(bit as nat, padded, len as nat),
{
    if padded {
        encode_len(bit, len)
    } else {
        encode_base_len(bit, len)
    }
}

/// How many bytes the text of `len` bytes has. `wrap` is the width of a line and
/// the length of the separator, where the text is wrapped.
pub fn encode_wrap_len(bit: usize, padded: bool, wrap: Option<(usize, usize)>, len: usize) -> (r:
    Option<usize>)
    requires
        valid_bit(bit as nat),
        wrap matches Some((width, _)) ==> width > 0,
    ensures
        r is Some <==> wrap_len(bit as nat, padded, spec_wrap_sizes(wrap), len as nat)
            <= usize::MAX,
        r matches Some(n) ==> n == wrap_len(bit as nat, padded, spec_wrap_sizes(wrap), len as nat),
{
    let olen = match encode_pad_len(bit, padded, len) {
        Some(n) => n,
        None => {
            return None;
        },
    };
    match wrap {
        None => Some(olen),
        Some((width, sep)) => {
            let lines = match div_ceil(olen, width) {
                Some(n) => n,
                None => {
                    return None;
                },
            };
            match sep.checked_mul(lines) {
                Some(extra) => olen.checked_add(extra),
                None => None,
            }
        },
    }
}

/// The sizes of a wrap as numbers.
pub open spec fn spec_wrap_sizes(wrap: Option<(usize, usize)>) -> Option<(nat, nat)> {
    match wrap {
        None => None,
        Some((width, sep)) => Some((width as nat, sep as nat)),
    }
}

/// Writes `src` to `output[at..]`.
fn copy_at(output: &mut [u8], at: usize, src: &[u8])
    requires
        at + src@.len() <= old(output)@.len(),
    ensures
        written_at(old(output)@, final(output)@, at as int, src@),
{
    let n = src.len();
    let total = output.len();
    let mut i: usize = 0;
    while i < n
        invariant
            i <= n,
            n == src@.len(),
            at + n <= total,
            total == output@.len(),
            output@.len() == old(output)@.len(),
            forall|j: int| at <= j < at + i ==> output@[j] == src@[j - at],
            forall|j: int| 0 <= j < at || at + i <= j < total ==> output@[j] == old(output)@[j],
        decreases n - i,
    {
        output[at + i] = src[i];
        i += 1;
    }
    proof {
        assert(output@.subrange(at as int, at + n) =~= src@);
    }
}

/// Writes `count` copies of `byte` to `output[at..]`.
fn fill_at(output: &mut [u8], at: usize, count: usize, byte: u8)
    requires
        at + count <= old(output)@.len(),
    ensures
        written_at(old(output)@, final(output)@, at as int, repeat(byte, count as nat)),
{
    let total = output.len();
    let mut i: usize = 0;
    while i < count
        invariant
            i <= count,
            at + count <= total,
            total == output@.len(),
            output@.len() == old(output)@.len(),
            forall|j: int| at <= j < at + i ==> output@[j] == byte,
            forall|j: int| 0 <= j < at || at + i <= j < total ==> output@[j] == old(output)@[j],
        decreases count - i,
    {
        output[at + i] = byte;
        i += 1;
    }
    proof {
        assert(output@.subrange(at as int, at + count) =~= repeat(byte, count as nat));
    }
}

/// Encodes whole blocks of bytes to `output[at..]` and returns how many symbols
/// that gave.
pub fn encode_mut(
    bit: usize,
    msb: bool,
    sym: &[u8; 256],
    input: &[u8],
    output: &mut [u8],
    at: usize,
) -> (written: usize)
    requires
        valid_bit(bit as nat),
        input@.len() % dec_of(bit as nat) == 0,
        at + base_len(bit as nat, input@.len()) <= old(output)@.len(),
    ensures
        written == base_len(bit as nat, input@.len()),
        written_at(
            old(output)@,
            final(output)@,
            at as int,
            encode_base_spec(bit as nat, msb, sym@, input@),
        ),
{
    let d = dec(bit);
    let e = enc(bit);
    let n = input.len();
    let total = output.len();
    let mut i: usize = 0;
    let mut o: usize = at;
    proof {
        lemma_block_shape(bit as nat);
        lemma_base_len_small(bit as nat, 0);
        assert(input@.subrange(0, 0) =~= Seq::<u8>::empty());
        assert(output@.subrange(at as int, at as int) =~= Seq::<u8>::empty());
    }
    if msb && (bit == 4 || bit == 6) {
        i = encode_wide(bit, sym, input, output, at);
        proof {
            lemma_base_len_blocks(bit as nat, i as nat);
            lemma_base_len_monotonic(bit as nat, i as nat, n as nat);
        }
        o = at + i / d * e;
    }
    while i < n
        invariant
            valid_bit(bit as nat),
            d == dec_of(bit as nat),
            e == enc_of(bit as nat),
            n == input@.len(),
            n % d == 0,
            i % d == 0,
            i <= n,
            total == output@.len(),
            o == at + base_len(bit as nat, i as nat),
            at + base_len(bit as nat, n as nat) <= total,
            written_at(
                old(output)@,
                output@,
                at as int,
                encode_base_spec(bit as nat, msb, sym@, input@.subrange(0, i as int)),
            ),
        decreases n - i,
    {
        proof {
            assert(n - i >= d) by {
                if n - i < d {
                    vstd::arithmetic::div_mod::lemma_small_mod((n - i) as nat, d as nat);
                    vstd::arithmetic::div_mod::lemma_mod_sub_multiples_vanish(
                        n as int,
                        d as int,
                    );
                    vstd::arithmetic::div_mod::lemma_fundamental_div_mod(n as int, d as int);
                    vstd::arithmetic::div_mod::lemma_fundamental_div_mod(i as int, d as int);
                    assert((n - i) % (d as int) == 0) by (nonlinear_arith)
                        requires
                            n == d * (n / d),
                            i == d * (i / d),
                            d > 0,
                            0 <= n - i < d,
                    ;
                }
            }
            lemma_base_len_step(bit as nat, i as nat);
            lemma_base_len_blocks(bit as nat, n as nat);
            lemma_base_len_blocks(bit as nat, (i + d) as nat);
            assert(base_len(bit as nat, (i + d) as nat) <= base_len(bit as nat, n as nat)) by {
                lemma_base_len_monotonic(bit as nat, (i + d) as nat, n as nat);
            }
        }
        let ghost before = output@;
        let ghost done = input@.subrange(0, i as int);
        let block = &input[i..i + d];
        encode_block(bit, msb, sym, block, output, o, e);
        proof {
            let blk = block_symbols(bit as nat, msb, sym@, block@);
            assert(blk.subrange(0, e as int) =~= blk);
            lemma_encode_base_len(bit as nat, msb, sym@, done);
            lemma_written_at_then(
                old(output)@,
                before,
                output@,
                at as int,
                encode_base_spec(bit as nat, msb, sym@, done),
                blk,
            );
            assert(done + block@ =~= input@.subrange(0, i + d));
            lemma_encode_base_append(bit as nat, msb, sym@, done, block@);
            assert(block@.subrange(0, d as int) =~= block@);
            assert(block@.subrange(d as int, d as int) =~= Seq::<u8>::empty());
            assert(encode_base_spec(bit as nat, msb, sym@, Seq::<u8>::empty())
                == Seq::<u8>::empty());
            assert(encode_base_spec(bit as nat, msb, sym@, block@) =~= blk);
            assert((i + d) % (d as int) == 0) by {
                vstd::arithmetic::div_mod::lemma_mod_add_multiples_vanish(i as int, d as int);
            }
        }
        i += d;
        o += e;
    }
    proof {
        assert(input@.subrange(0, n as int) =~= input@);
    }
    o - at
}

/// More bytes do not take fewer symbols.
pub proof fn lemma_base_len_monotonic(bit: nat, a: nat, b: nat)
    requires
        valid_bit(bit),
        a <= b,
    ensures
        base_len(bit, a) <= base_len(bit, b),
        full_len(bit, a) <= full_len(bit, b),
{
    vstd::arithmetic::div_mod::lemma_div_is_ordered(
        (8 * a + bit - 1) as int,
        (8 * b + bit - 1) as int,
        bit as int,
    );
    lemma_block_shape(bit);
    let d = dec_of(bit);
    let e = enc_of(bit);
    vstd::arithmetic::div_mod::lemma_div_is_ordered(
        (a + d - 1) as int,
        (b + d - 1) as int,
        d as int,
    );
    assert(ceil_div(a, d) * e <= ceil_div(b, d) * e) by (nonlinear_arith)
        requires
            ceil_div(a, d) <= ceil_div(b, d),
    ;
}

/// Whole blocks and what is left of `n` bytes.
proof fn lemma_split_whole(bit: nat, n: nat)
    requires
        valid_bit(bit),
    ensures
        (n - n % dec_of(bit)) % (dec_of(bit) as int) == 0,
        base_len(bit, (n - n % dec_of(bit)) as nat) + base_len(bit, n % dec_of(bit)) == base_len(
            bit,
            n,
        ),
        base_len(bit, n % dec_of(bit)) < enc_of(bit),
        base_len(bit, n % dec_of(bit)) == ceil_div(8 * (n % dec_of(bit)), bit),
        ceil_div(8 * (n % dec_of(bit)), bit) == (8 * (n % dec_of(bit)) + bit - 1) / (bit as int),
{
    let d = dec_of(bit);
    lemma_block_shape(bit);
    let whole = (n - n % d) as nat;
    vstd::arithmetic::div_mod::lemma_fundamental_div_mod(n as int, d as int);
    let q = n / d;
    assert(q * d == d * q) by (nonlinear_arith);
    vstd::arithmetic::div_mod::lemma_fundamental_div_mod_converse(
        whole as int,
        d as int,
        q as int,
        0,
    );
    lemma_base_len_blocks(bit, n);
    lemma_base_len_blocks(bit, whole);
    lemma_base_len_small(bit, 0);
    lemma_base_len_small(bit, n % d);
}

/// Encodes `input` to `output[at..]`, the last block not filled up, and returns
/// how many symbols that gave.
pub fn encode_base(
    bit: usize,
    msb: bool,
    sym: &[u8; 256],
    input: &[u8],
    output: &mut [u8],
    at: usize,
) -> (written: usize)
    requires
        valid_bit(bit as nat),
        at + base_len(bit as nat, input@.len()) <= old(output)@.len(),
    ensures
        written == base_len(bit as nat, input@.len()),
        written_at(
            old(output)@,
            final(output)@,
            at as int,
            encode_base_spec(bit as nat, msb, sym@, input@),
        ),
{
    let d = dec(bit);
    let n = input.len();
    let total = output.len();
    proof {
        lemma_block_shape(bit as nat);
        lemma_split_whole(bit as nat, n as nat);
    }
    let whole = floor(n, d);
    let head = &input[0..whole];
    let tail = &input[whole..n];
    proof {
        assert(head@ + tail@ =~= input@);
        lemma_encode_base_append(bit as nat, msb, sym@, head@, tail@);
    }
    let ghost before = output@;
    let first = encode_mut(bit, msb, sym, head, output, at);
    if tail.len() == 0 {
        proof {
            assert(encode_base_spec(bit as nat, msb, sym@, head@) + encode_base_spec(
                bit as nat,
                msb,
                sym@,
                tail@,
            ) =~= encode_base_spec(bit as nat, msb, sym@, head@));
            lemma_base_len_small(bit as nat, 0);
        }
        return first;
    }
    let count = (tail.len() * 8 + bit - 1) / bit;
    let ghost mid = output@;
    encode_block(bit, msb, sym, tail, output, at + first, count);
    proof {
        lemma_encode_base_len(bit as nat, msb, sym@, head@);
        lemma_written_at_then(
            before,
            mid,
            output@,
            at as int,
            encode_base_spec(bit as nat, msb, sym@, head@),
            encode_base_spec(bit as nat, msb, sym@, tail@),
        );
    }
    first + count
}

/// How many padding symbols fill up the symbols of `n` bytes.
proof fn lemma_fill(bit: nat, n: nat)
    requires
        valid_bit(bit),
    ensures
        base_len(bit, n) <= full_len(bit, n),
        full_len(bit, n) - base_len(bit, n) == if base_len(bit, n) % enc_of(bit) == 0 {
            0
        } else {
            enc_of(bit) - base_len(bit, n) % enc_of(bit)
        },
{
    let d = dec_of(bit);
    let e = enc_of(bit);
    lemma_block_shape(bit);
    lemma_base_len_blocks(bit, n);
    lemma_base_len_small(bit, n % d);
    lemma_base_len_small(bit, 0);
    let q = n / d;
    let rest = base_len(bit, n % d);
    assert(e * q == q * e) by (nonlinear_arith);
    vstd::arithmetic::div_mod::lemma_mod_multiples_vanish(q as int, rest as int, e as int);
    vstd::arithmetic::div_mod::lemma_small_mod(rest, e);
}

/// Encodes `input` to `output[at..]`, filled up with `pad` to whole blocks where
/// there is one, and returns how many symbols that gave.
pub fn encode_pad(
    bit: usize,
    msb: bool,
    sym: &[u8; 256],
    pad: Option<u8>,
    input: &[u8],
    output: &mut [u8],
    at: usize,
) -> (written: usize)
    requires
        valid_bit(bit as nat),
        at + pad_len(bit as nat, pad is Some, input@.len()) <= old(output)@.len(),
    ensures
        written == pad_len(bit as nat, pad is Some, input@.len()),
        written_at(
            old(output)@,
            final(output)@,
            at as int,
            encode_pad_spec(bit as nat, msb, sym@, pad, input@),
        ),
{
    let total = output.len();
    proof {
        lemma_fill(bit as nat, input@.len());
        lemma_encode_base_len(bit as nat, msb, sym@, input@);
        lemma_block_shape(bit as nat);
    }
    let ghost before = output@;
    let data = encode_base(bit, msb, sym, input, output, at);
    match pad {
        None => data,
        Some(p) => {
            let e = enc(bit);
            let over = data % e;
            let fill = if over == 0 {
                0
            } else {
                e - over
            };
            let ghost mid = output@;
            fill_at(output, at + data, fill, p);
            proof {
                lemma_written_at_then(
                    before,
                    mid,
                    output@,
                    at as int,
                    encode_base_spec(bit as nat, msb, sym@, input@),
                    repeat(p, fill as nat),
                );
            }
            data + fill
        },
    }
}

/// The width of a wrap and its separator as a sequence.
pub open spec fn spec_wrap(wrap: Option<(usize, &[u8])>) -> Option<(nat, Seq<u8>)> {
    match wrap {
        None => None,
        Some((width, sep)) => Some((width as nat, sep@)),
    }
}

/// The width of a wrap and the length of its separator.
pub open spec fn spec_wrap_lens(wrap: Option<(usize, &[u8])>) -> Option<(nat, nat)> {
    match wrap {
        None => None,
        Some((width, sep)) => Some((width as nat, sep@.len())),
    }
}

/// How many bytes a whole line of `width` symbols takes.
proof fn lemma_per_line(bit: nat, width: nat)
    requires
        valid_bit(bit),
        width > 0,
        width % enc_of(bit) == 0,
    ensures
        (width / enc_of(bit)) * dec_of(bit) >= dec_of(bit),
        (width / enc_of(bit)) * dec_of(bit) <= width,
        ((width / enc_of(bit)) * dec_of(bit)) % dec_of(bit) == 0,
        base_len(bit, (width / enc_of(bit)) * dec_of(bit)) == width,
{
    let d = dec_of(bit);
    let e = enc_of(bit);
    let k = width / e;
    let per_line = k * d;
    lemma_block_shape(bit);
    vstd::arithmetic::div_mod::lemma_fundamental_div_mod(width as int, e as int);
    assert(k >= 1 && k * e == width) by (nonlinear_arith)
        requires
            width == e * k + width % e,
            width % e == 0,
            width > 0,
            e > 0,
    ;
    assert(k * d >= d && k * d <= width) by (nonlinear_arith)
        requires
            k >= 1,
            k * e == width,
            1 <= d <= e,
    ;
    vstd::arithmetic::div_mod::lemma_mod_multiples_basic(k as int, d as int);
    lemma_base_len_blocks(bit, per_line);
    lemma_base_len_small(bit, 0);
    vstd::arithmetic::div_mod::lemma_fundamental_div_mod_converse(
        per_line as int,
        d as int,
        k as int,
        0,
    );
}

/// One more whole line behind whole lines.
proof fn lemma_wrap_step(
    bit: nat,
    msb: bool,
    sym: Seq<u8>,
    width: nat,
    sep: Seq<u8>,
    per_line: nat,
    done: Seq<u8>,
    line: Seq<u8>,
)
    requires
        valid_bit(bit),
        width > 0,
        per_line > 0,
        per_line % dec_of(bit) == 0,
        base_len(bit, per_line) == width,
        done.len() % per_line == 0,
        line.len() == per_line,
    ensures
        wrap_spec(encode_base_spec(bit, msb, sym, done + line), width, sep) == wrap_spec(
            encode_base_spec(bit, msb, sym, done),
            width,
            sep,
        ) + (encode_base_spec(bit, msb, sym, line) + sep),
        encode_base_spec(bit, msb, sym, line).len() == width,
        (done.len() + per_line) % per_line == 0,
        (done.len() + per_line) / per_line == done.len() / per_line + 1,
        (done.len() / per_line + 1) * (width + sep.len()) == (done.len() / per_line) * (width
            + sep.len()) + width + sep.len(),
{
    let x = encode_base_spec(bit, msb, sym, done);
    let y = encode_base_spec(bit, msb, sym, line);
    lemma_encode_base_len(bit, msb, sym, done);
    lemma_encode_base_len(bit, msb, sym, line);
    lemma_line_count(bit, per_line, width, done.len());
    lemma_multiple_of_multiple(done.len(), per_line, dec_of(bit));
    lemma_encode_base_append(bit, msb, sym, done, line);
    lemma_wrap_append(x, y, width, sep);
    assert(wrap_spec(y, width, sep) == y + sep);
    vstd::arithmetic::div_mod::lemma_mod_add_multiples_vanish(done.len() as int, per_line as int);
    vstd::arithmetic::div_mod::lemma_hoist_over_denominator(done.len() as int, 1, per_line);
    let k = done.len() / per_line;
    let w = width + sep.len();
    assert((k + 1) * w == k * w + w) by (nonlinear_arith);
}

/// How long whole lines are.
proof fn lemma_wrap_done_len(
    bit: nat,
    msb: bool,
    sym: Seq<u8>,
    width: nat,
    sep: Seq<u8>,
    per_line: nat,
    done: Seq<u8>,
)
    requires
        valid_bit(bit),
        width > 0,
        per_line > 0,
        per_line % dec_of(bit) == 0,
        base_len(bit, per_line) == width,
        done.len() % per_line == 0,
    ensures
        wrap_spec(encode_base_spec(bit, msb, sym, done), width, sep).len() == (done.len()
            / per_line) * (width + sep.len()),
{
    let x = encode_base_spec(bit, msb, sym, done);
    lemma_encode_base_len(bit, msb, sym, done);
    lemma_line_count(bit, per_line, width, done.len());
    lemma_wrap_spec_len(x, width, sep);
    let k = done.len() / per_line;
    let sl = sep.len();
    assert(k * width + sl * k == k * (width + sl)) by (nonlinear_arith);
}

/// What is left behind whole lines is one more line, or nothing.
proof fn lemma_wrap_finish(
    bit: nat,
    msb: bool,
    sym: Seq<u8>,
    pad: Option<u8>,
    width: nat,
    sep: Seq<u8>,
    per_line: nat,
    done: Seq<u8>,
    rest: Seq<u8>,
)
    requires
        valid_bit(bit),
        width > 0,
        per_line > 0,
        per_line % dec_of(bit) == 0,
        base_len(bit, per_line) == width,
        done.len() % per_line == 0,
        rest.len() < per_line,
    ensures
        wrap_spec(encode_pad_spec(bit, msb, sym, pad, done + rest), width, sep) == wrap_spec(
            encode_base_spec(bit, msb, sym, done),
            width,
            sep,
        ) + if rest.len() == 0 {
            Seq::<u8>::empty()
        } else {
            encode_pad_spec(bit, msb, sym, pad, rest) + sep
        },
        encode_pad_spec(bit, msb, sym, pad, rest).len() == pad_len(bit, pad is Some, rest.len()),
{
    let x = encode_base_spec(bit, msb, sym, done);
    let y = encode_pad_spec(bit, msb, sym, pad, rest);
    lemma_multiple_of_multiple(done.len(), per_line, dec_of(bit));
    lemma_encode_pad_append(bit, msb, sym, pad, done, rest);
    lemma_encode_base_len(bit, msb, sym, done);
    lemma_line_count(bit, per_line, width, done.len());
    lemma_wrap_append(x, y, width, sep);
    lemma_encode_pad_len(bit, msb, sym, pad, rest);
    lemma_last_line(bit, pad is Some, per_line, width, rest.len());
    if rest.len() == 0 {
        assert(wrap_spec(y, width, sep) == Seq::<u8>::empty());
    } else {
        assert(wrap_spec(y, width, sep) == y + sep);
    }
}

/// Encodes `input` to the front of `output`, in lines where there is a wrap, and
/// returns the length of the text.
pub fn encode_wrap_mut(
    bit: usize,
    msb: bool,
    sym: &[u8; 256],
    pad: Option<u8>,
    wrap: Option<(usize, &[u8])>,
    input: &[u8],
    output: &mut [u8],
) -> (written: usize)
    requires
        valid_bit(bit as nat),
        wrap matches Some((width, _)) ==> width > 0 && (width as nat) % enc_of(bit as nat) == 0,
        wrap_len(bit as nat, pad is Some, spec_wrap_lens(wrap), input@.len()) <= old(
            output,
        )@.len(),
    ensures
        written == wrap_len(bit as nat, pad is Some, spec_wrap_lens(wrap), input@.len()),
        written_at(
            old(output)@,
            final(output)@,
            0,
            encode_wrap_spec(bit as nat, msb, sym@, pad, spec_wrap(wrap), input@),
        ),
{
    let (width, sep) = match wrap {
        None => {
            return encode_pad(bit, msb, sym, pad, input, output, 0);
        },
        Some(w) => w,
    };
    let d = dec(bit);
    let e = enc(bit);
    let n = input.len();
    let total = output.len();
    let seplen = sep.len();
    let ghost b = bit as nat;
    let ghost padded = pad is Some;
    proof {
        lemma_block_shape(b);
        lemma_per_line(b, width as nat);
    }
    let per_line = width / e * d;
    let mut i: usize = 0;
    let mut o: usize = 0;
    proof {
        assert(input@.subrange(0, 0) =~= Seq::<u8>::empty());
        assert(output@.subrange(0, 0) =~= Seq::<u8>::empty());
        assert(encode_base_spec(b, msb, sym@, Seq::<u8>::empty()) == Seq::<u8>::empty());
        assert(wrap_spec(Seq::<u8>::empty(), width as nat, sep@) == Seq::<u8>::empty());
        vstd::arithmetic::div_mod::lemma_basic_div(0, per_line as int);
        assert(0 * (width + seplen) == 0) by (nonlinear_arith);
    }
    while n - i >= per_line
        invariant
            valid_bit(b),
            b == bit,
            n == input@.len(),
            total == output@.len(),
            output@.len() == old(output)@.len(),
            seplen == sep@.len(),
            width > 0,
            per_line > 0,
            (per_line as nat) % dec_of(b) == 0,
            base_len(b, per_line as nat) == width,
            i <= n,
            i % per_line == 0,
            o == (i / per_line) * (width + seplen),
            padded == (pad is Some),
            wrap_len(b, padded, Some((width as nat, seplen as nat)), n as nat) <= total,
            written_at(
                old(output)@,
                output@,
                0,
                wrap_spec(
                    encode_base_spec(b, msb, sym@, input@.subrange(0, i as int)),
                    width as nat,
                    sep@,
                ),
            ),
        decreases n - i,
    {
        let ghost done = input@.subrange(0, i as int);
        let ghost before = output@;
        let line = &input[i..i + per_line];
        proof {
            lemma_wrap_room(
                b,
                padded,
                width as nat,
                seplen as nat,
                per_line as nat,
                i as nat,
                n as nat,
            );
            lemma_wrap_step(b, msb, sym@, width as nat, sep@, per_line as nat, done, line@);
            lemma_wrap_done_len(b, msb, sym@, width as nat, sep@, per_line as nat, done);
            lemma_encode_base_len(b, msb, sym@, line@);
            assert(done + line@ =~= input@.subrange(0, i + per_line));
        }
        let got = encode_mut(bit, msb, sym, line, output, o);
        let ghost mid = output@;
        copy_at(output, o + got, sep);
        proof {
            let x = encode_base_spec(b, msb, sym@, done);
            let y = encode_base_spec(b, msb, sym@, line@);
            lemma_written_at_then(before, mid, output@, o as int, y, sep@);
            lemma_written_at_then(
                old(output)@,
                before,
                output@,
                0,
                wrap_spec(x, width as nat, sep@),
                y + sep@,
            );
        }
        i += per_line;
        o = o + got + seplen;
    }
    let rest = &input[i..n];
    let ghost done = input@.subrange(0, i as int);
    proof {
        assert(done + rest@ =~= input@);
        lemma_wrap_finish(b, msb, sym@, pad, width as nat, sep@, per_line as nat, done, rest@);
        lemma_wrap_done_len(b, msb, sym@, width as nat, sep@, per_line as nat, done);
        lemma_wrap_room(
            b,
            padded,
            width as nat,
            seplen as nat,
            per_line as nat,
            i as nat,
            n as nat,
        );
    }
    if rest.len() == 0 {
        proof {
            let x = encode_base_spec(b, msb, sym@, done);
            assert(wrap_spec(x, width as nat, sep@) + Seq::<u8>::empty() =~= wrap_spec(
                x,
                width as nat,
                sep@,
            ));
            lemma_last_line(b, padded, per_line as nat, width as nat, 0);
        }
        return o;
    }
    let ghost before = output@;
    let got = encode_pad(bit, msb, sym, pad, rest, output, o);
    let ghost mid = output@;
    copy_at(output, o + got, sep);
    proof {
        let x = encode_base_spec(b, msb, sym@, done);
        let y = encode_pad_spec(b, msb, sym@, pad, rest@);
        lemma_written_at_then(before, mid, output@, o as int, y, sep@);
        lemma_written_at_then(
            old(output)@,
            before,
            output@,
            0,
            wrap_spec(x, width as nat, sep@),
            y + sep@,
        );
    }
    o + got + seplen
}

/// How long a text is.
pub proof fn lemma_encode_wrap_len(
    bit: nat,
    msb: bool,
    sym: Seq<u8>,
    pad: Option<u8>,
    wrap: Option<(nat, Seq<u8>)>,
    input: Seq<u8>,
)
    requires
        valid_bit(bit),
        wrap matches Some((width, _)) ==> width > 0,
    ensures
        encode_wrap_spec(bit, msb, sym, pad, wrap, input).len() == wrap_len(
            bit,
            pad is Some,
            match wrap {
                None => None,
                Some((width, sep)) => Some((width, sep.len())),
            },
            input.len(),
        ),
{
    lemma_encode_pad_len(bit, msb, sym, pad, input);
    match wrap {
        None => {},
        Some((width, sep)) => {
            lemma_wrap_spec_len(encode_pad_spec(bit, msb, sym, pad, input), width, sep);
        },
    }
}

/// A multiple of a multiple of `d` is a multiple of `d`.
proof fn lemma_multiple_of_multiple(i: nat, m: nat, d: nat)
    requires
        m > 0,
        d > 0,
        i % m == 0,
        m % d == 0,
    ensures
        i % d == 0,
{
    vstd::arithmetic::div_mod::lemma_fundamental_div_mod(i as int, m as int);
    vstd::arithmetic::div_mod::lemma_fundamental_div_mod(m as int, d as int);
    let a = i / m;
    let c = m / d;
    assert(i == (a * c) * d) by (nonlinear_arith)
        requires
            i == m * a,
            m == d * c,
    ;
    vstd::arithmetic::div_mod::lemma_mod_multiples_basic((a * c) as int, d as int);
}

/// How many symbols an input has with its padding.
pub proof fn lemma_encode_pad_len(
    bit: nat,
    msb: bool,
    sym: Seq<u8>,
    pad: Option<u8>,
    input: Seq<u8>,
)
    requires
        valid_bit(bit),
    ensures
        encode_pad_spec(bit, msb, sym, pad, input).len() == pad_len(bit, pad is Some, input.len()),
{
    lemma_encode_base_len(bit, msb, sym, input);
    lemma_base_len_blocks(bit, input.len());
}

/// How long wrapped symbols are.
pub proof fn lemma_wrap_spec_len(symbols: Seq<u8>, width: nat, sep: Seq<u8>)
    requires
        width > 0,
    ensures
        wrap_spec(symbols, width, sep).len() == symbols.len() + sep.len() * ceil_div(
            symbols.len(),
            width,
        ),
    decreases symbols.len(),
{
    let n = symbols.len();
    if n == 0 {
        vstd::arithmetic::div_mod::lemma_basic_div((width - 1) as int, width as int);
        assert(sep.len() * 0 == 0) by (nonlinear_arith);
    } else if n <= width {
        vstd::arithmetic::div_mod::lemma_fundamental_div_mod_converse(
            (n + width - 1) as int,
            width as int,
            1,
            (n - 1) as int,
        );
        assert(sep.len() * 1 == sep.len()) by (nonlinear_arith);
    } else {
        let rest = symbols.subrange(width as int, n as int);
        lemma_wrap_spec_len(rest, width, sep);
        vstd::arithmetic::div_mod::lemma_hoist_over_denominator(
            (rest.len() + width - 1) as int,
            1,
            width,
        );
        let q = ceil_div(rest.len(), width);
        assert(sep.len() * (q + 1) == sep.len() * q + sep.len()) by (nonlinear_arith);
    }
}

/// Whole lines are as many symbols as their bytes take.
proof fn lemma_line_count(bit: nat, per_line: nat, width: nat, i: nat)
    requires
        valid_bit(bit),
        per_line > 0,
        width > 0,
        per_line % dec_of(bit) == 0,
        base_len(bit, per_line) == width,
        i % per_line == 0,
    ensures
        base_len(bit, i) == (i / per_line) * width,
        base_len(bit, i) % width == 0,
        ceil_div(base_len(bit, i), width) == i / per_line,
    decreases i,
{
    lemma_block_shape(bit);
    let d = dec_of(bit);
    let e = enc_of(bit);
    if i == 0 {
        lemma_base_len_small(bit, 0);
        assert(0 * width == 0) by (nonlinear_arith);
        vstd::arithmetic::div_mod::lemma_basic_div((width - 1) as int, width as int);
    } else {
        assert(i >= per_line) by {
            if i < per_line {
                vstd::arithmetic::div_mod::lemma_small_mod(i, per_line);
            }
        }
        let j = (i - per_line) as nat;
        assert(j % per_line == 0) by {
            vstd::arithmetic::div_mod::lemma_mod_sub_multiples_vanish(i as int, per_line as int);
        }
        lemma_line_count(bit, per_line, width, j);
        lemma_base_len_blocks(bit, i);
        lemma_base_len_blocks(bit, j);
        lemma_base_len_blocks(bit, per_line);
        lemma_base_len_small(bit, 0);
        lemma_multiple_of_multiple(i, per_line, d);
        lemma_multiple_of_multiple(j, per_line, d);
        assert(i / d == j / d + per_line / d) by {
            vstd::arithmetic::div_mod::lemma_fundamental_div_mod(j as int, d as int);
            vstd::arithmetic::div_mod::lemma_fundamental_div_mod(per_line as int, d as int);
            vstd::arithmetic::div_mod::lemma_fundamental_div_mod_converse(
                i as int,
                d as int,
                (j / d + per_line / d) as int,
                0,
            );
            let qj = j / d;
            let qp = per_line / d;
            assert((qj + qp) * d == d * qj + d * qp) by (nonlinear_arith);
        }
        let qj = j / d;
        let qp = per_line / d;
        assert((qj + qp) * e == qj * e + qp * e) by (nonlinear_arith);
        assert(i / per_line == j / per_line + 1) by {
            vstd::arithmetic::div_mod::lemma_hoist_over_denominator(j as int, 1, per_line);
        }
        let kj = j / per_line;
        assert((kj + 1) * width == kj * width + width) by (nonlinear_arith);
        let k = i / per_line;
        vstd::arithmetic::div_mod::lemma_mod_multiples_basic(k as int, width as int);
        vstd::arithmetic::div_mod::lemma_fundamental_div_mod_converse(
            (k * width + width - 1) as int,
            width as int,
            k as int,
            (width - 1) as int,
        );
    }
}

/// What is left behind whole lines takes at most one line.
proof fn lemma_last_line(bit: nat, padded: bool, per_line: nat, width: nat, rest: nat)
    requires
        valid_bit(bit),
        per_line > 0,
        per_line % dec_of(bit) == 0,
        base_len(bit, per_line) == width,
        rest < per_line,
    ensures
        pad_len(bit, padded, rest) <= width,
        rest > 0 ==> pad_len(bit, padded, rest) > 0,
        rest == 0 ==> pad_len(bit, padded, rest) == 0,
{
    lemma_block_shape(bit);
    let d = dec_of(bit);
    let e = enc_of(bit);
    lemma_base_len_blocks(bit, rest);
    lemma_base_len_blocks(bit, per_line);
    lemma_base_len_small(bit, 0);
    lemma_base_len_small(bit, rest % d);
    vstd::arithmetic::div_mod::lemma_fundamental_div_mod(rest as int, d as int);
    vstd::arithmetic::div_mod::lemma_fundamental_div_mod(per_line as int, d as int);
    let q = rest / d;
    let p = per_line / d;
    assert(q < p) by (nonlinear_arith)
        requires
            rest == d * q + rest % d,
            per_line == d * p,
            rest < per_line,
            0 <= rest % d,
            d > 0,
    ;
    assert(q * e + e <= p * e) by (nonlinear_arith)
        requires
            q + 1 <= p,
    ;
    if rest == 0 {
        assert(0 * e == 0) by (nonlinear_arith);
    } else if rest % d == 0 {
        assert(q >= 1);
        assert(q * e >= e) by (nonlinear_arith)
            requires
                q >= 1,
        ;
    }
}

/// There is room for every line.
proof fn lemma_wrap_room(
    bit: nat,
    padded: bool,
    width: nat,
    seplen: nat,
    per_line: nat,
    i: nat,
    n: nat,
)
    requires
        valid_bit(bit),
        width > 0,
        per_line > 0,
        per_line % dec_of(bit) == 0,
        base_len(bit, per_line) == width,
        i % per_line == 0,
        i <= n,
    ensures
        n - i >= per_line ==> (i / per_line) * (width + seplen) + width + seplen <= wrap_len(
            bit,
            padded,
            Some((width, seplen)),
            n,
        ),
        n - i < per_line ==> wrap_len(bit, padded, Some((width, seplen)), n) == (i / per_line) * (
        width + seplen) + pad_len(bit, padded, (n - i) as nat) + if n == i {
            0
        } else {
            seplen
        },
{
    lemma_block_shape(bit);
    let d = dec_of(bit);
    let k = i / per_line;
    let total = pad_len(bit, padded, n);
    lemma_line_count(bit, per_line, width, i);
    lemma_multiple_of_multiple(i, per_line, d);
    // The symbols of `n` bytes are those of the first `i` and those of the rest.
    let rest = (n - i) as nat;
    lemma_base_len_blocks(bit, n);
    lemma_base_len_blocks(bit, i);
    lemma_base_len_blocks(bit, rest);
    lemma_base_len_small(bit, 0);
    assert(n / d == i / d + rest / d && n % d == rest % d) by {
        vstd::arithmetic::div_mod::lemma_fundamental_div_mod(i as int, d as int);
        vstd::arithmetic::div_mod::lemma_fundamental_div_mod(rest as int, d as int);
        vstd::arithmetic::div_mod::lemma_fundamental_div_mod_converse(
            n as int,
            d as int,
            (i / d + rest / d) as int,
            (rest % d) as int,
        );
        assert((i / d + rest / d) * d == d * (i / d) + d * (rest / d)) by (nonlinear_arith);
    }
    let qi = i / d;
    let qr = rest / d;
    let ee = enc_of(bit);
    assert((qi + qr) * ee == qi * ee + qr * ee) by (nonlinear_arith);
    let tail = pad_len(bit, padded, rest);
    assert(total == k * width + tail);
    // Lines: `k` whole ones and those of the rest.
    vstd::arithmetic::div_mod::lemma_hoist_over_denominator((tail + width - 1) as int, k as int, width);
    assert(ceil_div(total, width) == k + ceil_div(tail, width));
    let lines = ceil_div(tail, width);
    assert(seplen * (k + lines) == seplen * k + seplen * lines) by (nonlinear_arith);
    assert(k * (width + seplen) == k * width + seplen * k) by (nonlinear_arith);
    if rest >= per_line {
        lemma_base_len_monotonic(bit, per_line, rest);
        lemma_base_len_blocks(bit, per_line);
        assert(tail >= width);
        vstd::arithmetic::div_mod::lemma_div_is_ordered(
            (width + width - 1) as int,
            (tail + width - 1) as int,
            width as int,
        );
        vstd::arithmetic::div_mod::lemma_fundamental_div_mod_converse(
            (width + width - 1) as int,
            width as int,
            1,
            (width - 1) as int,
        );
        assert(seplen * lines >= seplen) by (nonlinear_arith)
            requires
                lines >= 1,
        ;
    } else {
        lemma_last_line(bit, padded, per_line, width, rest);
        if rest == 0 {
            vstd::arithmetic::div_mod::lemma_basic_div((width - 1) as int, width as int);
            assert(seplen * 0 == 0) by (nonlinear_arith);
        } else {
            vstd::arithmetic::div_mod::lemma_fundamental_div_mod_converse(
                (tail + width - 1) as int,
                width as int,
                1,
                (tail - 1) as int,
            );
            assert(seplen * 1 == seplen) by (nonlinear_arith);
        }
    }
}

/// The rules by which a text is read.
#[derive(Clone, Copy, Debug)]
pub struct Rules {
    /// How many bits a symbol has.
    pub bit: usize,
    /// Whether the most significant bit comes first.
    pub msb: bool,
    /// Whether the bits behind the last whole byte must be zero.
    pub ctb: bool,
    /// The padding, where blocks are filled up.
    pub pad: Option<u8>,
    /// Whether nothing may follow a block that holds padding.
    pub pad_final: bool,
    /// Whether there are bytes to skip.
    pub ignore: bool,
}

/// What decoding a text gave: the bytes decoded before it ended or failed, and
/// the failure if there was one.
pub struct Outcome {
    /// The bytes that were decoded.
    pub bytes: Seq<u8>,
    /// What stopped the decoding, if anything did.
    pub failure: Option<DecodePartial>,
}

/// The byte is skipped: it is marked so in the table, or it is not ASCII.
pub open spec fn is_ignored(val: Seq<u8>, ignore: bool, c: u8) -> bool {
    ignore && (c >= 128 || val[c as int] == IGNORE)
}

/// The index of the first byte at or behind `from` that is not skipped, or the
/// length of the input.
pub open spec fn next_sig(val: Seq<u8>, ignore: bool, input: Seq<u8>, from: int) -> int
    decreases input.len() - from,
{
    if from < 0 || from >= input.len() {
        input.len() as int
    } else if is_ignored(val, ignore, input[from]) {
        next_sig(val, ignore, input, from + 1)
    } else {
        from
    }
}

/// The indices of the next `count` bytes at or behind `from` that are not skipped;
/// fewer where the input ends before.
pub open spec fn gather(val: Seq<u8>, ignore: bool, input: Seq<u8>, from: int, count: nat) -> Seq<
    int,
>
    decreases count,
{
    let p = next_sig(val, ignore, input, from);
    if count == 0 || p >= input.len() {
        Seq::empty()
    } else {
        seq![p] + gather(val, ignore, input, p + 1, (count - 1) as nat)
    }
}

/// The bytes at `positions`.
pub open spec fn bytes_at(input: Seq<u8>, positions: Seq<int>) -> Seq<u8> {
    Seq::new(positions.len(), |i: int| input[positions[i]])
}

/// How many bytes a text of `n` bytes gives at most.
pub open spec fn decode_room(bit: nat, padded: bool, n: nat) -> nat {
    if padded {
        n / enc_of(bit) * dec_of(bit)
    } else {
        (n * bit) / 8
    }
}

/// Decodes the symbols `data` of a block that is short of symbols: the whole
/// bytes that their bits make. Fails with `Length` at `length_at` where the last
/// symbol holds no bit of a byte, and with `Trailing` at the last symbol where
/// the bits behind the last byte must be zero and are not.
pub open spec fn decode_part(
    bit: nat,
    msb: bool,
    ctb: bool,
    val: Seq<u8>,
    data: Seq<u8>,
    length_at: nat,
) -> Result<Seq<u8>, (nat, DecodeKind)> {
    let k = data.len();
    let n = (k * bit) / 8;
    let bytes = block_bytes(
        bit,
        msb,
        values_of(val, data) + repeat(0, (enc_of(bit) - k) as nat),
    );
    if (k * bit) % 8 >= bit {
        Err((length_at, DecodeKind::Length))
    } else if ctb && bytes.subrange(n as int, dec_of(bit) as int) != repeat(
        0,
        (dec_of(bit) - n) as nat,
    ) {
        Err(((k - 1) as nat, DecodeKind::Trailing))
    } else {
        Ok(bytes.subrange(0, n as int))
    }
}

/// How many bytes at the front of `block` are not the padding.
pub open spec fn data_len(pad: Option<u8>, block: Seq<u8>) -> nat {
    match pad {
        None => block.len(),
        Some(p) => prefix_len(block, not_byte(p)),
    }
}

/// Decodes one block of a text, whose bytes are `block`: the symbols of a whole
/// block, or fewer at the end of the text. Fails with the index in the block of
/// the byte that is wrong.
pub open spec fn decode_block_result(r: Rules, val: Seq<u8>, block: Seq<u8>) -> Result<
    Seq<u8>,
    (nat, DecodeKind),
> {
    let bit = r.bit as nat;
    let e = enc_of(bit);
    let p = data_len(r.pad, block);
    let data = block.subrange(0, p as int);
    let bad = prefix_len(data, symbol_pred(val, bit));
    let tail = p + match r.pad {
        None => 0,
        Some(x) => prefix_len(block.subrange(p as int, block.len() as int), is_byte(x)),
    };
    if bad < p {
        Err((bad, DecodeKind::Symbol))
    } else if tail < block.len() {
        Err((tail, DecodeKind::Padding))
    } else if block.len() < e {
        if r.pad is Some {
            Err((0, DecodeKind::Length))
        } else {
            decode_part(bit, r.msb, r.ctb, val, data, (p - ((p * bit) % 8) / bit) as nat)
        }
    } else if p == e {
        Ok(block_bytes(bit, r.msb, values_of(val, data)))
    } else if p == 0 {
        Err((0, DecodeKind::Padding))
    } else {
        decode_part(bit, r.msb, r.ctb, val, data, p)
    }
}

/// What lies before the next byte that is not skipped is skipped.
pub proof fn lemma_next_sig(val: Seq<u8>, ignore: bool, input: Seq<u8>, from: int)
    requires
        0 <= from <= input.len(),
    ensures
        from <= next_sig(val, ignore, input, from) <= input.len(),
        forall|j: int|
            from <= j < next_sig(val, ignore, input, from) ==> is_ignored(val, ignore, input[j]),
        next_sig(val, ignore, input, from) < input.len() ==> !is_ignored(
            val,
            ignore,
            input[next_sig(val, ignore, input, from)],
        ),
    decreases input.len() - from,
{
    if from < input.len() && is_ignored(val, ignore, input[from]) {
        lemma_next_sig(val, ignore, input, from + 1);
    }
}

/// The bytes gathered lie in the input, one behind the other; fewer are gathered
/// only where the input ends.
pub proof fn lemma_gather(val: Seq<u8>, ignore: bool, input: Seq<u8>, from: int, count: nat)
    requires
        0 <= from <= input.len(),
    ensures
        gather(val, ignore, input, from, count).len() <= count,
        forall|i: int|
            0 <= i < gather(val, ignore, input, from, count).len() ==> from + i <= (
            #[trigger] gather(val, ignore, input, from, count)[i]) < input.len(),
        gather(val, ignore, input, from, count).len() < count ==> gather(
            val,
            ignore,
            input,
            from,
            count,
        ).len() == 0 || next_sig(
            val,
            ignore,
            input,
            gather(val, ignore, input, from, count).last() + 1,
        ) >= input.len(),
        gather(val, ignore, input, from, count).len() == 0 ==> count == 0 || next_sig(
            val,
            ignore,
            input,
            from,
        ) >= input.len(),
    decreases count,
{
    lemma_next_sig(val, ignore, input, from);
    let p = next_sig(val, ignore, input, from);
    if count > 0 && p < input.len() {
        lemma_gather(val, ignore, input, p + 1, (count - 1) as nat);
        let g = gather(val, ignore, input, from, count);
        let g1 = gather(val, ignore, input, p + 1, (count - 1) as nat);
        assert forall|i: int| 0 <= i < g.len() implies from + i <= (#[trigger] g[i])
            < input.len() by {
            if i > 0 {
                assert(g[i] == g1[i - 1]);
            }
        }
        if g1.len() > 0 {
            assert(g.last() == g1.last());
        } else {
            assert(g.last() == p);
        }
    }
}

/// What decoding the text from `from` on gives, behind the bytes `acc` that were
/// decoded before: block by block, until the text ends or a block fails. Of a
/// failure, `read` is where the failing block begins.
#[verifier::opaque]
pub open spec fn decode_from(r: Rules, val: Seq<u8>, input: Seq<u8>, from: int, acc: Seq<u8>) -> Outcome
    decreases input.len() - from,
{
    let e = enc_of(r.bit as nat);
    let pos = gather(val, r.ignore, input, from, e);
    if from < 0 || from > input.len() || pos.len() == 0 {
        Outcome { bytes: acc, failure: None }
    } else {
        let block = bytes_at(input, pos);
        let next = pos.last() + 1;
        match decode_block_result(r, val, block) {
            Err((i, kind)) => Outcome {
                bytes: acc,
                failure: Some(
                    DecodePartial {
                        read: pos[0] as usize,
                        written: acc.len() as usize,
                        error: DecodeError { position: pos[i as int] as usize, kind },
                    },
                ),
            },
            Ok(bytes) => {
                let out = acc + bytes;
                if pos.len() < e {
                    Outcome { bytes: out, failure: None }
                } else if r.pad_final && data_len(r.pad, block) < e {
                    let q = next_sig(val, r.ignore, input, next);
                    if q < input.len() {
                        Outcome {
                            bytes: out,
                            failure: Some(
                                DecodePartial {
                                    read: q as usize,
                                    written: out.len() as usize,
                                    error: DecodeError {
                                        position: q as usize,
                                        kind: DecodeKind::Padding,
                                    },
                                },
                            ),
                        }
                    } else {
                        Outcome { bytes: out, failure: None }
                    }
                } else {
                    proof {
                        lemma_gather(val, r.ignore, input, from, e);
                    }
                    decode_from(r, val, input, next, out)
                }
            },
        }
    }
}

/// The index of the first byte at or behind `from` that is not skipped, or the
/// length of the input.
pub fn skip_ignore(val: &[u8; 128], ignore: bool, input: &[u8], from: usize) -> (r: usize)
    requires
        from <= input@.len(),
    ensures
        r == next_sig(val@, ignore, input@, from as int),
        from <= r <= input@.len(),
{
    let n = input.len();
    let mut i: usize = from;
    if !ignore {
        proof {
            lemma_next_sig(val@, ignore, input@, from as int);
        }
        return i;
    }
    while i < n && (input[i] >= 128 || val[input[i] as usize] == IGNORE)
        invariant
            from <= i <= n,
            n == input@.len(),
            ignore,
            next_sig(val@, ignore, input@, from as int) == next_sig(val@, ignore, input@, i as int),
        decreases n - i,
    {
        i += 1;
    }
    i
}

/// Takes the next `count` bytes at or behind `from` that are not skipped, fewer
/// where the input ends before, and returns how many they are: the bytes to
/// `block`, their indices to `positions`.
pub fn decode_wrap_block(
    val: &[u8; 128],
    ignore: bool,
    input: &[u8],
    from: usize,
    count: usize,
    block: &mut [u8; 8],
    positions: &mut [usize; 8],
) -> (got: usize)
    requires
        count <= 8,
        from <= input@.len(),
    ensures
        got == gather(val@, ignore, input@, from as int, count as nat).len(),
        got <= count,
        forall|i: int|
            0 <= i < got ==> final(positions)@[i] == gather(
                val@,
                ignore,
                input@,
                from as int,
                count as nat,
            )[i],
        final(block)@.subrange(0, got as int) == bytes_at(
            input@,
            gather(val@, ignore, input@, from as int, count as nat),
        ),
{
    let n = input.len();
    let ghost all = gather(val@, ignore, input@, from as int, count as nat);
    let mut pos: usize = from;
    let mut got: usize = 0;
    let mut more = true;
    let ghost mut taken: Seq<int> = Seq::empty();
    proof {
        assert(taken + all =~= all);
    }
    while more && got < count
        invariant
            got <= count <= 8,
            from <= pos <= n,
            n == input@.len(),
            taken.len() == got,
            all == gather(val@, ignore, input@, from as int, count as nat),
            more ==> all == taken + gather(val@, ignore, input@, pos as int, (count - got) as nat),
            !more ==> all == taken,
            forall|i: int|
                0 <= i < got ==> 0 <= (#[trigger] taken[i]) < n && block@[i] == input@[taken[i]]
                    && positions@[i] == taken[i],
        decreases (if more { 1int } else { 0int }), count - got,
    {
        let p = skip_ignore(val, ignore, input, pos);
        if p >= n {
            more = false;
            proof {
                assert(taken + Seq::<int>::empty() =~= taken);
            }
        } else {
            let ghost block_before = block@;
            let ghost positions_before = positions@;
            block[got] = input[p];
            positions[got] = p;
            proof {
                let rest = gather(val@, ignore, input@, p + 1, (count - got - 1) as nat);
                assert(taken + (seq![p as int] + rest) =~= taken.push(p as int) + rest);
                let before = taken;
                taken = taken.push(p as int);
                assert(taken[got as int] == p);
                assert(block@[got as int] == input@[p as int]);
                assert(positions@[got as int] == p);
                assert forall|i: int| 0 <= i < got + 1 implies 0 <= (#[trigger] taken[i]) < n
                    && block@[i] == input@[taken[i]] && positions@[i] == taken[i] by {
                    if i < got {
                        assert(taken[i] == before[i]);
                        assert(block@[i] == block_before[i]);
                        assert(positions@[i] == positions_before[i]);
                    }
                }
            }
            got += 1;
            pos = p + 1;
        }
    }
    proof {
        if more {
            assert(taken + Seq::<int>::empty() =~= taken);
        }
        assert(block@.subrange(0, got as int) =~= bytes_at(input@, all));
    }
    got
}

/// Where the data of a block ends and where its padding ends: how many bytes at
/// the front are not the padding, and the index of the first byte behind them
/// that is not the padding either, or the length of the block.
pub fn check_pad(pad: Option<u8>, block: &[u8]) -> (r: (usize, usize))
    ensures
        r.0 == data_len(pad, block@),
        r.0 <= r.1 <= block@.len(),
        r.1 == r.0 + match pad {
            None => 0,
            Some(x) => prefix_len(
                block@.subrange(r.0 as int, block@.len() as int),
                is_byte(x),
            ),
        },
{
    let n = block.len();
    match pad {
        None => (n, n),
        Some(x) => {
            let mut p: usize = 0;
            while p < n && block[p] != x
                invariant
                    p <= n,
                    n == block@.len(),
                    forall|i: int| 0 <= i < p ==> block@[i] != x,
                decreases n - p,
            {
                p += 1;
            }
            proof {
                lemma_prefix_len_is(block@, not_byte(x), p as nat);
            }
            let mut t: usize = p;
            let ghost rest = block@.subrange(p as int, n as int);
            while t < n && block[t] == x
                invariant
                    p <= t <= n,
                    n == block@.len(),
                    rest == block@.subrange(p as int, n as int),
                    forall|i: int| 0 <= i < t - p ==> rest[i] == x,
                decreases n - t,
            {
                t += 1;
            }
            proof {
                lemma_prefix_len_is(rest, is_byte(x), (t - p) as nat);
            }
            (p, t)
        },
    }
}

/// Whether the bytes `bytes[n..d]` are all zero.
pub fn check_trail(bytes: &[u8], n: usize, d: usize) -> (ok: bool)
    requires
        n <= d <= bytes@.len(),
    ensures
        ok <==> bytes@.subrange(n as int, d as int) == repeat(0, (d - n) as nat),
{
    let mut i: usize = n;
    while i < d
        invariant
            n <= i <= d <= bytes@.len(),
            forall|j: int| n <= j < i ==> bytes@[j] == 0,
        decreases d - i,
    {
        if bytes[i] != 0 {
            proof {
                assert(bytes@.subrange(n as int, d as int)[i - n] != 0);
            }
            return false;
        }
        i += 1;
    }
    proof {
        assert(bytes@.subrange(n as int, d as int) =~= repeat(0, (d - n) as nat));
    }
    true
}

/// Decodes the symbols `data` of one block, short of symbols or not, and writes
/// the bytes to `output[at..]`. Returns how many bytes that gave, or the index
/// of the symbol that is wrong and what is wrong with it.
pub fn decode_mut(
    bit: usize,
    msb: bool,
    ctb: bool,
    val: &[u8; 128],
    data: &[u8],
    length_at: usize,
    output: &mut [u8],
    at: usize,
) -> (r: Result<usize, (usize, DecodeKind)>)
    requires
        valid_bit(bit as nat),
        0 < data@.len() <= enc_of(bit as nat),
        at + (data@.len() * bit) / 8 <= old(output)@.len(),
    ensures
        final(output)@.len() == old(output)@.len(),
        r is Ok <==> decode_data(bit as nat, msb, ctb, val@, data@, length_at as nat) is Ok,
        r matches Ok(n) ==> written_at(
            old(output)@,
            final(output)@,
            at as int,
            decode_data(bit as nat, msb, ctb, val@, data@, length_at as nat)->Ok_0,
        ) && n == decode_data(bit as nat, msb, ctb, val@, data@, length_at as nat)->Ok_0.len(),
        r matches Err(e) ==> final(output)@ == old(output)@ && decode_data(
            bit as nat,
            msb,
            ctb,
            val@,
            data@,
            length_at as nat,
        ) == Err::<Seq<u8>, (nat, DecodeKind)>((e.0 as nat, e.1)),
{
    let d = dec(bit);
    let e = enc(bit);
    let k = data.len();
    let total = output.len();
    let mut temp = [0u8; 8];
    proof {
        lemma_block_shape(bit as nat);
        assert(data@.subrange(0, k as int) =~= data@);
    }
    proof {
        lemma_prefix_len_holds(data@, symbol_pred(val@, bit as nat));
    }
    match decode_block(bit, msb, val, data, k, &mut temp) {
        Err(i) => {
            return Err((i, DecodeKind::Symbol));
        },
        Ok(()) => {},
    }
    let n = if k == e {
        proof {
            assert(values_of(val@, data@) + repeat(0, 0) =~= values_of(val@, data@));
            assert(k * bit == 8 * d) by (nonlinear_arith)
                requires
                    k == e,
                    bit * e == 8 * d,
            ;
        }
        d
    } else {
        assert(k * bit < 8 * d) by (nonlinear_arith)
            requires
                k < e,
                bit * e == 8 * d,
                bit >= 1,
        ;
        if (k * bit) % 8 >= bit {
            return Err((length_at, DecodeKind::Length));
        }
        let n = (k * bit) / 8;
        proof {
            assert(temp@.subrange(0, d as int).subrange(n as int, d as int) =~= temp@.subrange(
                n as int,
                d as int,
            ));
        }
        if ctb && !check_trail(&temp, n, d) {
            return Err((k - 1, DecodeKind::Trailing));
        }
        n
    };
    let ghost bytes = temp@.subrange(0, d as int);
    let mut i: usize = 0;
    while i < n
        invariant
            i <= n <= d <= 8,
            at + n <= total,
            total == output@.len(),
            output@.len() == old(output)@.len(),
            temp@.len() == 8,
            forall|j: int| at <= j < at + i ==> output@[j] == temp@[j - at],
            forall|j: int| 0 <= j < at || at + i <= j < total ==> output@[j] == old(output)@[j],
        decreases n - i,
    {
        output[at + i] = temp[i];
        i += 1;
    }
    proof {
        assert(output@.subrange(at as int, at + n) =~= bytes.subrange(0, n as int));
        if k == e {
            assert(bytes.subrange(0, n as int) =~= bytes);
        }
    }
    Ok(n)
}

/// Decodes the symbols `data` of one block: whole, or short of symbols as
/// [`decode_part`] says. Fails with `Symbol` at the first byte that is no symbol.
pub open spec fn decode_data(
    bit: nat,
    msb: bool,
    ctb: bool,
    val: Seq<u8>,
    data: Seq<u8>,
    length_at: nat,
) -> Result<Seq<u8>, (nat, DecodeKind)> {
    let bad = prefix_len(data, symbol_pred(val, bit));
    if bad < data.len() {
        Err((bad, DecodeKind::Symbol))
    } else if data.len() == enc_of(bit) {
        Ok(block_bytes(bit, msb, values_of(val, data)))
    } else {
        decode_part(bit, msb, ctb, val, data, length_at)
    }
}

/// Decodes one block of a text without padding, whose bytes are `block`, and
/// writes the bytes to `output[at..]`. Returns how many bytes that gave, or the
/// index of the byte that is wrong and what is wrong with it.
pub fn decode_base_mut(
    r: Rules,
    val: &[u8; 128],
    block: &[u8],
    output: &mut [u8],
    at: usize,
) -> (res: Result<usize, (usize, DecodeKind)>)
    requires
        valid_bit(r.bit as nat),
        r.pad is None,
        0 < block@.len() <= enc_of(r.bit as nat),
        at + (block@.len() * r.bit) / 8 <= old(output)@.len(),
    ensures
        final(output)@.len() == old(output)@.len(),
        res is Ok <==> decode_block_result(r, val@, block@) is Ok,
        res matches Ok(n) ==> written_at(
            old(output)@,
            final(output)@,
            at as int,
            decode_block_result(r, val@, block@)->Ok_0,
        ) && n == decode_block_result(r, val@, block@)->Ok_0.len(),
        res matches Err(e) ==> final(output)@ == old(output)@ && decode_block_result(
            r,
            val@,
            block@,
        ) == Err::<Seq<u8>, (nat, DecodeKind)>((e.0 as nat, e.1)),
{
    let k = block.len();
    proof {
        lemma_block_shape(r.bit as nat);
        assert(block@.subrange(0, k as int) =~= block@);
        lemma_prefix_len_holds(block@, symbol_pred(val@, r.bit as nat));
    }
    assert(k * r.bit <= 64) by (nonlinear_arith)
        requires
            k <= 8,
            r.bit <= 6,
    ;
    proof {
        let kb = (k * r.bit) as int;
        vstd::arithmetic::div_mod::lemma_div_is_ordered(kb % 8, kb, r.bit as int);
        vstd::arithmetic::div_mod::lemma_div_multiples_vanish(k as int, r.bit as int);
        assert(r.bit * k == k * r.bit) by (nonlinear_arith);
    }
    let length_at = k - ((k * r.bit) % 8) / r.bit;
    decode_mut(r.bit, r.msb, r.ctb, val, block, length_at, output, at)
}

/// Decodes one block of a text with padding, whose bytes are `block`, and writes
/// the bytes to `output[at..]`. Returns how many bytes that gave, or the index of
/// the byte that is wrong and what is wrong with it.
pub fn decode_pad_mut(
    r: Rules,
    val: &[u8; 128],
    block: &[u8],
    output: &mut [u8],
    at: usize,
) -> (res: Result<usize, (usize, DecodeKind)>)
    requires
        valid_bit(r.bit as nat),
        r.pad is Some,
        0 < block@.len() <= enc_of(r.bit as nat),
        block@.len() == enc_of(r.bit as nat) ==> at + dec_of(r.bit as nat) <= old(output)@.len(),
    ensures
        final(output)@.len() == old(output)@.len(),
        res is Ok <==> decode_block_result(r, val@, block@) is Ok,
        res matches Ok(n) ==> written_at(
            old(output)@,
            final(output)@,
            at as int,
            decode_block_result(r, val@, block@)->Ok_0,
        ) && n == decode_block_result(r, val@, block@)->Ok_0.len(),
        res matches Err(e) ==> final(output)@ == old(output)@ && decode_block_result(
            r,
            val@,
            block@,
        ) == Err::<Seq<u8>, (nat, DecodeKind)>((e.0 as nat, e.1)),
{
    let e = enc(r.bit);
    let k = block.len();
    let (p, tail) = check_pad(r.pad, block);
    let data = &block[0..p];
    let ghost pred = symbol_pred(val@, r.bit as nat);
    proof {
        lemma_block_shape(r.bit as nat);
    }
    // The first byte of the data that is no symbol.
    let mut bad: usize = 0;
    let radix = radix(r.bit);
    while bad < p && data[bad] < 128 && (val[data[bad] as usize] as u64) < radix
        invariant
            bad <= p,
            p == data@.len(),
            radix == radix_of(r.bit as nat),
            pred == symbol_pred(val@, r.bit as nat),
            forall|i: int| 0 <= i < bad ==> pred(data@[i]),
        decreases p - bad,
    {
        bad += 1;
    }
    proof {
        lemma_prefix_len_is(data@, pred, bad as nat);
    }
    if bad < p {
        return Err((bad, DecodeKind::Symbol));
    }
    if tail < k {
        return Err((tail, DecodeKind::Padding));
    }
    if k < e {
        return Err((0, DecodeKind::Length));
    }
    if p == 0 {
        return Err((0, DecodeKind::Padding));
    }
    proof {
        assert(p * r.bit <= 8 * dec_of(r.bit as nat)) by (nonlinear_arith)
            requires
                p <= e,
                r.bit * e == 8 * dec_of(r.bit as nat),
                r.bit >= 1,
        ;
    }
    decode_mut(r.bit, r.msb, r.ctb, val, data, p, output, at)
}

/// The start of the decoding is the decoding.
pub open spec fn decode_spec(r: Rules, val: Seq<u8>, input: Seq<u8>) -> Outcome {
    decode_from(r, val, input, 0, Seq::empty())
}

/// A block gives no more bytes than its symbols have bits for, and fails at one
/// of its bytes.
pub proof fn lemma_block_result_len(r: Rules, val: Seq<u8>, block: Seq<u8>)
    requires
        valid_bit(r.bit as nat),
        0 < block.len() <= enc_of(r.bit as nat),
    ensures
        decode_block_result(r, val, block) matches Ok(bytes) ==> bytes.len() == (data_len(
            r.pad,
            block,
        ) * r.bit) / 8 && bytes.len() * 8 <= block.len() * r.bit && bytes.len() <= dec_of(
            r.bit as nat,
        ),
        decode_block_result(r, val, block) matches Err(e) ==> e.0 < block.len(),
        data_len(r.pad, block) <= block.len(),
{
    let bit = r.bit as nat;
    let e = enc_of(bit);
    let d = dec_of(bit);
    lemma_block_shape(bit);
    let p = data_len(r.pad, block);
    match r.pad {
        None => {},
        Some(x) => {
            lemma_prefix_len_holds(block, not_byte(x));
            lemma_prefix_len_holds(block.subrange(p as int, block.len() as int), is_byte(x));
        },
    }
    let data = block.subrange(0, p as int);
    lemma_prefix_len_holds(data, symbol_pred(val, bit));
    let values = values_of(val, data) + repeat(0, (e - p) as nat);
    lemma_be_digits_len(values_number(bit, r.msb, values), 256, d);
    lemma_be_digits_len(values_number(bit, r.msb, values_of(val, data)), 256, d);
    let pb = p * bit;
    assert(pb <= block.len() * bit) by (nonlinear_arith)
        requires
            pb == p * bit,
            p <= block.len(),
    ;
    assert(pb <= 8 * d) by (nonlinear_arith)
        requires
            pb == p * bit,
            p <= e,
            bit * e == 8 * d,
    ;
    if p == e {
        assert(pb == 8 * d) by (nonlinear_arith)
            requires
                pb == p * bit,
                p == e,
                bit * e == 8 * d,
        ;
    }
    if pb % 8 >= bit {
        vstd::arithmetic::div_mod::lemma_div_is_ordered(bit as int, (pb % 8) as int, bit as int);
        vstd::arithmetic::div_mod::lemma_div_by_self(bit as int);
        vstd::arithmetic::div_mod::lemma_div_is_ordered((pb % 8) as int, pb as int, bit as int);
        vstd::arithmetic::div_mod::lemma_div_multiples_vanish(p as int, bit as int);
        assert(bit * p == pb) by (nonlinear_arith)
            requires
                pb == p * bit,
        ;
    }
}

/// Where nothing is left but bytes to skip, the decoding is done.
pub proof fn lemma_decode_end(r: Rules, val: Seq<u8>, input: Seq<u8>, from: int, acc: Seq<u8>)
    requires
        gather(val, r.ignore, input, from, enc_of(r.bit as nat)).len() == 0,
    ensures
        decode_from(r, val, input, from, acc) == (Outcome { bytes: acc, failure: None }),
{
    reveal(decode_from);
}

/// Where the next block fails, the decoding fails.
pub proof fn lemma_decode_err(
    r: Rules,
    val: Seq<u8>,
    input: Seq<u8>,
    from: int,
    acc: Seq<u8>,
    i: nat,
    kind: DecodeKind,
)
    requires
        0 <= from <= input.len(),
        gather(val, r.ignore, input, from, enc_of(r.bit as nat)).len() > 0,
        decode_block_result(
            r,
            val,
            bytes_at(input, gather(val, r.ignore, input, from, enc_of(r.bit as nat))),
        ) == Err::<Seq<u8>, (nat, DecodeKind)>((i, kind)),
    ensures
        decode_from(r, val, input, from, acc) == (Outcome {
            bytes: acc,
            failure: Some(
                DecodePartial {
                    read: gather(val, r.ignore, input, from, enc_of(r.bit as nat))[0] as usize,
                    written: acc.len() as usize,
                    error: DecodeError {
                        position: gather(
                            val,
                            r.ignore,
                            input,
                            from,
                            enc_of(r.bit as nat),
                        )[i as int] as usize,
                        kind,
                    },
                },
            ),
        }),
{
    reveal(decode_from);
}

/// Where the next block gives bytes, the decoding goes on behind it, or ends with
/// it where it is the last.
pub proof fn lemma_decode_ok(
    r: Rules,
    val: Seq<u8>,
    input: Seq<u8>,
    from: int,
    acc: Seq<u8>,
    bytes: Seq<u8>,
)
    requires
        0 <= from <= input.len(),
        gather(val, r.ignore, input, from, enc_of(r.bit as nat)).len() > 0,
        decode_block_result(
            r,
            val,
            bytes_at(input, gather(val, r.ignore, input, from, enc_of(r.bit as nat))),
        ) == Ok::<Seq<u8>, (nat, DecodeKind)>(bytes),
    ensures
        ({
            let e = enc_of(r.bit as nat);
            let pos = gather(val, r.ignore, input, from, e);
            let next = pos.last() + 1;
            let out = acc + bytes;
            let q = next_sig(val, r.ignore, input, next);
            decode_from(r, val, input, from, acc) == if pos.len() < e {
                Outcome { bytes: out, failure: None }
            } else if r.pad_final && data_len(r.pad, bytes_at(input, pos)) < e {
                if q < input.len() {
                    Outcome {
                        bytes: out,
                        failure: Some(
                            DecodePartial {
                                read: q as usize,
                                written: out.len() as usize,
                                error: DecodeError {
                                    position: q as usize,
                                    kind: DecodeKind::Padding,
                                },
                            },
                        ),
                    }
                } else {
                    Outcome { bytes: out, failure: None }
                }
            } else {
                decode_from(r, val, input, next, out)
            }
        }),
{
    reveal(decode_from);
}

/// Decodes `input` to the front of `output` and returns how many bytes it gave.
/// On a failure the bytes that were decoded before it stand in `output`.
#[verifier::rlimit(40)]
pub fn decode_wrap_mut(r: Rules, val: &[u8; 128], input: &[u8], output: &mut [u8]) -> (res:
    Result<usize, DecodePartial>)
    requires
        valid_bit(r.bit as nat),
        decode_room(r.bit as nat, r.pad is Some, input@.len()) <= old(output)@.len(),
    ensures
        match decode_spec(r, val@, input@).failure {
            None => res == Ok::<usize, DecodePartial>(
                decode_spec(r, val@, input@).bytes.len() as usize,
            ),
            Some(f) => res == Err::<usize, DecodePartial>(f),
        },
        written_at(old(output)@, final(output)@, 0, decode_spec(r, val@, input@).bytes),
{
    let e = enc(r.bit);
    let n = input.len();
    let total = output.len();
    let ghost bit = r.bit as nat;
    let ghost padded = r.pad is Some;
    let mut from: usize = 0;
    let mut written: usize = 0;
    let mut block = [0u8; 8];
    let mut positions = [0usize; 8];
    proof {
        lemma_block_shape(bit);
        assert(output@.subrange(0, 0) =~= Seq::<u8>::empty());
        lemma_room_zero(bit, padded);
    }
    if r.msb && (r.bit == 4 || r.bit == 6) {
        proof {
            lemma_room_padded(bit, n as nat);
        }
        from = decode_wide(r.bit, val, r.pad, input, output);
        written = from / e * dec(r.bit);
        proof {
            lemma_decode_run(r, val@, input@, from as nat);
            lemma_room_padded(bit, from as nat);
            lemma_room_monotonic(bit, padded, from as nat, n as nat);
            assert(output@.subrange(0, written as int) =~= blocks_bytes(
                bit,
                val@,
                input@.subrange(0, from as int),
            ));
        }
    }
    loop
        invariant
            valid_bit(bit),
            bit == r.bit,
            padded == (r.pad is Some),
            e == enc_of(bit),
            n == input@.len(),
            total == output@.len(),
            output@.len() == old(output)@.len(),
            from <= n,
            written <= total,
            written <= decode_room(bit, padded, from as nat),
            decode_room(bit, padded, n as nat) <= total,
            forall|j: int| written <= j < total ==> output@[j] == old(output)@[j],
            decode_spec(r, val@, input@) == decode_from(
                r,
                val@,
                input@,
                from as int,
                output@.subrange(0, written as int),
            ),
        decreases n - from,
    {
        let ghost acc = output@.subrange(0, written as int);
        let ghost pos = gather(val@, r.ignore, input@, from as int, e as nat);
        let got = decode_wrap_block(val, r.ignore, input, from, e, &mut block, &mut positions);
        proof {
            lemma_gather(val@, r.ignore, input@, from as int, e as nat);
        }
        if got == 0 {
            proof {
                lemma_decode_end(r, val@, input@, from as int, acc);
            }
            return Ok(written);
        }
        let next = positions[got - 1] + 1;
        let first = positions[0];
        let gathered = &block[0..got];
        proof {
            assert(gathered@ =~= bytes_at(input@, pos));
            lemma_block_result_len(r, val@, gathered@);
            lemma_room_step(bit, padded, from as nat, next as nat, n as nat, got as nat);
        }
        let ghost before = output@;
        let step = match r.pad {
            None => decode_base_mut(r, val, gathered, output, written),
            Some(_) => decode_pad_mut(r, val, gathered, output, written),
        };
        match step {
            Err((i, kind)) => {
                proof {
                    lemma_decode_err(r, val@, input@, from as int, acc, i as nat, kind);
                }
                return Err(
                    DecodePartial {
                        read: first,
                        written,
                        error: DecodeError { position: positions[i], kind },
                    },
                );
            },
            Ok(m) => {
                let ghost bytes = decode_block_result(r, val@, gathered@)->Ok_0;
                proof {
                    lemma_decode_ok(r, val@, input@, from as int, acc, bytes);
                    assert(output@.subrange(0, written + m) =~= acc + bytes);
                    assert forall|j: int| written + m <= j < total implies output@[j] == old(
                        output,
                    )@[j] by {
                        assert(output@[j] == before[j]);
                    }
                }
                written += m;
                if got < e {
                    return Ok(written);
                }
                if r.pad_final && check_pad(r.pad, gathered).0 < e {
                    let q = skip_ignore(val, r.ignore, input, next);
                    if q < n {
                        return Err(
                            DecodePartial {
                                read: q,
                                written,
                                error: DecodeError { position: q, kind: DecodeKind::Padding },
                            },
                        );
                    }
                    return Ok(written);
                }
                from = next;
            },
        }
    }
}

/// No text, no bytes.
proof fn lemma_room_zero(bit: nat, padded: bool)
    requires
        valid_bit(bit),
    ensures
        decode_room(bit, padded, 0) == 0,
{
    lemma_block_shape(bit);
    vstd::arithmetic::div_mod::lemma_basic_div(0, enc_of(bit) as int);
    assert(0 * dec_of(bit) == 0) by (nonlinear_arith);
    assert(0 * bit == 0) by (nonlinear_arith);
}

/// The room that the bytes of one more block need is there.
proof fn lemma_room_step(bit: nat, padded: bool, from: nat, next: nat, n: nat, got: nat)
    requires
        valid_bit(bit),
        0 < got <= enc_of(bit),
        from + got <= next <= n,
    ensures
        decode_room(bit, padded, from) + (got * bit) / 8 <= decode_room(bit, false, next),
        got == enc_of(bit) ==> decode_room(bit, padded, from) + dec_of(bit) <= decode_room(
            bit,
            padded,
            next,
        ),
        decode_room(bit, padded, next) <= decode_room(bit, padded, n),
        decode_room(bit, padded, from) <= decode_room(bit, false, from),
{
    let e = enc_of(bit);
    let d = dec_of(bit);
    lemma_block_shape(bit);
    lemma_room_monotonic(bit, padded, next, n);
    lemma_room_monotonic(bit, padded, from + got, next);
    lemma_room_monotonic(bit, false, from + got, next);
    lemma_room_padded(bit, from);
    lemma_room_padded(bit, next);
    assert((from + got) * bit == from * bit + got * bit) by (nonlinear_arith);
    if got == e {
        assert(got * bit == 8 * d) by (nonlinear_arith)
            requires
                got == e,
                bit * e == 8 * d,
        ;
        vstd::arithmetic::div_mod::lemma_hoist_over_denominator(from as int, 1, e);
        let qf = from / e;
        assert((qf + 1) * d == qf * d + d) by (nonlinear_arith);
    }
}

/// Whole blocks give no more bytes than the same symbols give without padding.
proof fn lemma_room_padded(bit: nat, n: nat)
    requires
        valid_bit(bit),
    ensures
        decode_room(bit, true, n) <= decode_room(bit, false, n),
{
    let e = enc_of(bit);
    let d = dec_of(bit);
    lemma_block_shape(bit);
    vstd::arithmetic::div_mod::lemma_fundamental_div_mod(n as int, e as int);
    let q = n / e;
    assert(n * bit >= 8 * (q * d)) by (nonlinear_arith)
        requires
            n == e * q + n % e,
            n % e >= 0,
            bit * e == 8 * d,
            bit >= 1,
    ;
}

/// A longer text has room for no fewer bytes.
pub proof fn lemma_room_monotonic(bit: nat, padded: bool, a: nat, b: nat)
    requires
        valid_bit(bit),
        a <= b,
    ensures
        decode_room(bit, padded, a) <= decode_room(bit, padded, b),
{
    let e = enc_of(bit);
    let d = dec_of(bit);
    lemma_block_shape(bit);
    vstd::arithmetic::div_mod::lemma_div_is_ordered(a as int, b as int, e as int);
    let qa = a / e;
    let qb = b / e;
    assert(qa * d <= qb * d) by (nonlinear_arith)
        requires
            qa <= qb,
    ;
    assert(a * bit <= b * bit) by (nonlinear_arith)
        requires
            a <= b,
    ;
    vstd::arithmetic::div_mod::lemma_div_is_ordered((a * bit) as int, (b * bit) as int, 8);
}

/// The greatest length that is not above `n` and that a text can have: whole
/// blocks where there is a padding, else no symbol that holds no bit of a byte.
pub open spec fn valid_len(bit: nat, padded: bool, n: nat) -> nat {
    if padded {
        (n - n % enc_of(bit)) as nat
    } else {
        (n - ((n * bit) % 8) / bit) as nat
    }
}

/// The bits of a text: those of its whole blocks and those of the rest.
pub proof fn lemma_text_bits(bit: nat, n: nat)
    requires
        valid_bit(bit),
    ensures
        (n * bit) / 8 == (n / enc_of(bit)) * dec_of(bit) + ((n % enc_of(bit)) * bit) / 8,
        (n * bit) % 8 == ((n % enc_of(bit)) * bit) % 8,
        ((n * bit) % 8) / bit <= n % enc_of(bit),
        (n % enc_of(bit)) * bit < 64,
{
    let e = enc_of(bit);
    let d = dec_of(bit);
    lemma_block_shape(bit);
    vstd::arithmetic::div_mod::lemma_fundamental_div_mod(n as int, e as int);
    let q = n / e;
    let m = n % e;
    let mb = m * bit;
    assert(n * bit == 8 * (q * d) + mb) by (nonlinear_arith)
        requires
            n == e * q + m,
            bit * e == 8 * d,
            mb == m * bit,
    ;
    vstd::arithmetic::div_mod::lemma_fundamental_div_mod(mb as int, 8);
    vstd::arithmetic::div_mod::lemma_fundamental_div_mod_converse(
        (n * bit) as int,
        8,
        (q * d + mb / 8) as int,
        (mb % 8) as int,
    );
    assert(mb < 64) by (nonlinear_arith)
        requires
            mb == m * bit,
            m < 8,
            bit <= 6,
    ;
    vstd::arithmetic::div_mod::lemma_div_is_ordered((mb % 8) as int, mb as int, bit as int);
    vstd::arithmetic::div_mod::lemma_div_multiples_vanish(m as int, bit as int);
    assert(bit * m == mb) by (nonlinear_arith)
        requires
            mb == m * bit,
    ;
}

/// How many bytes a text of `len` symbols gives where its last block is not
/// filled up.
pub fn decode_base_len(bit: usize, len: usize) -> (r: usize)
    requires
        valid_bit(bit as nat),
    ensures
        r == decode_room(bit as nat, false, len as nat),
        r <= len,
{
    let e = enc(bit);
    let d = dec(bit);
    proof {
        lemma_block_shape(bit as nat);
        lemma_text_bits(bit as nat, len as nat);
        let q = len / e;
        let m = len % e;
        assert(q * d <= q * e) by (nonlinear_arith)
            requires
                d <= e,
        ;
        assert(m * bit <= 8 * m) by (nonlinear_arith)
            requires
                bit <= 8,
        ;
        vstd::arithmetic::div_mod::lemma_fundamental_div_mod(len as int, e as int);
        assert(e * q == q * e) by (nonlinear_arith);
    }
    len / e * d + (len % e * bit) / 8
}

/// How many bytes a text of `len` symbols gives, or nothing where there is a
/// padding and the text is not made of whole blocks.
pub fn decode_pad_len(bit: usize, padded: bool, len: usize) -> (r: Option<usize>)
    requires
        valid_bit(bit as nat),
    ensures
        r is Some <==> !padded || len as nat % enc_of(bit as nat) == 0,
        r matches Some(n) ==> n == decode_room(bit as nat, padded, len as nat),
{
    if padded {
        let e = enc(bit);
        let d = dec(bit);
        proof {
            lemma_block_shape(bit as nat);
            let q = len / e;
            assert(q * d <= q * e) by (nonlinear_arith)
                requires
                    d <= e,
            ;
            vstd::arithmetic::div_mod::lemma_fundamental_div_mod(len as int, e as int);
            assert(e * q == q * e) by (nonlinear_arith);
        }
        if len % e != 0 {
            None
        } else {
            Some(len / e * d)
        }
    } else {
        Some(decode_base_len(bit, len))
    }
}

/// The greatest length that is not above `len` and that a text can have, and how
/// many bytes a text of `len` symbols gives at most.
pub fn decode_wrap_len(bit: usize, padded: bool, len: usize) -> (r: (usize, usize))
    requires
        valid_bit(bit as nat),
    ensures
        r.0 == valid_len(bit as nat, padded, len as nat),
        r.1 == decode_room(bit as nat, padded, len as nat),
        r.0 <= len,
        r.1 <= len,
{
    let e = enc(bit);
    let d = dec(bit);
    proof {
        lemma_block_shape(bit as nat);
        lemma_text_bits(bit as nat, len as nat);
        let q = len / e;
        assert(q * d <= q * e) by (nonlinear_arith)
            requires
                d <= e,
        ;
        vstd::arithmetic::div_mod::lemma_fundamental_div_mod(len as int, e as int);
        assert(e * q == q * e) by (nonlinear_arith);
    }
    if padded {
        (floor(len, e), len / e * d)
    } else {
        let trail = (len % e * bit) % 8;
        (len - trail / bit, decode_base_len(bit, len))
    }
}

/// A text of ASCII symbols, padding and separator is ASCII.
pub proof fn lemma_encode_wrap_ascii(
    bit: nat,
    msb: bool,
    sym: Seq<u8>,
    pad: Option<u8>,
    wrap: Option<(nat, Seq<u8>)>,
    input: Seq<u8>,
)
    requires
        valid_bit(bit),
        sym.len() == 256,
        crate::text::is_ascii(sym),
        pad matches Some(p) ==> p < 128,
        wrap matches Some((_, sep)) ==> crate::text::is_ascii(sep),
    ensures
        crate::text::is_ascii(encode_wrap_spec(bit, msb, sym, pad, wrap, input)),
{
    lemma_encode_base_ascii(bit, msb, sym, input);
    let symbols = encode_pad_spec(bit, msb, sym, pad, input);
    assert(crate::text::is_ascii(symbols)) by {
        let base = encode_base_spec(bit, msb, sym, input);
        assert forall|i: int| 0 <= i < symbols.len() implies #[trigger] symbols[i] < 128 by {
            if i < base.len() {
                assert(base[i] < 128);
            }
        }
    }
    match wrap {
        None => {},
        Some((width, sep)) => {
            lemma_wrap_ascii(symbols, width, sep);
        },
    }
}

proof fn lemma_encode_base_ascii(bit: nat, msb: bool, sym: Seq<u8>, input: Seq<u8>)
    requires
        valid_bit(bit),
        sym.len() == 256,
        crate::text::is_ascii(sym),
    ensures
        crate::text::is_ascii(encode_base_spec(bit, msb, sym, input)),
    decreases input.len(),
{
    let d = dec_of(bit);
    lemma_block_shape(bit);
    let out = encode_base_spec(bit, msb, sym, input);
    if input.len() == 0 {
    } else if input.len() >= d {
        let rest = input.subrange(d as int, input.len() as int);
        lemma_encode_base_ascii(bit, msb, sym, rest);
        let blk = block_symbols(bit, msb, sym, input.subrange(0, d as int));
        let tail = encode_base_spec(bit, msb, sym, rest);
        assert forall|i: int| 0 <= i < out.len() implies #[trigger] out[i] < 128 by {
            if i < blk.len() {
                assert(out[i] == blk[i]);
                let v = block_values(bit, msb, input.subrange(0, d as int))[i];
                assert(sym[v as int] < 128);
            } else {
                assert(out[i] == tail[i - blk.len()]);
                assert(tail[i - blk.len()] < 128);
            }
        }
    } else {
        lemma_base_len_small(bit, input.len());
        let blk = block_symbols(bit, msb, sym, input);
        assert forall|i: int| 0 <= i < out.len() implies #[trigger] out[i] < 128 by {
            assert(out[i] == blk[i]);
            let v = block_values(bit, msb, input)[i];
            assert(sym[v as int] < 128);
        }
    }
}

proof fn lemma_wrap_ascii(symbols: Seq<u8>, width: nat, sep: Seq<u8>)
    requires
        crate::text::is_ascii(symbols),
        crate::text::is_ascii(sep),
    ensures
        crate::text::is_ascii(wrap_spec(symbols, width, sep)),
    decreases symbols.len(),
{
    let out = wrap_spec(symbols, width, sep);
    if symbols.len() == 0 || width == 0 {
    } else if symbols.len() <= width {
        assert forall|i: int| 0 <= i < out.len() implies #[trigger] out[i] < 128 by {
            if i < symbols.len() {
                assert(symbols[i] < 128);
            } else {
                assert(sep[i - symbols.len()] < 128);
            }
        }
    } else {
        let rest = symbols.subrange(width as int, symbols.len() as int);
        assert(crate::text::is_ascii(rest)) by {
            assert forall|i: int| 0 <= i < rest.len() implies #[trigger] rest[i] < 128 by {
                assert(symbols[i + width] < 128);
            }
        }
        lemma_wrap_ascii(rest, width, sep);
        let tail = wrap_spec(rest, width, sep);
        assert forall|i: int| 0 <= i < out.len() implies #[trigger] out[i] < 128 by {
            if i < width {
                assert(symbols[i] < 128);
            } else if i < width + sep.len() {
                assert(sep[i - width] < 128);
            } else {
                assert(out[i] == tail[i - width - sep.len()]);
                assert(tail[i - width - sep.len()] < 128);
            }
        }
    }
}

} // verus!
