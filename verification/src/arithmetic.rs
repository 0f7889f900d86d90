//! The arithmetic codec: an alphabet of any size from 2 to 255.
//!
//! The input bytes are one number, most significant byte first, and the text is
//! that number in the radix of the alphabet. Zero bytes in front of the number
//! would be lost that way, so each of them is written as one copy of the
//! alphabet's first symbol, in front of the digits.
use crate::bigint::{BigUint, BigUintView, lemma_limbs_value_bound, lemma_minimal_bytes, limb_radix};
use crate::error::{DecodeError, DecodeKind, EncodeError, EncodeKind};
use crate::radix::{
    be_value, count_leading, digits_below, lemma_be_value_bound, lemma_be_value_concat,
    lemma_be_value_push, lemma_count_leading_holds, lemma_count_leading_is,
    lemma_min_be_digits_below, lemma_min_be_digits_len_bound, lemma_min_be_digits_value,
    lemma_pow_base_monotonic, lemma_pow_monotonic, lemma_pow_mul, lemma_pow_positive, min_be_digits,
    pow, repeat,
};
use crate::text::{ascii_chars, ascii_string, is_ascii};
use vstd::arithmetic::div_mod::{lemma_fundamental_div_mod, lemma_fundamental_div_mod_converse};
use vstd::prelude::*;

verus! {

/// How many limbs the big integer of the buffer functions has: 512 bytes.
pub const MAX_BIGINT_BUFFER: usize = 128;

/// The digit that the byte `c` stands for: the last place where it occurs in the
/// alphabet, or -1 where it does not occur.
pub open spec fn digit_of(alphabet: Seq<u8>, c: u8) -> int
    decreases alphabet.len(),
{
    if alphabet.len() == 0 {
        -1
    } else if alphabet.last() == c {
        alphabet.len() - 1
    } else {
        digit_of(alphabet.drop_last(), c)
    }
}

/// The symbols of a digit string.
pub open spec fn symbols_of(alphabet: Seq<u8>, digits: Seq<u8>) -> Seq<u8> {
    Seq::new(digits.len(), |i: int| alphabet[digits[i] as int])
}

/// The digits of a text. Only meaningful where every byte is a symbol.
pub open spec fn digits_of(alphabet: Seq<u8>, text: Seq<u8>) -> Seq<u8> {
    Seq::new(text.len(), |i: int| digit_of(alphabet, text[i]) as u8)
}

/// How many bytes at the front of `text` are symbols of the alphabet.
pub open spec fn mapped_prefix(alphabet: Seq<u8>, text: Seq<u8>) -> nat
    decreases text.len(),
{
    if text.len() == 0 || digit_of(alphabet, text[0]) < 0 {
        0
    } else {
        1 + mapped_prefix(alphabet, text.drop_first())
    }
}

/// The text of `input`: one first symbol for each zero byte at the front, then
/// the digits of the number, most significant first.
pub open spec fn encoded(alphabet: Seq<u8>, input: Seq<u8>) -> Seq<u8> {
    repeat(alphabet[0], count_leading(input, 0)) + symbols_of(
        alphabet,
        min_be_digits(be_value(input, 256), alphabet.len()),
    )
}

/// The bytes of `text`, all of whose bytes are symbols: one zero byte for each
/// first symbol at the front, then the bytes of the number, most significant first.
pub open spec fn decoded(alphabet: Seq<u8>, text: Seq<u8>) -> Seq<u8> {
    repeat(0, count_leading(text, alphabet[0])) + min_be_digits(
        be_value(digits_of(alphabet, text), alphabet.len()),
        256,
    )
}

/// What decoding `text` gives with a big integer of `limbs` limbs. The text is
/// read from the front: it fails with `Overflow` as soon as the number read so far
/// does not fit, and with `Symbol` at the first byte that is no symbol.
pub open spec fn decode_result(alphabet: Seq<u8>, text: Seq<u8>, limbs: nat) -> Result<
    Seq<u8>,
    DecodeError,
> {
    let j = mapped_prefix(alphabet, text);
    let v = be_value(digits_of(alphabet, text.subrange(0, j as int)), alphabet.len());
    if v >= pow(limb_radix(), limbs) {
        Err(DecodeError { position: 0, kind: DecodeKind::Overflow })
    } else if j < text.len() {
        Err(DecodeError { position: j as usize, kind: DecodeKind::Symbol })
    } else {
        Ok(decoded(alphabet, text))
    }
}

/// What a buffer that held `before` holds after `input` was encoded into it: the
/// text in front where it fits; where it does not, the symbols of the least
/// significant digits, the least significant first, as far as there is room.
pub open spec fn digits_output(alphabet: Seq<u8>, input: Seq<u8>, before: Seq<u8>) -> Seq<u8> {
    let text = encoded(alphabet, input);
    let digits = symbols_of(alphabet, min_be_digits(be_value(input, 256), alphabet.len()));
    if text.len() <= before.len() {
        text + before.subrange(text.len() as int, before.len() as int)
    } else {
        Seq::new(
            before.len(),
            |i: int|
                if i < digits.len() {
                    digits[digits.len() - 1 - i]
                } else {
                    before[i]
                },
        )
    }
}

/// What a buffer that held `before` holds after `input` was encoded into it with
/// a big integer of 128 limbs: what it held where the input is too large for
/// that, and else what [`digits_output`] says.
pub open spec fn encode_output(alphabet: Seq<u8>, input: Seq<u8>, before: Seq<u8>) -> Seq<u8> {
    if input.len() > 4 * MAX_BIGINT_BUFFER {
        before
    } else {
        digits_output(alphabet, input, before)
    }
}

/// What a buffer that held `before` holds after `text` was decoded into it: the
/// bytes in front where they fit; where they do not, the bytes of the number
/// alone in front where those fit; and else what it held.
pub open spec fn decode_output(alphabet: Seq<u8>, text: Seq<u8>, before: Seq<u8>) -> Seq<u8> {
    let number = min_be_digits(be_value(digits_of(alphabet, text), alphabet.len()), 256);
    match decode_result(alphabet, text, MAX_BIGINT_BUFFER as nat) {
        Err(_) => before,
        Ok(bytes) => if bytes.len() <= before.len() {
            bytes + before.subrange(bytes.len() as int, before.len() as int)
        } else if number.len() <= before.len() {
            number + before.subrange(number.len() as int, before.len() as int)
        } else {
            before
        },
    }
}

/// The digit of a byte is a place in the alphabet, and the byte stands there.
pub proof fn lemma_digit_of_range(alphabet: Seq<u8>, c: u8)
    ensures
        -1 <= digit_of(alphabet, c) < alphabet.len(),
        digit_of(alphabet, c) >= 0 ==> alphabet[digit_of(alphabet, c)] == c,
    decreases alphabet.len(),
{
    if alphabet.len() > 0 && alphabet.last() != c {
        lemma_digit_of_range(alphabet.drop_last(), c);
    }
}

/// In an alphabet without repetition each symbol stands for its own place.
pub proof fn lemma_digit_of_symbol(alphabet: Seq<u8>, i: int)
    requires
        0 <= i < alphabet.len(),
        forall|a: int, b: int| 0 <= a < b < alphabet.len() ==> alphabet[a] != alphabet[b],
    ensures
        digit_of(alphabet, alphabet[i]) == i,
    decreases alphabet.len(),
{
    if i < alphabet.len() - 1 {
        lemma_digit_of_symbol(alphabet.drop_last(), i);
    }
}

/// What `mapped_prefix` counts: `z` symbols, then the end or a byte that is none.
pub proof fn lemma_mapped_prefix_is(alphabet: Seq<u8>, text: Seq<u8>, z: nat)
    requires
        z <= text.len(),
        forall|i: int| 0 <= i < z ==> digit_of(alphabet, text[i]) >= 0,
        z == text.len() || digit_of(alphabet, text[z as int]) < 0,
    ensures
        mapped_prefix(alphabet, text) == z,
    decreases text.len(),
{
    if z > 0 {
        let t = text.drop_first();
        assert forall|i: int| 0 <= i < z - 1 implies digit_of(alphabet, t[i]) >= 0 by {
            assert(t[i] == text[i + 1]);
        }
        if z < text.len() {
            assert(t[z - 1] == text[z as int]);
        }
        lemma_mapped_prefix_is(alphabet, t, (z - 1) as nat);
    }
}

/// The converse: what holds of the count.
pub proof fn lemma_mapped_prefix_holds(alphabet: Seq<u8>, text: Seq<u8>)
    ensures
        mapped_prefix(alphabet, text) <= text.len(),
        forall|i: int|
            0 <= i < mapped_prefix(alphabet, text) ==> digit_of(alphabet, text[i]) >= 0,
        mapped_prefix(alphabet, text) == text.len() || digit_of(
            alphabet,
            text[mapped_prefix(alphabet, text) as int],
        ) < 0,
    decreases text.len(),
{
    if text.len() > 0 && digit_of(alphabet, text[0]) >= 0 {
        let t = text.drop_first();
        lemma_mapped_prefix_holds(alphabet, t);
        let z = mapped_prefix(alphabet, text);
        assert forall|i: int| 0 <= i < z implies digit_of(alphabet, text[i]) >= 0 by {
            if i > 0 {
                assert(t[i - 1] == text[i]);
            }
        }
        if z < text.len() {
            assert(t[z - 1] == text[z as int]);
        }
    }
}

/// The digits of a text whose bytes are all symbols are digits of the radix.
pub proof fn lemma_digits_of_below(alphabet: Seq<u8>, text: Seq<u8>)
    requires
        alphabet.len() <= 255,
        forall|i: int| 0 <= i < text.len() ==> digit_of(alphabet, text[i]) >= 0,
    ensures
        digits_below(digits_of(alphabet, text), alphabet.len()),
{
    let d = digits_of(alphabet, text);
    assert forall|i: int| 0 <= i < d.len() implies (#[trigger] d[i] as nat) < alphabet.len() by {
        lemma_digit_of_range(alphabet, text[i]);
    }
}

/// One step of taking a number apart: below a multiple of a power of the radix,
/// the last digit is that of the remainder.
proof fn lemma_peel(q: nat, b: nat, k: nat, rem: nat)
    requires
        b >= 2,
        k >= 1,
        rem < pow(b, k),
    ensures
        (q * pow(b, k) + rem) % b == rem % b,
        (q * pow(b, k) + rem) / b == q * pow(b, (k - 1) as nat) + rem / b,
        rem / b < pow(b, (k - 1) as nat),
{
    let lower = pow(b, (k - 1) as nat);
    let a = q * lower;
    let t = q * pow(b, k) + rem;
    lemma_fundamental_div_mod(rem as int, b as int);
    assert(pow(b, k) == b * lower);
    assert(q * (b * lower) == (q * lower) * b) by (nonlinear_arith);
    assert((a + rem / b) * b == a * b + b * (rem / b)) by (nonlinear_arith);
    lemma_fundamental_div_mod_converse(t as int, b as int, (a + rem / b) as int, (rem % b) as int);
    assert(rem / b < lower) by (nonlinear_arith)
        requires
            rem < b * lower,
            rem == b * (rem / b) + rem % b,
            0 <= rem % b,
            b >= 2,
    ;
}

/// The largest power of `base` that a limb can hold, and its exponent.
fn max_power(base: u32) -> (r: (u32, usize))
    requires
        base >= 2,
    ensures
        r.0 as nat == pow(base as nat, r.1 as nat),
        r.1 >= 1,
        r.0 >= 2,
        r.0 as nat * base as nat > u32::MAX,
{
    let mut big_base: u32 = base;
    let mut big_pow: usize = 1;
    proof {
        reveal_with_fuel(pow, 2);
        assert(base as nat * 1 == base as nat) by (nonlinear_arith);
    }
    assert(big_base * base <= 0xffff_ffff * 0xffff_ffff) by (nonlinear_arith)
        requires
            big_base <= 0xffff_ffff,
            base <= 0xffff_ffff,
    ;
    let mut next: u64 = (big_base as u64) * (base as u64);
    while next <= 0xffff_ffff
        invariant
            base >= 2,
            big_base >= 2,
            1 <= big_pow <= 32,
            big_base as nat == pow(base as nat, big_pow as nat),
            big_base as nat >= pow(2, big_pow as nat),
            next == big_base * base,
        decreases 0xffff_ffff - big_base,
    {
        proof {
            assert(big_base * base >= big_base * 2) by (nonlinear_arith)
                requires
                    base >= 2,
            ;
            assert(pow(2, (big_pow + 1) as nat) == 2 * pow(2, big_pow as nat));
            assert(pow(base as nat, (big_pow + 1) as nat) == base as nat * pow(
                base as nat,
                big_pow as nat,
            ));
            assert(base as nat * (big_base as nat) == big_base as nat * base as nat)
                by (nonlinear_arith);
            if big_pow >= 32 {
                lemma_pow_mul(2, 8, 4);
                reveal_with_fuel(pow, 9);
                lemma_pow_monotonic(2, 32, big_pow as nat);
                crate::bigint::lemma_limb_radix();
            }
        }
        big_base = next as u32;
        big_pow += 1;
        assert(big_base * base <= 0xffff_ffff * 0xffff_ffff) by (nonlinear_arith)
            requires
                big_base <= 0xffff_ffff,
                base <= 0xffff_ffff,
        ;
        next = (big_base as u64) * (base as u64);
    }
    (big_base, big_pow)
}

/// How many copies of `x` stand at the front of `s`.
fn count_leading_bytes(s: &[u8], x: u8) -> (n: usize)
    ensures
        n == count_leading(s@, x),
{
    let len = s.len();
    let mut n: usize = 0;
    while n < len && s[n] == x
        invariant
            len == s@.len(),
            n <= len,
            forall|i: int| 0 <= i < n ==> s@[i] == x,
        decreases len - n,
    {
        n += 1;
    }
    proof {
        lemma_count_leading_is(s@, x, n as nat);
    }
    n
}

/// Turns the first `n` bytes of `out` back to front.
fn reverse_prefix(out: &mut [u8], n: usize)
    requires
        n <= old(out)@.len(),
    ensures
        final(out)@.len() == old(out)@.len(),
        forall|i: int| 0 <= i < n ==> final(out)@[i] == old(out)@[n - 1 - i],
        forall|i: int| n <= i < old(out)@.len() ==> final(out)@[i] == old(out)@[i],
{
    let mut lo: usize = 0;
    let mut hi: usize = n;
    while lo + 1 < hi
        invariant
            lo <= hi <= n <= out@.len(),
            lo + hi == n,
            out@.len() == old(out)@.len(),
            forall|i: int| 0 <= i < lo ==> out@[i] == old(out)@[n - 1 - i],
            forall|i: int| hi <= i < n ==> out@[i] == old(out)@[n - 1 - i],
            forall|i: int| lo <= i < hi ==> out@[i] == old(out)@[i],
            forall|i: int| n <= i < out@.len() ==> out@[i] == old(out)@[i],
        decreases hi - lo,
    {
        hi -= 1;
        let a = out[lo];
        let b = out[hi];
        out[lo] = b;
        out[hi] = a;
        lo += 1;
    }
}

/// Moves the first `len` bytes of `out` to the right by `by` places and puts
/// zeros where they were.
fn shift_right(out: &mut [u8], len: usize, by: usize)
    requires
        len + by <= old(out)@.len(),
    ensures
        final(out)@.len() == old(out)@.len(),
        forall|i: int| 0 <= i < by ==> final(out)@[i] == 0,
        forall|i: int| by <= i < by + len ==> final(out)@[i] == old(out)@[i - by],
        forall|i: int| by + len <= i < old(out)@.len() ==> final(out)@[i] == old(out)@[i],
{
    let total = out.len();
    let mut k: usize = len;
    while k > 0
        invariant
            k <= len,
            len + by <= total,
            total == out@.len(),
            out@.len() == old(out)@.len(),
            forall|i: int| 0 <= i < k ==> out@[i] == old(out)@[i],
            forall|i: int| by + k <= i < by + len ==> out@[i] == old(out)@[i - by],
            forall|i: int| by + len <= i < total ==> out@[i] == old(out)@[i],
            by == 0 ==> forall|i: int| 0 <= i < total ==> out@[i] == old(out)@[i],
        decreases k,
    {
        k -= 1;
        let b = out[k];
        out[k + by] = b;
    }
    let mut z: usize = 0;
    while z < by
        invariant
            z <= by,
            len + by <= total,
            total == out@.len(),
            out@.len() == old(out)@.len(),
            forall|i: int| 0 <= i < z ==> out@[i] == 0,
            forall|i: int| by <= i < by + len ==> out@[i] == old(out)@[i - by],
            forall|i: int| by + len <= i < total ==> out@[i] == old(out)@[i],
        decreases by - z,
    {
        out[z] = 0;
        z += 1;
    }
}

/// The table from byte to digit: 255 for a byte that is no symbol.
fn build_lookup(alphabet: &[u8]) -> (lookup: [u8; 256])
    requires
        alphabet@.len() <= 255,
    ensures
        forall|c: u8|
            #![trigger lookup@[c as int]]
            lookup@[c as int] as int == if digit_of(alphabet@, c) < 0 {
                255
            } else {
                digit_of(alphabet@, c)
            },
{
    let mut lookup = [0xffu8; 256];
    let n = alphabet.len();
    let mut i: usize = 0;
    proof {
        assert(alphabet@.subrange(0, 0) =~= Seq::<u8>::empty());
    }
    while i < n
        invariant
            i <= n,
            n == alphabet@.len(),
            n <= 255,
            forall|c: u8|
                #![trigger lookup@[c as int]]
                lookup@[c as int] as int == if digit_of(alphabet@.subrange(0, i as int), c) < 0 {
                    255
                } else {
                    digit_of(alphabet@.subrange(0, i as int), c)
                },
        decreases n - i,
    {
        let ghost before = lookup@;
        let sym = alphabet[i];
        lookup[sym as usize] = i as u8;
        proof {
            let a0 = alphabet@.subrange(0, i as int);
            let a1 = alphabet@.subrange(0, i + 1);
            assert(a1.drop_last() =~= a0);
            assert(a1.last() == sym);
            assert forall|c: u8| #![trigger lookup@[c as int]] lookup@[c as int] as int == if digit_of(
                a1,
                c,
            ) < 0 {
                255
            } else {
                digit_of(a1, c)
            } by {
                if c != sym {
                    assert(lookup@[c as int] == before[c as int]);
                }
            }
        }
        i += 1;
    }
    proof {
        assert(alphabet@.subrange(0, n as int) =~= alphabet@);
    }
    lookup
}

/// The buffer after the digits ran out of room, or the first symbols did: it
/// holds the symbols of the digits `written`, the least significant first, and
/// behind them what it held before.
proof fn lemma_short_of_room(
    alphabet: Seq<u8>,
    input: Seq<u8>,
    before: Seq<u8>,
    now: Seq<u8>,
    higher: Seq<u8>,
    written: Seq<u8>,
)
    requires
        now.len() == before.len(),
        written.len() <= before.len(),
        min_be_digits(be_value(input, 256), alphabet.len()) == higher + written,
        encoded(alphabet, input).len() > before.len(),
        forall|i: int|
            0 <= i < written.len() ==> now[i] == alphabet[written[written.len() - 1 - i] as int],
        forall|i: int| written.len() <= i < before.len() ==> now[i] == before[i],
        higher.len() > 0 ==> written.len() == before.len(),
    ensures
        now == digits_output(alphabet, input, before),
{
    let all = min_be_digits(be_value(input, 256), alphabet.len());
    let digits = symbols_of(alphabet, all);
    let out = digits_output(alphabet, input, before);
    assert forall|i: int| 0 <= i < before.len() implies now[i] == out[i] by {
        if i < written.len() {
            assert(all[all.len() - 1 - i] == written[written.len() - 1 - i]);
        }
    }
    assert(now =~= out);
}

/// Writes the text of `input`, whose number `big` holds, to the front of `output`
/// and returns its length. Fails with `BufferTooSmall` where the text does not
/// fit into `output`.
fn encode_digits<'a>(
    mut big: BigUintView<'a>,
    alphabet: &[u8],
    input: &[u8],
    output: &mut [u8],
) -> (r: Result<usize, EncodeError>)
    requires
        2 <= alphabet@.len() <= 255,
        big.wf(),
        big.normalized(),
        big.value() == be_value(input@, 256),
    ensures
        final(output)@.len() == old(output)@.len(),
        r is Ok <==> encoded(alphabet@, input@).len() <= old(output)@.len(),
        r matches Ok(n) ==> n == encoded(alphabet@, input@).len(),
        r matches Err(e) ==> e.kind == EncodeKind::BufferTooSmall,
        final(output)@ == digits_output(alphabet@, input@, old(output)@),
{
    let ghost text = encoded(alphabet@, input@);
    let ghost v = be_value(input@, 256);
    let ghost b = alphabet@.len() as nat;
    let base = alphabet.len() as u32;
    let zeros = count_leading_bytes(input, 0);
    let out_len = output.len();
    let mut out_idx: usize = 0;
    let ghost mut rev: Seq<u8> = Seq::empty();
    proof {
        lemma_min_be_digits_value(v, b);
        lemma_min_be_digits_below(v, b);
        assert(text.len() == zeros + min_be_digits(v, b).len());
    }
    if !big.is_zero() {
        let (big_base, big_pow) = max_power(base);
        let mut more = true;
        proof {
            assert(min_be_digits(v, b) + rev =~= min_be_digits(v, b));
        }
        while more
            invariant
                2 <= b <= 255,
                b == alphabet@.len(),
                base == b,
                big.wf(),
                big.normalized(),
                more ==> big.value() > 0,
                big_base as nat == pow(b, big_pow as nat),
                big_base >= 2,
                big_pow >= 1,
                min_be_digits(v, b) == (if more {
                    min_be_digits(big.value(), b)
                } else {
                    Seq::<u8>::empty()
                }) + rev,
                digits_below(rev, b),
                out_idx == rev.len(),
                out_idx <= out_len,
                out_len == output@.len(),
                output@.len() == old(output)@.len(),
                text.len() == zeros + min_be_digits(v, b).len(),
                text == encoded(alphabet@, input@),
                v == be_value(input@, 256),
                forall|i: int| 0 <= i < out_idx ==> output@[i] == alphabet@[rev[out_idx - 1 - i] as int],
                forall|i: int| out_idx <= i < out_len ==> output@[i] == old(output)@[i],
            decreases
                    (if more {
                        big.value() + 1
                    } else {
                        0
                    }),
        {
            let ghost t0 = big.value();
            let mut big_rem = big.div_mod(big_base);
            let ghost q = big.value();
            proof {
                lemma_fundamental_div_mod(t0 as int, big_base as int);
                assert(q * (big_base as nat) == (big_base as nat) * q) by (nonlinear_arith);
                assert(q < t0) by (nonlinear_arith)
                    requires
                        t0 == q * (big_base as nat) + big_rem as nat,
                        t0 > 0,
                        big_base >= 2,
                ;
            }
            if big.is_zero() {
                proof {
                    assert(0 * (big_base as nat) == 0) by (nonlinear_arith);
                    assert(big_rem as nat == t0);
                }
                while big_rem > 0
                    invariant
                        2 <= b <= 255,
                        b == alphabet@.len(),
                        base == b,
                        min_be_digits(v, b) == min_be_digits(big_rem as nat, b) + rev,
                        digits_below(rev, b),
                        out_idx == rev.len(),
                        out_idx <= out_len,
                        out_len == output@.len(),
                        output@.len() == old(output)@.len(),
                        text.len() == zeros + min_be_digits(v, b).len(),
                        text == encoded(alphabet@, input@),
                        v == be_value(input@, 256),
                                forall|i: int|
                            0 <= i < out_idx ==> output@[i] == alphabet@[rev[out_idx - 1
                                - i] as int],
                        forall|i: int| out_idx <= i < out_len ==> output@[i] == old(output)@[i],
                    decreases big_rem,
                {
                    let result = big_rem / base;
                    let remainder = big_rem % base;
                    proof {
                        lemma_min_be_digits_value(big_rem as nat, b);
                    }
                    if out_idx >= out_len {
                        proof {
                            lemma_short_of_room(
                                alphabet@,
                                input@,
                                old(output)@,
                                output@,
                                min_be_digits(big_rem as nat, b),
                                rev,
                            );
                        }
                        return Err(EncodeError { kind: EncodeKind::BufferTooSmall });
                    }
                    output[out_idx] = alphabet[remainder as usize];
                    proof {
                        let old_rev = rev;
                        rev = seq![remainder as u8] + rev;
                        assert(min_be_digits(big_rem as nat, b) == min_be_digits(
                            result as nat,
                            b,
                        ).push(remainder as u8));
                        assert(min_be_digits(result as nat, b).push(remainder as u8) + old_rev
                            =~= min_be_digits(result as nat, b) + rev);
                        assert forall|i: int| 0 <= i < out_idx + 1 implies output@[i]
                            == alphabet@[rev[out_idx - i] as int] by {
                            if i < out_idx {
                                assert(rev[out_idx - i] == old_rev[out_idx - 1 - i]);
                            }
                        }
                        assert forall|i: int| 0 <= i < rev.len() implies (#[trigger] rev[i] as nat)
                            < b by {
                            if i > 0 {
                                assert(rev[i] == old_rev[i - 1]);
                            }
                        }
                    }
                    out_idx += 1;
                    big_rem = result;
                }
                more = false;
                proof {
                    assert(min_be_digits(0, b) =~= Seq::<u8>::empty());
                }
            } else {
                let mut k: usize = 0;
                proof {
                    lemma_be_value_bound(Seq::<u8>::empty(), b);
                }
                while k < big_pow
                    invariant
                        2 <= b <= 255,
                        b == alphabet@.len(),
                        base == b,
                        k <= big_pow,
                        big.value() == q,
                        q > 0,
                        big.wf(),
                        big.normalized(),
                        (big_rem as nat) < pow(b, (big_pow - k) as nat),
                        min_be_digits(v, b) == min_be_digits(
                            q * pow(b, (big_pow - k) as nat) + big_rem as nat,
                            b,
                        ) + rev,
                        digits_below(rev, b),
                        out_idx == rev.len(),
                        out_idx <= out_len,
                        out_len == output@.len(),
                        output@.len() == old(output)@.len(),
                        text.len() == zeros + min_be_digits(v, b).len(),
                        text == encoded(alphabet@, input@),
                        v == be_value(input@, 256),
                                forall|i: int|
                            0 <= i < out_idx ==> output@[i] == alphabet@[rev[out_idx - 1
                                - i] as int],
                        forall|i: int| out_idx <= i < out_len ==> output@[i] == old(output)@[i],
                    decreases big_pow - k,
                {
                    let result = big_rem / base;
                    let remainder = big_rem % base;
                    let ghost kk = (big_pow - k) as nat;
                    let ghost t = q * pow(b, kk) + big_rem as nat;
                    proof {
                        lemma_peel(q, b, kk, big_rem as nat);
                        lemma_pow_positive(b, kk);
                        assert(q * pow(b, kk) >= 1) by (nonlinear_arith)
                            requires
                                q >= 1,
                                pow(b, kk) >= 1,
                        ;
                        lemma_min_be_digits_value(t, b);
                    }
                    if out_idx >= out_len {
                        proof {
                            lemma_short_of_room(
                                alphabet@,
                                input@,
                                old(output)@,
                                output@,
                                min_be_digits(t, b),
                                rev,
                            );
                        }
                        return Err(EncodeError { kind: EncodeKind::BufferTooSmall });
                    }
                    output[out_idx] = alphabet[remainder as usize];
                    proof {
                        let old_rev = rev;
                        rev = seq![remainder as u8] + rev;
                        let t1 = q * pow(b, (kk - 1) as nat) + result as nat;
                        assert(t / b == t1);
                        assert(min_be_digits(t, b) == min_be_digits(t1, b).push(remainder as u8));
                        assert(min_be_digits(t1, b).push(remainder as u8) + old_rev
                            =~= min_be_digits(t1, b) + rev);
                        assert forall|i: int| 0 <= i < out_idx + 1 implies output@[i]
                            == alphabet@[rev[out_idx - i] as int] by {
                            if i < out_idx {
                                assert(rev[out_idx - i] == old_rev[out_idx - 1 - i]);
                            }
                        }
                        assert forall|i: int| 0 <= i < rev.len() implies (#[trigger] rev[i] as nat)
                            < b by {
                            if i > 0 {
                                assert(rev[i] == old_rev[i - 1]);
                            }
                        }
                    }
                    out_idx += 1;
                    big_rem = result;
                    k += 1;
                }
                proof {
                    assert(pow(b, 0) == 1);
                    assert(q * 1 == q) by (nonlinear_arith);
                }
            }
        }
        proof {
            assert(Seq::<u8>::empty() + rev =~= rev);
        }
    } else {
        proof {
            assert(min_be_digits(0, b) =~= Seq::<u8>::empty());
        }
    }
    assert(rev == min_be_digits(v, b));
    if zeros > out_len - out_idx {
        proof {
            assert(Seq::<u8>::empty() + rev =~= rev);
            lemma_short_of_room(
                alphabet@,
                input@,
                old(output)@,
                output@,
                Seq::<u8>::empty(),
                rev,
            );
        }
        return Err(EncodeError { kind: EncodeKind::BufferTooSmall });
    }
    let leader = alphabet[0];
    let mut j: usize = 0;
    while j < zeros
        invariant
            j <= zeros,
            out_idx == rev.len(),
            out_idx + zeros <= out_len,
            out_len == output@.len(),
            output@.len() == old(output)@.len(),
            forall|i: int| 0 <= i < out_idx ==> output@[i] == alphabet@[rev[out_idx - 1 - i] as int],
            forall|i: int| out_idx <= i < out_idx + j ==> output@[i] == leader,
            forall|i: int| out_idx + zeros <= i < out_len ==> output@[i] == old(output)@[i],
        decreases zeros - j,
    {
        output[out_idx + j] = leader;
        j += 1;
    }
    let n = out_idx + zeros;
    reverse_prefix(output, n);
    proof {
        assert(output@ =~= text + old(output)@.subrange(n as int, out_len as int));
    }
    Ok(n)
}

/// Encodes `input` into the front of `output` and returns the length of the text.
///
/// Fails with `Overflow` where the input has more than 512 bytes, and with
/// `BufferTooSmall` where the text does not fit into `output`; [`encode_output`]
/// says what `output` holds then.
pub fn encode_to_buffer(alphabet: &[u8], input: &[u8], output: &mut [u8]) -> (r: Result<
    usize,
    EncodeError,
>)
    requires
        2 <= alphabet@.len() <= 255,
    ensures
        final(output)@.len() == old(output)@.len(),
        r is Ok <==> input@.len() <= 4 * MAX_BIGINT_BUFFER && encoded(alphabet@, input@).len()
            <= old(output)@.len(),
        r matches Ok(n) ==> n == encoded(alphabet@, input@).len() && final(output)@ == encoded(
            alphabet@,
            input@,
        ) + old(output)@.subrange(n as int, old(output)@.len() as int),
        r matches Err(e) ==> e.kind == if input@.len() > 4 * MAX_BIGINT_BUFFER {
            EncodeKind::Overflow
        } else {
            EncodeKind::BufferTooSmall
        },
        final(output)@ == encode_output(alphabet@, input@, old(output)@),
{
    let mut chunks = [0u32; MAX_BIGINT_BUFFER];
    let mut big = BigUintView::new(&mut chunks);
    if !big.load_be_bytes(input) {
        return Err(EncodeError { kind: EncodeKind::Overflow });
    }
    encode_digits(big, alphabet, input, output)
}

/// Decodes `input` into the front of `output` and returns how many bytes it gave.
///
/// Fails as [`decode_result`] says for a big integer of 128 limbs, and with
/// `BufferTooSmall` where the bytes do not fit into `output`; [`decode_output`]
/// says what `output` holds then.
pub fn decode_to_buffer(alphabet: &[u8], input: &[u8], output: &mut [u8]) -> (r: Result<
    usize,
    DecodeError,
>)
    requires
        2 <= alphabet@.len() <= 255,
    ensures
        final(output)@.len() == old(output)@.len(),
        match decode_result(alphabet@, input@, MAX_BIGINT_BUFFER as nat) {
            Err(e) => r == Err::<usize, DecodeError>(e),
            Ok(bytes) => if bytes.len() <= old(output)@.len() {
                r == Ok::<usize, DecodeError>(bytes.len() as usize) && final(output)@ == bytes
                    + old(output)@.subrange(bytes.len() as int, old(output)@.len() as int)
            } else {
                r == Err::<usize, DecodeError>(
                    DecodeError { position: 0, kind: DecodeKind::BufferTooSmall },
                )
            },
        },
        final(output)@ == decode_output(alphabet@, input@, old(output)@),
{
    let ghost b = alphabet@.len() as nat;
    let n = input.len();
    let out_len = output.len();
    let base = alphabet.len() as u32;
    let lookup = build_lookup(alphabet);
    let mut chunks = [0u32; MAX_BIGINT_BUFFER];
    let mut big = BigUintView::new(&mut chunks);
    let mut i: usize = 0;
    proof {
        assert(digits_of(alphabet@, input@.subrange(0, 0)) =~= Seq::<u8>::empty());
    }
    while i < n
        invariant
            i <= n,
            n == input@.len(),
            2 <= b <= 255,
            b == alphabet@.len(),
            base == b,
            big.wf(),
            big.normalized(),
            big.capacity() == MAX_BIGINT_BUFFER,
            forall|k: int| 0 <= k < i ==> digit_of(alphabet@, input@[k]) >= 0,
            big.value() == be_value(digits_of(alphabet@, input@.subrange(0, i as int)), b),
            forall|c: u8|
                #![trigger lookup@[c as int]]
                lookup@[c as int] as int == if digit_of(alphabet@, c) < 0 {
                    255
                } else {
                    digit_of(alphabet@, c)
                },
            output@ == old(output)@,
        decreases n - i,
    {
        let byte = input[i];
        let index = lookup[byte as usize];
        proof {
            lemma_digit_of_range(alphabet@, byte);
            lemma_limbs_value_bound(big.digits());
            lemma_pow_monotonic(limb_radix(), big.digits().len(), MAX_BIGINT_BUFFER as nat);
        }
        if index == 0xff {
            proof {
                lemma_mapped_prefix_is(alphabet@, input@, i as nat);
            }
            return Err(DecodeError { position: i, kind: DecodeKind::Symbol });
        }
        let ghost before = big.value();
        let step = big.mul_add(base, index as u32);
        proof {
            let d0 = digits_of(alphabet@, input@.subrange(0, i as int));
            let d1 = digits_of(alphabet@, input@.subrange(0, i + 1));
            assert(d1 =~= d0.push(index));
            lemma_be_value_push(d0, index, b);
        }
        if step.is_err() {
            proof {
                lemma_mapped_prefix_holds(alphabet@, input@);
                let j = mapped_prefix(alphabet@, input@);
                assert(j >= i + 1);
                let d1 = digits_of(alphabet@, input@.subrange(0, i + 1));
                let dj = digits_of(alphabet@, input@.subrange(0, j as int));
                let rest = digits_of(alphabet@, input@.subrange(i + 1, j as int));
                assert(dj =~= d1 + rest);
                lemma_be_value_concat(d1, rest, b);
                lemma_pow_positive(b, rest.len());
                assert(be_value(d1, b) * pow(b, rest.len()) >= be_value(d1, b))
                    by (nonlinear_arith)
                    requires
                        pow(b, rest.len()) >= 1,
                ;
            }
            return Err(DecodeError { position: 0, kind: DecodeKind::Overflow });
        }
        i += 1;
    }
    let ghost v = big.value();
    proof {
        assert(input@.subrange(0, n as int) =~= input@);
        lemma_mapped_prefix_is(alphabet@, input@, n as nat);
        lemma_limbs_value_bound(big.digits());
        lemma_pow_monotonic(limb_radix(), big.digits().len(), MAX_BIGINT_BUFFER as nat);
        lemma_minimal_bytes(big.digits());
    }
    let leaders = count_leading_bytes(input, if alphabet.len() > 0 {
        alphabet[0]
    } else {
        0
    });
    let written = match big.copy_into_bytes_be(output) {
        Ok(w) => w,
        Err(_) => {
            return Err(DecodeError { position: 0, kind: DecodeKind::BufferTooSmall });
        },
    };
    if leaders > 0 {
        if leaders > out_len - written {
            return Err(DecodeError { position: 0, kind: DecodeKind::BufferTooSmall });
        }
        shift_right(output, written, leaders);
    }
    proof {
        let bytes = decoded(alphabet@, input@);
        assert(output@ =~= bytes + old(output)@.subrange(bytes.len() as int, out_len as int));
    }
    Ok(written + leaders)
}

/// Decodes `input`, with a big integer that grows as the number does.
///
/// Fails with `Symbol` at the first byte that is no symbol.
pub fn decode(alphabet: &[u8], input: &[u8]) -> (r: Result<Vec<u8>, DecodeError>)
    requires
        2 <= alphabet@.len() <= 255,
    ensures
        r is Ok <==> mapped_prefix(alphabet@, input@) == input@.len(),
        r matches Ok(bytes) ==> bytes@ == decoded(alphabet@, input@),
        r matches Err(e) ==> e == (DecodeError {
            position: mapped_prefix(alphabet@, input@) as usize,
            kind: DecodeKind::Symbol,
        }),
{
    let ghost b = alphabet@.len() as nat;
    let n = input.len();
    let base = alphabet.len() as u32;
    let lookup = build_lookup(alphabet);
    let mut big = BigUint::with_capacity(4);
    let mut i: usize = 0;
    proof {
        assert(digits_of(alphabet@, input@.subrange(0, 0)) =~= Seq::<u8>::empty());
    }
    while i < n
        invariant
            i <= n,
            n == input@.len(),
            2 <= b <= 255,
            b == alphabet@.len(),
            base == b,
            forall|k: int| 0 <= k < i ==> digit_of(alphabet@, input@[k]) >= 0,
            big.value() == be_value(digits_of(alphabet@, input@.subrange(0, i as int)), b),
            forall|c: u8|
                #![trigger lookup@[c as int]]
                lookup@[c as int] as int == if digit_of(alphabet@, c) < 0 {
                    255
                } else {
                    digit_of(alphabet@, c)
                },
        decreases n - i,
    {
        let byte = input[i];
        let index = lookup[byte as usize];
        proof {
            lemma_digit_of_range(alphabet@, byte);
        }
        if index == 0xff {
            proof {
                lemma_mapped_prefix_is(alphabet@, input@, i as nat);
            }
            return Err(DecodeError { position: i, kind: DecodeKind::Symbol });
        }
        big.mul_add(base, index as u32);
        proof {
            let d0 = digits_of(alphabet@, input@.subrange(0, i as int));
            let d1 = digits_of(alphabet@, input@.subrange(0, i + 1));
            assert(d1 =~= d0.push(index));
            lemma_be_value_push(d0, index, b);
        }
        i += 1;
    }
    proof {
        assert(input@.subrange(0, n as int) =~= input@);
        lemma_mapped_prefix_is(alphabet@, input@, n as nat);
    }
    let bytes = big.into_bytes_be();
    let leaders = count_leading_bytes(input, alphabet[0]);
    let mut res: Vec<u8> = Vec::new();
    let mut z: usize = 0;
    while z < leaders
        invariant
            z <= leaders,
            res@ == repeat(0, z as nat),
        decreases leaders - z,
    {
        res.push(0);
        proof {
            assert(res@ =~= repeat(0, (z + 1) as nat));
        }
        z += 1;
    }
    let mut k: usize = 0;
    let m = bytes.len();
    while k < m
        invariant
            k <= m,
            m == bytes@.len(),
            res@ == repeat(0, leaders as nat) + bytes@.subrange(0, k as int),
        decreases m - k,
    {
        res.push(bytes[k]);
        proof {
            assert(res@ =~= repeat(0, leaders as nat) + bytes@.subrange(0, k + 1));
        }
        k += 1;
    }
    proof {
        assert(bytes@.subrange(0, m as int) =~= bytes@);
    }
    Ok(res)
}

/// No symbol occurs twice.
pub open spec fn distinct(alphabet: Seq<u8>) -> bool {
    forall|a: int, b: int| 0 <= a < b < alphabet.len() ==> alphabet[a] != alphabet[b]
}

/// What the text of `input` is made of, for an alphabet without repetition: every
/// byte of it is a symbol, its digits are a zero for each leading zero byte and
/// then the digits of the number, and it starts with as many first symbols as the
/// input has leading zero bytes.
pub proof fn lemma_encoded_shape(alphabet: Seq<u8>, input: Seq<u8>)
    requires
        2 <= alphabet.len() <= 255,
        distinct(alphabet),
    ensures
        mapped_prefix(alphabet, encoded(alphabet, input)) == encoded(alphabet, input).len(),
        digits_of(alphabet, encoded(alphabet, input)) == repeat(0, count_leading(input, 0))
            + min_be_digits(be_value(input, 256), alphabet.len()),
        count_leading(encoded(alphabet, input), alphabet[0]) == count_leading(input, 0),
{
    let b = alphabet.len() as nat;
    let v = be_value(input, 256);
    let d = min_be_digits(v, b);
    let z = count_leading(input, 0);
    let t = encoded(alphabet, input);
    lemma_min_be_digits_below(v, b);
    lemma_min_be_digits_value(v, b);
    lemma_digit_of_symbol(alphabet, 0);
    assert forall|i: int| 0 <= i < t.len() implies digit_of(alphabet, t[i]) == (if i < z {
        0
    } else {
        d[i - z] as int
    }) by {
        if i >= z {
            assert((d[i - z] as nat) < b);
            lemma_digit_of_symbol(alphabet, d[i - z] as int);
        }
    }
    lemma_mapped_prefix_is(alphabet, t, t.len());
    assert(digits_of(alphabet, t) =~= repeat(0, z) + d);
    if z < t.len() {
        assert(d[0] != 0);
        assert(t[z as int] == alphabet[d[0] as int]);
        assert((d[0] as nat) < b);
    }
    lemma_count_leading_is(t, alphabet[0], z);
}

/// Decoding the text of `input` gives `input` back.
pub proof fn lemma_round_trip(alphabet: Seq<u8>, input: Seq<u8>)
    requires
        2 <= alphabet.len() <= 255,
        distinct(alphabet),
    ensures
        mapped_prefix(alphabet, encoded(alphabet, input)) == encoded(alphabet, input).len(),
        decoded(alphabet, encoded(alphabet, input)) == input,
        forall|limbs: nat|
            input.len() <= 4 * limbs ==> #[trigger] decode_result(
                alphabet,
                encoded(alphabet, input),
                limbs,
            ) == Ok::<Seq<u8>, DecodeError>(input),
{
    let b = alphabet.len() as nat;
    let v = be_value(input, 256);
    let d = min_be_digits(v, b);
    let z = count_leading(input, 0);
    let t = encoded(alphabet, input);
    lemma_encoded_shape(alphabet, input);
    lemma_min_be_digits_value(v, b);
    crate::radix::lemma_be_value_leading_zeros(z, d, b);
    assert(be_value(digits_of(alphabet, t), b) == v);
    lemma_count_leading_holds(input, 0);
    let tail = input.subrange(z as int, input.len() as int);
    assert(input =~= repeat(0, z) + tail);
    crate::radix::lemma_be_value_leading_zeros(z, tail, 256);
    assert(digits_below(tail, 256)) by {
        assert forall|i: int| 0 <= i < tail.len() implies (#[trigger] tail[i] as nat) < 256 by {}
    }
    crate::radix::lemma_min_be_digits_of_value(tail, 256);
    assert(decoded(alphabet, t) =~= input);
    assert forall|limbs: nat| input.len() <= 4 * limbs implies #[trigger] decode_result(
        alphabet,
        t,
        limbs,
    ) == Ok::<Seq<u8>, DecodeError>(input) by {
        assert(t.subrange(0, t.len() as int) =~= t);
        assert(digits_below(input, 256)) by {
            assert forall|i: int| 0 <= i < input.len() implies (#[trigger] input[i] as nat)
                < 256 by {}
        }
        lemma_be_value_bound(input, 256);
        lemma_pow_monotonic(256, input.len(), 4 * limbs);
        lemma_pow_mul(256, 4, limbs);
        crate::bigint::lemma_limb_radix();
    }
}

/// A text that decodes is the text of what it decodes to.
pub proof fn lemma_canonical(alphabet: Seq<u8>, text: Seq<u8>)
    requires
        2 <= alphabet.len() <= 255,
        distinct(alphabet),
        mapped_prefix(alphabet, text) == text.len(),
    ensures
        encoded(alphabet, decoded(alphabet, text)) == text,
{
    let b = alphabet.len() as nat;
    let z = count_leading(text, alphabet[0]);
    let all = digits_of(alphabet, text);
    let w = be_value(all, b);
    let m = min_be_digits(w, 256);
    let bytes = decoded(alphabet, text);
    lemma_mapped_prefix_holds(alphabet, text);
    lemma_count_leading_holds(text, alphabet[0]);
    lemma_digit_of_symbol(alphabet, 0);
    lemma_min_be_digits_value(w, 256);
    lemma_min_be_digits_below(w, 256);
    // The bytes start with exactly `z` zeros and spell `w`.
    if z < bytes.len() {
        assert(bytes[z as int] == m[0]);
    }
    lemma_count_leading_is(bytes, 0, z);
    crate::radix::lemma_be_value_leading_zeros(z, m, 256);
    // The digits behind the leading first symbols are the shortest spelling of `w`.
    let rest = text.subrange(z as int, text.len() as int);
    let rd = digits_of(alphabet, rest);
    assert(all =~= repeat(0, z) + rd) by {
        assert forall|i: int| 0 <= i < all.len() implies all[i] == (repeat(0, z) + rd)[i] by {
            if i < z {
                assert(text[i] == alphabet[0]);
            } else {
                assert(rest[i - z] == text[i]);
            }
        }
    }
    crate::radix::lemma_be_value_leading_zeros(z, rd, b);
    assert forall|i: int| 0 <= i < rest.len() implies digit_of(alphabet, rest[i]) >= 0 by {
        assert(rest[i] == text[i + z]);
    }
    lemma_digits_of_below(alphabet, rest);
    if rest.len() > 0 {
        assert(rest[0] == text[z as int]);
        lemma_digit_of_range(alphabet, rest[0]);
        assert(rd[0] as int == digit_of(alphabet, rest[0]));
        assert(rd[0] != 0);
    }
    crate::radix::lemma_min_be_digits_of_value(rd, b);
    let back = encoded(alphabet, bytes);
    assert(back =~= text) by {
        assert(back.len() == z + rd.len());
        assert forall|i: int| 0 <= i < text.len() implies back[i] == text[i] by {
            if i < z {
                assert(text[i] == alphabet[0]);
            } else {
                assert(rest[i - z] == text[i]);
                lemma_digit_of_range(alphabet, rest[i - z]);
                assert(rd[i - z] as int == digit_of(alphabet, rest[i - z]));
            }
        }
    }
}

/// Zero bytes in front of an input give as many first symbols in front of its
/// text, whatever follows them.
pub proof fn lemma_leading_zeros(alphabet: Seq<u8>, k: nat, rest: Seq<u8>)
    requires
        2 <= alphabet.len() <= 255,
    ensures
        encoded(alphabet, repeat(0, k) + rest) == repeat(alphabet[0], k) + encoded(alphabet, rest),
{
    let input = repeat(0, k) + rest;
    lemma_count_leading_holds(rest, 0);
    let zr = count_leading(rest, 0);
    assert forall|i: int| 0 <= i < k + zr implies input[i] == 0 by {
        if i >= k {
            assert(input[i] == rest[i - k]);
        }
    }
    if k + zr < input.len() {
        assert(input[(k + zr) as int] == rest[zr as int]);
    }
    lemma_count_leading_is(input, 0, k + zr);
    crate::radix::lemma_be_value_leading_zeros(k, rest, 256);
    assert(encoded(alphabet, input) =~= repeat(alphabet[0], k) + encoded(alphabet, rest));
}

/// A text is no shorter than what it was encoded from.
pub proof fn lemma_encoded_not_shorter(alphabet: Seq<u8>, input: Seq<u8>)
    requires
        2 <= alphabet.len() <= 255,
    ensures
        input.len() <= encoded(alphabet, input).len(),
{
    let b = alphabet.len() as nat;
    let z = count_leading(input, 0);
    lemma_count_leading_holds(input, 0);
    let tail = input.subrange(z as int, input.len() as int);
    assert(input =~= repeat(0, z) + tail);
    crate::radix::lemma_be_value_leading_zeros(z, tail, 256);
    assert(digits_below(tail, 256)) by {
        assert forall|i: int| 0 <= i < tail.len() implies (#[trigger] tail[i] as nat) < 256 by {}
    }
    crate::radix::lemma_min_be_digits_of_value(tail, 256);
    let v = be_value(input, 256);
    let digits = min_be_digits(v, b);
    crate::radix::lemma_min_be_digits_magnitude(v, b);
    lemma_pow_base_monotonic(b, 256, digits.len());
    lemma_min_be_digits_len_bound(v, 256, digits.len());
}

/// What was decoded is no longer than the text.
pub proof fn lemma_decoded_not_longer(alphabet: Seq<u8>, text: Seq<u8>)
    requires
        2 <= alphabet.len() <= 255,
        distinct(alphabet),
        mapped_prefix(alphabet, text) == text.len(),
    ensures
        decoded(alphabet, text).len() <= text.len(),
{
    let b = alphabet.len() as nat;
    let z = count_leading(text, alphabet[0]);
    lemma_count_leading_holds(text, alphabet[0]);
    lemma_mapped_prefix_holds(alphabet, text);
    lemma_digit_of_symbol(alphabet, 0);
    let all = digits_of(alphabet, text);
    let rest = text.subrange(z as int, text.len() as int);
    let rd = digits_of(alphabet, rest);
    assert(all =~= repeat(0, z) + rd) by {
        assert forall|i: int| 0 <= i < all.len() implies all[i] == (repeat(0, z) + rd)[i] by {
            if i < z {
                assert(text[i] == alphabet[0]);
            } else {
                assert(rest[i - z] == text[i]);
            }
        }
    }
    crate::radix::lemma_be_value_leading_zeros(z, rd, b);
    assert forall|i: int| 0 <= i < rest.len() implies digit_of(alphabet, rest[i]) >= 0 by {
        assert(rest[i] == text[i + z]);
    }
    lemma_digits_of_below(alphabet, rest);
    lemma_be_value_bound(rd, b);
    lemma_pow_base_monotonic(b, 256, rd.len());
    lemma_min_be_digits_len_bound(be_value(rd, b), 256, rd.len());
}

/// With an alphabet of 41 symbols or more, a text has at most three symbols for
/// every two bytes, and two more.
pub proof fn lemma_encoded_bound(alphabet: Seq<u8>, input: Seq<u8>)
    requires
        41 <= alphabet.len() <= 255,
    ensures
        encoded(alphabet, input).len() <= input.len() + input.len() / 2 + 2,
{
    let b = alphabet.len() as nat;
    let n = input.len();
    let z = count_leading(input, 0);
    lemma_count_leading_holds(input, 0);
    let tail = input.subrange(z as int, n as int);
    let m = tail.len();
    assert(input =~= repeat(0, z) + tail);
    crate::radix::lemma_be_value_leading_zeros(z, tail, 256);
    assert(digits_below(tail, 256)) by {
        assert forall|i: int| 0 <= i < tail.len() implies (#[trigger] tail[i] as nat) < 256 by {}
    }
    lemma_be_value_bound(tail, 256);
    let v = be_value(input, 256);
    let digits = min_be_digits(v, b);
    let dl = digits.len();
    lemma_min_be_digits_value(v, b);
    crate::radix::lemma_min_be_digits_magnitude(v, b);
    let h = (m + 1) / 2;
    if dl >= m + m / 2 + 3 {
        // Three digits hold more than two bytes.
        assert(3 * h <= dl - 1);
        assert(m <= 2 * h);
        lemma_pow_monotonic(b, 3 * h, (dl - 1) as nat);
        lemma_pow_base_monotonic(41, b, 3 * h);
        lemma_pow_mul(41, 3, h);
        lemma_pow_mul(256, 2, h);
        assert(pow(41, 3) == 68921 && pow(256, 2) == 65536) by {
            reveal_with_fuel(pow, 4);
        }
        lemma_pow_base_monotonic(65536, 68921, h);
        lemma_pow_monotonic(256, m, 2 * h);
        assert(false);
    }
}

/// What is true of every text: it is no longer than nine symbols for each byte.
pub proof fn lemma_encoded_len(alphabet: Seq<u8>, input: Seq<u8>)
    requires
        2 <= alphabet.len() <= 255,
    ensures
        encoded(alphabet, input).len() <= 9 * input.len(),
{
    let b = alphabet.len() as nat;
    let v = be_value(input, 256);
    lemma_count_leading_holds(input, 0);
    lemma_be_value_bound(input, 256);
    lemma_pow_mul(2, 8, input.len());
    assert(pow(2, 8) == 256) by {
        reveal_with_fuel(pow, 9);
    }
    lemma_pow_base_monotonic(2, b, 8 * input.len());
    lemma_min_be_digits_len_bound(v, b, 8 * input.len());
}

/// A text over an ASCII alphabet is ASCII.
pub proof fn lemma_encoded_ascii(alphabet: Seq<u8>, input: Seq<u8>)
    requires
        2 <= alphabet.len() <= 255,
        is_ascii(alphabet),
    ensures
        is_ascii(encoded(alphabet, input)),
{
    let b = alphabet.len() as nat;
    let d = min_be_digits(be_value(input, 256), b);
    lemma_min_be_digits_below(be_value(input, 256), b);
    let t = encoded(alphabet, input);
    let z = count_leading(input, 0);
    assert forall|i: int| 0 <= i < t.len() implies #[trigger] t[i] < 128 by {
        if i < z {
            assert(t[i] == alphabet[0]);
        } else {
            assert((d[i - z] as nat) < b);
            assert(t[i] == alphabet[d[i - z] as int]);
        }
    }
}

/// Encodes `input` as a string, with a big integer as large as the input needs.
///
/// Fails with `Overflow` only where nine symbols for each byte of the input, which
/// is the room that it asks for the smaller alphabets, are more than a buffer can
/// hold.
pub fn encode(alphabet: &[u8], input: &[u8]) -> (r: Result<String, EncodeError>)
    requires
        2 <= alphabet@.len() <= 255,
        is_ascii(alphabet@),
    ensures
        r is Ok <==> 9 * input@.len() <= usize::MAX,
        r matches Ok(s) ==> s@ == ascii_chars(encoded(alphabet@, input@)),
        r matches Err(e) ==> e.kind == EncodeKind::Overflow,
{
    let n = input.len();
    if n > usize::MAX / 9 {
        return Err(EncodeError { kind: EncodeKind::Overflow });
    }
    let room = if alphabet.len() >= 41 {
        n + n / 2 + 2
    } else {
        9 * n
    };
    proof {
        lemma_encoded_len(alphabet@, input@);
        lemma_encoded_ascii(alphabet@, input@);
        if alphabet@.len() >= 41 {
            lemma_encoded_bound(alphabet@, input@);
        }
    }
    let mut limbs: Vec<u32> = vec![0u32; n / 4 + 1];
    let mut big = BigUintView::new(limbs.as_mut_slice());
    if !big.load_be_bytes(input) {
        return vstd::pervasive::unreached();
    }
    let mut buffer: Vec<u8> = vec![0u8; room];
    match encode_digits(big, alphabet, input, buffer.as_mut_slice()) {
        Ok(len) => {
            buffer.truncate(len);
            proof {
                assert(buffer@ =~= encoded(alphabet@, input@));
            }
            Ok(ascii_string(buffer))
        },
        Err(_) => vstd::pervasive::unreached(),
    }
}

} // verus!
