//! Positional notation.
//!
//! Every codec in this crate is a change of radix: a run of bytes and a run of
//! symbol values are two spellings of one natural number. This module holds the
//! mathematical vocabulary for that (the value of a digit string, the digits of a
//! number) and the lemmas that relate the two.
use vstd::arithmetic::div_mod::{
    lemma_fundamental_div_mod, lemma_fundamental_div_mod_converse, lemma_mod_breakdown,
};
use vstd::prelude::*;

verus! {

/// `b` raised to the power `e`.
pub open spec fn pow(b: nat, e: nat) -> nat
    decreases e,
{
    if e == 0 {
        1
    } else {
        b * pow(b, (e - 1) as nat)
    }
}

/// The number that `digits` spell in radix `radix`, most significant digit first.
pub open spec fn be_value(digits: Seq<u8>, radix: nat) -> nat
    decreases digits.len(),
{
    if digits.len() == 0 {
        0
    } else {
        be_value(digits.drop_last(), radix) * radix + digits.last() as nat
    }
}

/// The `count` least significant digits of `n` in radix `radix`, most significant first.
pub open spec fn be_digits(n: nat, radix: nat, count: nat) -> Seq<u8>
    decreases count,
{
    if count == 0 {
        Seq::empty()
    } else {
        be_digits(n / radix, radix, (count - 1) as nat).push((n % radix) as u8)
    }
}

/// The shortest digit string that spells `n` in radix `radix`, most significant first.
/// Zero is spelled by the empty string.
pub open spec fn min_be_digits(n: nat, radix: nat) -> Seq<u8>
    decreases n,
{
    if n == 0 || radix < 2 {
        Seq::empty()
    } else {
        proof {
            assert(n / radix < n) by (nonlinear_arith)
                requires
                    n > 0,
                    radix >= 2,
            ;
        }
        min_be_digits(n / radix, radix).push((n % radix) as u8)
    }
}

/// Every digit is a digit of radix `radix`.
pub open spec fn digits_below(digits: Seq<u8>, radix: nat) -> bool {
    forall|i: int| 0 <= i < digits.len() ==> (#[trigger] digits[i] as nat) < radix
}

/// `n` copies of `x`.
pub open spec fn repeat(x: u8, n: nat) -> Seq<u8> {
    Seq::new(n, |i: int| x)
}

/// How many copies of `x` stand at the front of `s`.
pub open spec fn count_leading(s: Seq<u8>, x: u8) -> nat
    decreases s.len(),
{
    if s.len() == 0 || s[0] != x {
        0
    } else {
        1 + count_leading(s.drop_first(), x)
    }
}

/// A power of a positive number is positive.
pub proof fn lemma_pow_positive(b: nat, e: nat)
    requires
        b > 0,
    ensures
        pow(b, e) > 0,
    decreases e,
{
    if e > 0 {
        lemma_pow_positive(b, (e - 1) as nat);
        assert(b * pow(b, (e - 1) as nat) > 0) by (nonlinear_arith)
            requires
                b > 0,
                pow(b, (e - 1) as nat) > 0,
        ;
    }
}

/// Exponents add where powers are multiplied.
pub proof fn lemma_pow_add(b: nat, m: nat, n: nat)
    ensures
        pow(b, m + n) == pow(b, m) * pow(b, n),
    decreases m,
{
    if m == 0 {
        assert(pow(b, m) == 1);
        assert(1 * pow(b, n) == pow(b, n)) by (nonlinear_arith);
    } else {
        lemma_pow_add(b, (m - 1) as nat, n);
        let x = pow(b, (m - 1) as nat);
        let y = pow(b, n);
        assert(pow(b, m + n) == b * pow(b, ((m + n) - 1) as nat));
        assert(((m + n) - 1) as nat == (m - 1) as nat + n);
        assert(b * (x * y) == (b * x) * y) by (nonlinear_arith);
    }
}

/// Exponents multiply where a power is raised to a power.
pub proof fn lemma_pow_mul(b: nat, m: nat, n: nat)
    ensures
        pow(pow(b, m), n) == pow(b, m * n),
    decreases n,
{
    if n == 0 {
        assert(m * n == 0) by (nonlinear_arith)
            requires
                n == 0,
        ;
    } else {
        lemma_pow_mul(b, m, (n - 1) as nat);
        lemma_pow_add(b, m, m * ((n - 1) as nat));
        assert(m + m * ((n - 1) as nat) == m * n) by (nonlinear_arith)
            requires
                n > 0,
        ;
    }
}

/// A greater exponent gives no smaller power.
pub proof fn lemma_pow_monotonic(b: nat, m: nat, n: nat)
    requires
        b > 0,
        m <= n,
    ensures
        pow(b, m) <= pow(b, n),
    decreases n,
{
    if m < n {
        lemma_pow_monotonic(b, m, (n - 1) as nat);
        lemma_pow_positive(b, (n - 1) as nat);
        assert(pow(b, (n - 1) as nat) <= b * pow(b, (n - 1) as nat)) by (nonlinear_arith)
            requires
                b > 0,
        ;
    }
}

/// A greater base gives no smaller power.
pub proof fn lemma_pow_base_monotonic(a: nat, b: nat, e: nat)
    requires
        a <= b,
    ensures
        pow(a, e) <= pow(b, e),
    decreases e,
{
    if e > 0 {
        lemma_pow_base_monotonic(a, b, (e - 1) as nat);
        assert(a * pow(a, (e - 1) as nat) <= b * pow(b, (e - 1) as nat)) by (nonlinear_arith)
            requires
                a <= b,
                pow(a, (e - 1) as nat) <= pow(b, (e - 1) as nat),
        ;
    }
}

/// One more digit at the end: the value times the radix, and the digit.
pub proof fn lemma_be_value_push(s: Seq<u8>, d: u8, radix: nat)
    ensures
        be_value(s.push(d), radix) == be_value(s, radix) * radix + d as nat,
{
    assert(s.push(d).drop_last() =~= s);
}

/// A single digit spells itself.
pub proof fn lemma_be_value_single(d: u8, radix: nat)
    ensures
        be_value(seq![d], radix) == d as nat,
{
    assert(seq![d].drop_last() =~= Seq::<u8>::empty());
    assert(be_value(Seq::<u8>::empty(), radix) == 0);
    assert(0 * radix == 0) by (nonlinear_arith);
}

/// The value of digit strings one behind the other.
pub proof fn lemma_be_value_concat(a: Seq<u8>, b: Seq<u8>, radix: nat)
    ensures
        be_value(a + b, radix) == be_value(a, radix) * pow(radix, b.len()) + be_value(b, radix),
    decreases b.len(),
{
    if b.len() == 0 {
        assert(a + b =~= a);
        assert(be_value(a, radix) * 1 == be_value(a, radix)) by (nonlinear_arith);
    } else {
        let bl = b.drop_last();
        lemma_be_value_concat(a, bl, radix);
        assert((a + b).drop_last() =~= a + bl);
        let va = be_value(a, radix);
        let p = pow(radix, bl.len());
        let vb = be_value(bl, radix);
        assert(pow(radix, b.len()) == radix * p);
        assert((va * p + vb) * radix == va * (radix * p) + vb * radix) by (nonlinear_arith);
    }
}

/// Digits spell less than the radix to the power of their number.
pub proof fn lemma_be_value_bound(s: Seq<u8>, radix: nat)
    requires
        digits_below(s, radix),
    ensures
        be_value(s, radix) < pow(radix, s.len()),
    decreases s.len(),
{
    if s.len() > 0 {
        let sl = s.drop_last();
        assert(digits_below(sl, radix)) by {
            assert forall|i: int| 0 <= i < sl.len() implies (#[trigger] sl[i] as nat) < radix by {
                assert(sl[i] == s[i]);
            }
        }
        lemma_be_value_bound(sl, radix);
        let v = be_value(sl, radix);
        let p = pow(radix, sl.len());
        assert((s.last() as nat) < radix);
        assert(v * radix + radix <= radix * p) by (nonlinear_arith)
            requires
                v < p,
        ;
    }
}

/// Zeros spell zero.
pub proof fn lemma_be_value_repeat_zero(n: nat, radix: nat)
    ensures
        be_value(repeat(0, n), radix) == 0,
    decreases n,
{
    if n > 0 {
        lemma_be_value_repeat_zero((n - 1) as nat, radix);
        assert(repeat(0, n).drop_last() =~= repeat(0, (n - 1) as nat));
        assert(0 * radix == 0) by (nonlinear_arith);
    }
}

/// Zeros in front change nothing.
pub proof fn lemma_be_value_leading_zeros(n: nat, s: Seq<u8>, radix: nat)
    ensures
        be_value(repeat(0, n) + s, radix) == be_value(s, radix),
{
    lemma_be_value_concat(repeat(0, n), s, radix);
    lemma_be_value_repeat_zero(n, radix);
    assert(0 * pow(radix, s.len()) == 0) by (nonlinear_arith);
}

/// A fixed-width spelling has the width asked for.
pub proof fn lemma_be_digits_len(n: nat, radix: nat, count: nat)
    requires
        radix > 0,
    ensures
        be_digits(n, radix, count).len() == count,
    decreases count,
{
    if count > 0 {
        lemma_be_digits_len(n / radix, radix, (count - 1) as nat);
    }
}

/// The digits of a fixed-width spelling are digits of the radix.
pub proof fn lemma_be_digits_below(n: nat, radix: nat, count: nat)
    requires
        1 <= radix <= 256,
    ensures
        digits_below(be_digits(n, radix, count), radix),
    decreases count,
{
    if count > 0 {
        lemma_be_digits_below(n / radix, radix, (count - 1) as nat);
        lemma_be_digits_len(n / radix, radix, (count - 1) as nat);
        let d = be_digits(n, radix, count);
        let dl = be_digits(n / radix, radix, (count - 1) as nat);
        assert forall|i: int| 0 <= i < d.len() implies (#[trigger] d[i] as nat) < radix by {
            if i < count - 1 {
                assert(d[i] == dl[i]);
            } else {
                assert(n % radix < radix);
            }
        }
    }
}

/// A fixed-width spelling holds the number modulo `radix` to the power `count`.
pub proof fn lemma_be_digits_value(n: nat, radix: nat, count: nat)
    requires
        1 <= radix <= 256,
    ensures
        be_value(be_digits(n, radix, count), radix) == n % pow(radix, count),
    decreases count,
{
    if count == 0 {
        assert(n % 1 == 0);
    } else {
        let c1 = (count - 1) as nat;
        lemma_be_digits_value(n / radix, radix, c1);
        lemma_be_value_push(be_digits(n / radix, radix, c1), (n % radix) as u8, radix);
        lemma_pow_positive(radix, c1);
        lemma_mod_breakdown(n as int, radix as int, pow(radix, c1) as int);
        assert(((n / radix) % pow(radix, c1)) * radix == radix * ((n / radix) % pow(radix, c1)))
            by (nonlinear_arith);
        assert(n % radix < 256);
    }
}

/// Spelling a value with as many digits as it was read from gives the digits back.
pub proof fn lemma_be_value_digits(s: Seq<u8>, radix: nat)
    requires
        digits_below(s, radix),
    ensures
        be_digits(be_value(s, radix), radix, s.len()) == s,
    decreases s.len(),
{
    if s.len() > 0 {
        let sl = s.drop_last();
        assert forall|i: int| 0 <= i < sl.len() implies (#[trigger] sl[i] as nat) < radix by {
            assert(sl[i] == s[i]);
        }
        lemma_be_value_digits(sl, radix);
        let v = be_value(s, radix);
        assert((s.last() as nat) < radix);
        lemma_fundamental_div_mod_converse(
            v as int,
            radix as int,
            be_value(sl, radix) as int,
            s.last() as int,
        );
        assert(be_digits(v, radix, s.len()) =~= sl.push(s.last()));
        assert(sl.push(s.last()) =~= s);
    } else {
        assert(be_digits(be_value(s, radix), radix, 0) =~= s);
    }
}

/// A fixed-width spelling of a number that fits is determined by the number alone.
pub proof fn lemma_be_value_injective(a: Seq<u8>, b: Seq<u8>, radix: nat)
    requires
        digits_below(a, radix),
        digits_below(b, radix),
        a.len() == b.len(),
        be_value(a, radix) == be_value(b, radix),
    ensures
        a == b,
{
    lemma_be_value_digits(a, radix);
    lemma_be_value_digits(b, radix);
}

/// The digits of the shortest spelling are digits of the radix.
pub proof fn lemma_min_be_digits_below(n: nat, radix: nat)
    requires
        2 <= radix <= 256,
    ensures
        digits_below(min_be_digits(n, radix), radix),
    decreases n,
{
    if n > 0 {
        assert(n / radix < n) by (nonlinear_arith)
            requires
                n > 0,
                radix >= 2,
        ;
        lemma_min_be_digits_below(n / radix, radix);
        let d = min_be_digits(n, radix);
        let dl = min_be_digits(n / radix, radix);
        assert forall|i: int| 0 <= i < d.len() implies (#[trigger] d[i] as nat) < radix by {
            if i < dl.len() {
                assert(d[i] == dl[i]);
            } else {
                assert(n % radix < radix);
            }
        }
    }
}

/// The shortest spelling spells the number, and does not start with a zero.
pub proof fn lemma_min_be_digits_value(n: nat, radix: nat)
    requires
        2 <= radix <= 256,
    ensures
        be_value(min_be_digits(n, radix), radix) == n,
        n > 0 ==> min_be_digits(n, radix).len() > 0 && min_be_digits(n, radix)[0] != 0,
        n == 0 ==> min_be_digits(n, radix).len() == 0,
    decreases n,
{
    if n > 0 {
        assert(n / radix < n) by (nonlinear_arith)
            requires
                n > 0,
                radix >= 2,
        ;
        lemma_min_be_digits_value(n / radix, radix);
        let dl = min_be_digits(n / radix, radix);
        lemma_be_value_push(dl, (n % radix) as u8, radix);
        lemma_fundamental_div_mod(n as int, radix as int);
        assert(n % radix < 256);
        assert((n / radix) * radix == radix * (n / radix)) by (nonlinear_arith);
        if n / radix == 0 {
            assert(n % radix == n);
            assert(min_be_digits(n, radix)[0] == (n % radix) as u8);
        } else {
            assert(min_be_digits(n, radix)[0] == dl[0]);
        }
    }
}

/// A digit string without a leading zero is the shortest spelling of its value.
pub proof fn lemma_min_be_digits_of_value(s: Seq<u8>, radix: nat)
    requires
        2 <= radix <= 256,
        digits_below(s, radix),
        s.len() > 0 ==> s[0] != 0,
    ensures
        min_be_digits(be_value(s, radix), radix) == s,
        s.len() > 0 ==> be_value(s, radix) > 0,
    decreases s.len(),
{
    if s.len() == 0 {
        assert(min_be_digits(0, radix) =~= s);
    } else {
        let sl = s.drop_last();
        let v = be_value(s, radix);
        assert forall|i: int| 0 <= i < sl.len() implies (#[trigger] sl[i] as nat) < radix by {
            assert(sl[i] == s[i]);
        }
        assert((s.last() as nat) < radix);
        if sl.len() > 0 {
            assert(sl[0] == s[0]);
        }
        lemma_min_be_digits_of_value(sl, radix);
        lemma_fundamental_div_mod_converse(
            v as int,
            radix as int,
            be_value(sl, radix) as int,
            s.last() as int,
        );
        if sl.len() == 0 {
            assert(s.last() == s[0]);
            assert(be_value(sl, radix) == 0);
            assert(0 * radix == 0) by (nonlinear_arith);
            assert(v == s.last() as nat);
        } else {
            assert(be_value(sl, radix) * radix >= radix) by (nonlinear_arith)
                requires
                    be_value(sl, radix) > 0,
            ;
        }
        assert(v > 0);
        assert(min_be_digits(v, radix) =~= sl.push(s.last()));
        assert(sl.push(s.last()) =~= s);
    }
}

/// The length of the shortest spelling is the number's order of magnitude.
pub proof fn lemma_min_be_digits_magnitude(n: nat, radix: nat)
    requires
        2 <= radix <= 256,
    ensures
        n < pow(radix, min_be_digits(n, radix).len()),
        n > 0 ==> pow(radix, (min_be_digits(n, radix).len() - 1) as nat) <= n,
    decreases n,
{
    if n > 0 {
        assert(n / radix < n) by (nonlinear_arith)
            requires
                n > 0,
                radix >= 2,
        ;
        lemma_min_be_digits_magnitude(n / radix, radix);
        lemma_min_be_digits_value(n / radix, radix);
        lemma_fundamental_div_mod(n as int, radix as int);
        let l1 = min_be_digits(n / radix, radix).len();
        let q = n / radix;
        assert(min_be_digits(n, radix).len() == l1 + 1);
        assert(pow(radix, l1 + 1) == radix * pow(radix, l1));
        assert(radix * q + radix <= radix * pow(radix, l1)) by (nonlinear_arith)
            requires
                q < pow(radix, l1),
        ;
        if q > 0 {
            assert(pow(radix, l1) == radix * pow(radix, (l1 - 1) as nat));
            assert(radix * pow(radix, (l1 - 1) as nat) <= radix * q) by (nonlinear_arith)
                requires
                    pow(radix, (l1 - 1) as nat) <= q,
            ;
        }
    }
}

/// A number below `radix` to the power `count` has at most `count` digits.
pub proof fn lemma_min_be_digits_len_bound(n: nat, radix: nat, count: nat)
    requires
        2 <= radix <= 256,
        n < pow(radix, count),
    ensures
        min_be_digits(n, radix).len() <= count,
{
    let len = min_be_digits(n, radix).len();
    lemma_min_be_digits_value(n, radix);
    if len > count {
        lemma_min_be_digits_magnitude(n, radix);
        lemma_pow_monotonic(radix, count, (len - 1) as nat);
    }
}

/// What `count_leading` counts: `z` copies of `x`, then the end or something else.
pub proof fn lemma_count_leading_is(s: Seq<u8>, x: u8, z: nat)
    requires
        z <= s.len(),
        forall|i: int| 0 <= i < z ==> s[i] == x,
        z == s.len() || s[z as int] != x,
    ensures
        count_leading(s, x) == z,
    decreases s.len(),
{
    if z > 0 {
        let t = s.drop_first();
        assert forall|i: int| 0 <= i < z - 1 implies t[i] == x by {
            assert(t[i] == s[i + 1]);
        }
        if z < s.len() {
            assert(t[z - 1] == s[z as int]);
        }
        lemma_count_leading_is(t, x, (z - 1) as nat);
    }
}

/// The converse: what holds of the count.
pub proof fn lemma_count_leading_holds(s: Seq<u8>, x: u8)
    ensures
        count_leading(s, x) <= s.len(),
        forall|i: int| 0 <= i < count_leading(s, x) ==> s[i] == x,
        count_leading(s, x) == s.len() || s[count_leading(s, x) as int] != x,
    decreases s.len(),
{
    if s.len() > 0 && s[0] == x {
        let t = s.drop_first();
        lemma_count_leading_holds(t, x);
        let z = count_leading(s, x);
        assert forall|i: int| 0 <= i < z implies s[i] == x by {
            if i > 0 {
                assert(t[i - 1] == s[i]);
            }
        }
        if z < s.len() {
            assert(t[z - 1] == s[z as int]);
        }
    }
}

/// A number that fits into `k` digits has zeros in front of them.
pub proof fn lemma_be_digits_high_zeros(n: nat, radix: nat, count: nat, k: nat)
    requires
        2 <= radix <= 256,
        k <= count,
        n < pow(radix, k),
    ensures
        be_digits(n, radix, count) == repeat(0, (count - k) as nat) + be_digits(n, radix, k),
{
    let a = be_digits(n, radix, count);
    let z = repeat(0, (count - k) as nat);
    let d = be_digits(n, radix, k);
    lemma_be_digits_len(n, radix, count);
    lemma_be_digits_len(n, radix, k);
    lemma_be_digits_below(n, radix, count);
    lemma_be_digits_below(n, radix, k);
    lemma_be_digits_value(n, radix, count);
    lemma_be_digits_value(n, radix, k);
    lemma_pow_monotonic(radix, k, count);
    vstd::arithmetic::div_mod::lemma_small_mod(n, pow(radix, k));
    vstd::arithmetic::div_mod::lemma_small_mod(n, pow(radix, count));
    lemma_be_value_leading_zeros((count - k) as nat, d, radix);
    assert(digits_below(z + d, radix)) by {
        assert forall|i: int| 0 <= i < (z + d).len() implies (#[trigger] (z + d)[i] as nat)
            < radix by {
            if i >= z.len() {
                assert((z + d)[i] == d[i - z.len()]);
                assert((d[i - z.len()] as nat) < radix);
            }
        }
    }
    lemma_be_value_injective(a, z + d, radix);
}

/// A multiple of the radix to the power `count - k` has as many zeros at the end.
pub proof fn lemma_be_digits_low_zeros(n: nat, radix: nat, count: nat, k: nat)
    requires
        2 <= radix <= 256,
        k <= count,
        n < pow(radix, count),
        n % pow(radix, (count - k) as nat) == 0,
    ensures
        be_digits(n, radix, count) == be_digits(
            n / pow(radix, (count - k) as nat),
            radix,
            k,
        ) + repeat(0, (count - k) as nat),
{
    let p = pow(radix, (count - k) as nat);
    let q = n / p;
    let a = be_digits(n, radix, count);
    let z = repeat(0, (count - k) as nat);
    let d = be_digits(q, radix, k);
    lemma_pow_positive(radix, (count - k) as nat);
    lemma_pow_add(radix, k, (count - k) as nat);
    lemma_fundamental_div_mod(n as int, p as int);
    assert(q < pow(radix, k)) by (nonlinear_arith)
        requires
            n == p * q,
            n < pow(radix, k) * p,
            p > 0,
    ;
    lemma_be_digits_len(n, radix, count);
    lemma_be_digits_len(q, radix, k);
    lemma_be_digits_below(n, radix, count);
    lemma_be_digits_below(q, radix, k);
    lemma_be_digits_value(n, radix, count);
    lemma_be_digits_value(q, radix, k);
    vstd::arithmetic::div_mod::lemma_small_mod(q, pow(radix, k));
    vstd::arithmetic::div_mod::lemma_small_mod(n, pow(radix, count));
    lemma_be_value_concat(d, z, radix);
    lemma_be_value_repeat_zero((count - k) as nat, radix);
    assert(q * p == p * q) by (nonlinear_arith);
    assert(digits_below(d + z, radix)) by {
        assert forall|i: int| 0 <= i < (d + z).len() implies (#[trigger] (d + z)[i] as nat)
            < radix by {
            if i < d.len() {
                assert((d + z)[i] == d[i]);
                assert((d[i] as nat) < radix);
            }
        }
    }
    lemma_be_value_injective(a, d + z, radix);
}

} // verus!
