//! Big unsigned integers over 32-bit limbs, most significant limb first.
//!
//! [`BigUintView`] works in a caller-supplied buffer of fixed capacity and reports
//! an overflow where the number outgrows it; [`BigUint`] owns its limbs and grows.
use crate::radix::{
    be_digits, be_value, digits_below, lemma_be_digits_below, lemma_be_digits_len,
    lemma_be_digits_value, lemma_be_value_concat, lemma_be_value_injective, lemma_be_value_single,
    lemma_min_be_digits_below, lemma_min_be_digits_len_bound, lemma_min_be_digits_of_value,
    lemma_min_be_digits_value, lemma_pow_monotonic, lemma_pow_mul, lemma_pow_positive,
    min_be_digits, pow,
};
use vstd::arithmetic::div_mod::{lemma_fundamental_div_mod, lemma_fundamental_div_mod_converse};
use vstd::prelude::*;

verus! {

/// The radix of a limb, 2 to the power 32.
pub open spec fn limb_radix() -> nat {
    0x1_0000_0000
}

/// The number that `limbs` spell, most significant limb first.
pub open spec fn limbs_value(limbs: Seq<u32>) -> nat
    decreases limbs.len(),
{
    if limbs.len() == 0 {
        0
    } else {
        limbs_value(limbs.drop_last()) * limb_radix() + limbs.last() as nat
    }
}

/// The bytes of `limbs`, four to a limb, most significant first.
pub open spec fn limbs_bytes(limbs: Seq<u32>) -> Seq<u8>
    decreases limbs.len(),
{
    if limbs.len() == 0 {
        Seq::empty()
    } else {
        limbs_bytes(limbs.drop_last()) + be_digits(limbs.last() as nat, 256, 4)
    }
}

/// Four bytes make a limb.
pub proof fn lemma_limb_radix()
    ensures
        pow(256, 4) == limb_radix(),
        pow(256, 1) == 256,
        pow(256, 2) == 0x1_0000,
        pow(256, 3) == 0x100_0000,
{
    reveal_with_fuel(pow, 5);
}

/// The value of limbs one behind the other.
pub proof fn lemma_limbs_value_concat(a: Seq<u32>, b: Seq<u32>)
    ensures
        limbs_value(a + b) == limbs_value(a) * pow(limb_radix(), b.len()) + limbs_value(b),
    decreases b.len(),
{
    if b.len() == 0 {
        assert(a + b =~= a);
        assert(limbs_value(a) * 1 == limbs_value(a)) by (nonlinear_arith);
    } else {
        let bl = b.drop_last();
        lemma_limbs_value_concat(a, bl);
        assert((a + b).drop_last() =~= a + bl);
        let va = limbs_value(a);
        let p = pow(limb_radix(), bl.len());
        let vb = limbs_value(bl);
        let r = limb_radix();
        assert(pow(r, b.len()) == r * p);
        assert((va * p + vb) * r == va * (r * p) + vb * r) by (nonlinear_arith);
    }
}

/// The value of a limb in front of others.
pub proof fn lemma_limbs_value_first(s: Seq<u32>)
    requires
        s.len() > 0,
    ensures
        limbs_value(s) == s[0] as nat * pow(limb_radix(), (s.len() - 1) as nat) + limbs_value(
            s.drop_first(),
        ),
{
    let a = seq![s[0]];
    assert(a + s.drop_first() =~= s);
    lemma_limbs_value_concat(a, s.drop_first());
    assert(a.drop_last() =~= Seq::<u32>::empty());
    assert(limbs_value(a.drop_last()) == 0);
    assert(0 * limb_radix() == 0) by (nonlinear_arith);
    assert(limbs_value(a) == s[0] as nat);
}

/// Limbs spell less than the radix to the power of their number.
pub proof fn lemma_limbs_value_bound(s: Seq<u32>)
    ensures
        limbs_value(s) < pow(limb_radix(), s.len()),
    decreases s.len(),
{
    if s.len() > 0 {
        lemma_limbs_value_bound(s.drop_last());
        let v = limbs_value(s.drop_last());
        let p = pow(limb_radix(), (s.len() - 1) as nat);
        let r = limb_radix();
        assert(v * r + r <= r * p) by (nonlinear_arith)
            requires
                v < p,
        ;
    }
}

/// A number whose first limb is not zero is at least the radix to the power of the
/// number of limbs behind it.
pub proof fn lemma_limbs_value_magnitude(s: Seq<u32>)
    requires
        s.len() > 0,
        s[0] != 0,
    ensures
        limbs_value(s) >= pow(limb_radix(), (s.len() - 1) as nat),
{
    lemma_limbs_value_first(s);
    let p = pow(limb_radix(), (s.len() - 1) as nat);
    assert(s[0] as nat * p >= p) by (nonlinear_arith)
        requires
            s[0] as nat >= 1,
    ;
}

/// Every limb has four bytes.
pub proof fn lemma_limbs_bytes_len(s: Seq<u32>)
    ensures
        limbs_bytes(s).len() == 4 * s.len(),
    decreases s.len(),
{
    if s.len() > 0 {
        lemma_limbs_bytes_len(s.drop_last());
        lemma_be_digits_len(s.last() as nat, 256, 4);
    }
}

/// The bytes of the limbs spell the same number in radix 256.
pub proof fn lemma_limbs_bytes_value(s: Seq<u32>)
    ensures
        be_value(limbs_bytes(s), 256) == limbs_value(s),
        digits_below(limbs_bytes(s), 256),
    decreases s.len(),
{
    if s.len() > 0 {
        let sl = s.drop_last();
        let last = be_digits(s.last() as nat, 256, 4);
        lemma_limbs_bytes_value(sl);
        lemma_be_value_concat(limbs_bytes(sl), last, 256);
        lemma_be_digits_value(s.last() as nat, 256, 4);
        lemma_be_digits_len(s.last() as nat, 256, 4);
        lemma_limb_radix();
        assert((s.last() as nat) % limb_radix() == s.last() as nat);
    }
}

/// The first limb without its leading zero bytes, then four bytes for each limb
/// behind it.
pub open spec fn minimal_bytes(digits: Seq<u32>) -> Seq<u8> {
    if digits.len() == 0 {
        Seq::empty()
    } else {
        min_be_digits(digits[0] as nat, 256) + limbs_bytes(digits.drop_first())
    }
}

/// Where the first limb is not zero, these bytes are the shortest big-endian
/// spelling of the number.
pub proof fn lemma_minimal_bytes(d: Seq<u32>)
    requires
        d.len() > 0 ==> d[0] != 0,
    ensures
        minimal_bytes(d) == min_be_digits(limbs_value(d), 256),
{
    if d.len() > 0 {
        let first = min_be_digits(d[0] as nat, 256);
        let rest = limbs_bytes(d.drop_first());
        lemma_min_be_digits_value(d[0] as nat, 256);
        lemma_min_be_digits_below(d[0] as nat, 256);
        lemma_limbs_bytes_value(d.drop_first());
        lemma_limbs_bytes_len(d.drop_first());
        lemma_be_value_concat(first, rest, 256);
        lemma_limbs_value_first(d);
        lemma_pow_mul(256, 4, (d.len() - 1) as nat);
        lemma_limb_radix();
        assert(4 * ((d.len() - 1) as nat) == rest.len());
        assert(be_value(first + rest, 256) == limbs_value(d));
        assert((first + rest)[0] == first[0]);
        assert(digits_below(first + rest, 256));
        lemma_min_be_digits_of_value(first + rest, 256);
    }
}

/// The limbs of `limbs` from `start` on.
pub open spec fn limbs_from(limbs: Seq<u32>, start: int) -> Seq<u32> {
    limbs.subrange(start, limbs.len() as int)
}

/// Divides the number in `chunks[start..]` by `divider`. Returns the remainder and
/// the new start, behind the limbs that the division left zero at the front.
fn div_mod_limbs(chunks: &mut [u32], start: usize, divider: u32) -> (r: (u32, usize))
    requires
        start <= old(chunks)@.len(),
        divider > 0,
    ensures
        final(chunks)@.len() == old(chunks)@.len(),
        start <= r.1 <= old(chunks)@.len(),
        limbs_value(limbs_from(final(chunks)@, r.1 as int)) == limbs_value(
            limbs_from(old(chunks)@, start as int),
        ) / (divider as nat),
        r.0 as nat == limbs_value(limbs_from(old(chunks)@, start as int)) % (divider as nat),
        r.1 < old(chunks)@.len() ==> final(chunks)@[r.1 as int] != 0,
        forall|j: int| 0 <= j < start ==> final(chunks)@[j] == old(chunks)@[j],
        forall|j: int| start <= j < r.1 ==> final(chunks)@[j] == 0,
{
    let len = chunks.len();
    let ghost old_limbs = chunks@;
    let ghost s0 = start as int;
    let mut carry: u64 = 0;
    let mut i: usize = start;
    proof {
        assert(old_limbs.subrange(s0, s0) =~= Seq::<u32>::empty());
        assert(limbs_value(Seq::<u32>::empty()) == 0);
        assert(0 * (divider as nat) == 0) by (nonlinear_arith);
    }
    while i < len
        invariant
            chunks@.len() == len,
            s0 == start,
            s0 <= i <= len,
            old_limbs.len() == len,
            carry < divider,
            forall|j: int| i <= j < len ==> chunks@[j] == old_limbs[j],
            forall|j: int| 0 <= j < s0 ==> chunks@[j] == old_limbs[j],
            limbs_value(old_limbs.subrange(s0, i as int)) == limbs_value(
                chunks@.subrange(s0, i as int),
            ) * (divider as nat) + carry as nat,
        decreases len - i,
    {
        let chunk = chunks[i];
        assert(carry * 0x1_0000_0000 + chunk < divider * 0x1_0000_0000) by (nonlinear_arith)
            requires
                carry < divider,
                chunk < 0x1_0000_0000,
        ;
        assert(divider * 0x1_0000_0000 <= 0xffff_ffff * 0x1_0000_0000) by (nonlinear_arith)
            requires
                divider <= 0xffff_ffff,
        ;
        let cur: u64 = carry * 0x1_0000_0000 + chunk as u64;
        let q: u64 = cur / (divider as u64);
        let r: u64 = cur % (divider as u64);
        proof {
            lemma_fundamental_div_mod(cur as int, divider as int);
            assert(q < 0x1_0000_0000) by (nonlinear_arith)
                requires
                    cur < divider * 0x1_0000_0000,
                    cur == divider * q + r,
                    0 <= r,
                    divider > 0,
            ;
        }
        let ghost before = chunks@;
        chunks[i] = q as u32;
        proof {
            let op = old_limbs.subrange(s0, i as int);
            let np = before.subrange(s0, i as int);
            assert(old_limbs.subrange(s0, i + 1).drop_last() =~= op);
            assert(chunks@.subrange(s0, i + 1).drop_last() =~= np);
            let d = divider as nat;
            let vn = limbs_value(np);
            let rr = limb_radix();
            assert((vn * d + carry as nat) * rr + chunk as nat == (vn * rr + q as nat) * d
                + r as nat) by (nonlinear_arith)
                requires
                    carry as nat * rr + chunk as nat == d * q as nat + r as nat,
            ;
        }
        carry = r;
        i += 1;
    }
    let ghost old_value = limbs_value(limbs_from(old_limbs, s0));
    proof {
        let vn = limbs_value(chunks@.subrange(s0, len as int));
        lemma_fundamental_div_mod_converse(
            old_value as int,
            divider as int,
            vn as int,
            carry as int,
        );
    }
    let mut first: usize = start;
    while first < len && chunks[first] == 0
        invariant
            chunks@.len() == len,
            s0 <= first <= len,
            forall|j: int| s0 <= j < first ==> chunks@[j] == 0,
            limbs_value(chunks@.subrange(first as int, len as int)) == old_value / (
            divider as nat),
        decreases len - first,
    {
        proof {
            let s = chunks@.subrange(first as int, len as int);
            lemma_limbs_value_first(s);
            assert(s.drop_first() =~= chunks@.subrange(first + 1, len as int));
            assert(0 * pow(limb_radix(), (s.len() - 1) as nat) == 0) by (nonlinear_arith);
        }
        first += 1;
    }
    (carry as u32, first)
}

/// Multiplies the number in `chunks[start..]` by `multiplicator` and adds
/// `addition`. Returns the new start: `start`, or the limb in front of it where the
/// result needs one more. Fails where it needs one more and `start` is 0.
fn mul_add_limbs(chunks: &mut [u32], start: usize, multiplicator: u32, addition: u32) -> (r:
    Result<usize, ()>)
    requires
        start <= old(chunks)@.len(),
    ensures
        final(chunks)@.len() == old(chunks)@.len(),
        r is Err <==> start == 0 && limbs_value(limbs_from(old(chunks)@, start as int)) * (
        multiplicator as nat) + addition as nat >= pow(limb_radix(), old(chunks)@.len()),
        r matches Ok(s) ==> (s == start || s + 1 == start) && limbs_value(
            limbs_from(final(chunks)@, s as int),
        ) == limbs_value(limbs_from(old(chunks)@, start as int)) * (multiplicator as nat)
            + addition as nat,
        r matches Ok(s) ==> forall|j: int| 0 <= j < s ==> final(chunks)@[j] == old(chunks)@[j],
        r is Err ==> limbs_value(final(chunks)@) == (limbs_value(old(chunks)@) * (
        multiplicator as nat) + addition as nat) % pow(limb_radix(), old(chunks)@.len()),
        r matches Ok(s) ==> (s + 1 == start <==> limbs_value(limbs_from(old(chunks)@, start as int))
            * (multiplicator as nat) + addition as nat >= pow(
            limb_radix(),
            (old(chunks)@.len() - start) as nat,
        )),
        r matches Ok(s) ==> (multiplicator > 0 && (start < old(chunks)@.len() ==> old(
            chunks,
        )@[start as int] != 0) ==> (s < old(chunks)@.len() ==> final(chunks)@[s as int] != 0)),
{
    let len = chunks.len();
    let ghost old_limbs = chunks@;
    let ghost s0 = start as int;
    let ghost m = multiplicator as nat;
    let mut carry: u64 = addition as u64;
    let mut i: usize = len;
    proof {
        assert(old_limbs.subrange(len as int, len as int) =~= Seq::<u32>::empty());
        assert(limbs_value(Seq::<u32>::empty()) == 0);
        assert(0 * m == 0) by (nonlinear_arith);
        assert(addition as nat * 1 == addition as nat) by (nonlinear_arith);
    }
    while i > start
        invariant
            chunks@.len() == len,
            s0 == start,
            s0 <= i <= len,
            old_limbs.len() == len,
            carry <= 0xffff_ffff,
            m == multiplicator as nat,
            forall|j: int| 0 <= j < i ==> chunks@[j] == old_limbs[j],
            limbs_value(chunks@.subrange(i as int, len as int)) + carry as nat * pow(
                limb_radix(),
                (len - i) as nat,
            ) == limbs_value(old_limbs.subrange(i as int, len as int)) * m + addition as nat,
        decreases i,
    {
        let chunk = chunks[i - 1];
        assert(carry + chunk * multiplicator <= 0xffff_ffff + 0xffff_ffff * 0xffff_ffff)
            by (nonlinear_arith)
            requires
                carry <= 0xffff_ffff,
                chunk <= 0xffff_ffff,
                multiplicator <= 0xffff_ffff,
        ;
        let prod: u64 = (chunk as u64) * (multiplicator as u64);
        assert(prod as nat == chunk as nat * m) by (nonlinear_arith)
            requires
                prod as int == (chunk as int) * (multiplicator as int),
                m == multiplicator as nat,
        ;
        let t: u64 = carry + prod;
        let low: u64 = t % 0x1_0000_0000;
        let high: u64 = t / 0x1_0000_0000;
        let ghost before = chunks@;
        chunks[i - 1] = low as u32;
        proof {
            let k = (len - i) as nat;
            let rr = limb_radix();
            let p = pow(rr, k);
            let ns = chunks@.subrange(i - 1, len as int);
            let os = old_limbs.subrange(i - 1, len as int);
            lemma_limbs_value_first(ns);
            lemma_limbs_value_first(os);
            assert(ns.drop_first() =~= before.subrange(i as int, len as int));
            assert(os.drop_first() =~= old_limbs.subrange(i as int, len as int));
            let vn = limbs_value(before.subrange(i as int, len as int));
            let vo = limbs_value(old_limbs.subrange(i as int, len as int));
            assert(pow(rr, k + 1) == rr * p);
            assert(t == high * 0x1_0000_0000 + low);
            assert(carry as nat + chunk as nat * m == high as nat * rr + low as nat);
            assert(low as nat * p + vn + high as nat * (rr * p) == (chunk as nat * p + vo) * m
                + addition as nat) by (nonlinear_arith)
                requires
                    vn + carry as nat * p == vo * m + addition as nat,
                    carry as nat + chunk as nat * m == high as nat * rr + low as nat,
            ;
        }
        carry = high;
        i -= 1;
    }
    let ghost n = (len - s0) as nat;
    proof {
        lemma_limbs_value_bound(chunks@.subrange(s0, len as int));
        if carry > 0 {
            assert(carry as nat * pow(limb_radix(), n) >= pow(limb_radix(), n))
                by (nonlinear_arith)
                requires
                    carry as nat >= 1,
            ;
        } else {
            assert(0 * pow(limb_radix(), n) == 0) by (nonlinear_arith);
        }
    }
    if carry > 0 {
        if start > 0 {
            let ghost before = chunks@;
            chunks[start - 1] = carry as u32;
            proof {
                let ns = chunks@.subrange(s0 - 1, len as int);
                lemma_limbs_value_first(ns);
                assert(ns.drop_first() =~= before.subrange(s0, len as int));
            }
            Ok(start - 1)
        } else {
            proof {
                let radix = pow(limb_radix(), len as nat);
                let total = limbs_value(old_limbs) * m + addition as nat;
                let rest = limbs_value(chunks@);
                assert(chunks@.subrange(0, len as int) =~= chunks@);
                assert(old_limbs.subrange(0, len as int) =~= old_limbs);
                assert(carry as nat * radix == radix * carry as nat) by (nonlinear_arith);
                lemma_fundamental_div_mod_converse(
                    total as int,
                    radix as int,
                    carry as int,
                    rest as int,
                );
            }
            Err(())
        }
    } else {
        proof {
            if multiplicator > 0 && s0 < len && old_limbs[s0] != 0 {
                let ns = chunks@.subrange(s0, len as int);
                let os = old_limbs.subrange(s0, len as int);
                lemma_limbs_value_magnitude(os);
                assert(limbs_value(os) * m >= limbs_value(os)) by (nonlinear_arith)
                    requires
                        m >= 1,
                ;
                if ns[0] == 0 {
                    lemma_limbs_value_first(ns);
                    lemma_limbs_value_bound(ns.drop_first());
                    assert(0 * pow(limb_radix(), (ns.len() - 1) as nat) == 0)
                        by (nonlinear_arith);
                }
            }
        }
        Ok(start)
    }
}

/// Writes the number that `bytes` spell into the last limbs of `chunks`, clears the
/// limbs in front of it and returns its start. Fails, and changes nothing, where
/// the bytes need more limbs than there are. `bytes` is not empty.
fn load_limbs(chunks: &mut [u32], bytes: &[u8]) -> (r: Option<usize>)
    requires
        bytes@.len() > 0,
    ensures
        final(chunks)@.len() == old(chunks)@.len(),
        r is Some <==> bytes@.len() <= 4 * old(chunks)@.len(),
        r matches Some(s) ==> s <= old(chunks)@.len() && limbs_value(
            limbs_from(final(chunks)@, s as int),
        ) == be_value(bytes@, 256) && (s < old(chunks)@.len() ==> final(chunks)@[s as int] != 0)
            && forall|j: int| 0 <= j < s ==> final(chunks)@[j] == 0,
        r is None ==> final(chunks)@ == old(chunks)@,
{
    let byte_len = bytes.len();
    let len = chunks.len();
    let needed: usize = byte_len / 4 + if byte_len % 4 != 0 {
        1usize
    } else {
        0usize
    };
    if needed > len {
        return None;
    }
    let start = len - needed;
    let mut z: usize = 0;
    while z < start
        invariant
            chunks@.len() == len,
            z <= start <= len,
            forall|j: int| 0 <= j < z ==> chunks@[j] == 0,
        decreases start - z,
    {
        chunks[z] = 0;
        z += 1;
    }
    let mut byte_idx: usize = byte_len;
    let mut i: usize = len;
    proof {
        assert(chunks@.subrange(len as int, len as int) =~= Seq::<u32>::empty());
        assert(bytes@.subrange(byte_len as int, byte_len as int) =~= Seq::<u8>::empty());
    }
    while i > start
        invariant
            chunks@.len() == len,
            start == len - needed,
            needed <= len,
            start <= i <= len,
            byte_len == bytes@.len(),
            byte_len > 0,
            needed == byte_len / 4 + if byte_len % 4 != 0 {
                1int
            } else {
                0int
            },
            i > start ==> byte_idx == byte_len - 4 * (len - i),
            i == start ==> byte_idx == 0,
            byte_idx <= byte_len,
            forall|j: int| 0 <= j < start ==> chunks@[j] == 0,
            limbs_value(chunks@.subrange(i as int, len as int)) == be_value(
                bytes@.subrange(byte_idx as int, byte_len as int),
                256,
            ),
        decreases i,
    {
        let ghost group_end = byte_idx as int;
        let mut chunk: u64 = 0;
        let mut mult: u64 = 1;
        let mut taken: usize = 0;
        proof {
            assert(bytes@.subrange(group_end, group_end) =~= Seq::<u8>::empty());
        }
        while taken < 4 && byte_idx > 0
            invariant
                byte_len == bytes@.len(),
                0 <= byte_idx <= group_end <= byte_len,
                taken <= 4,
                taken == group_end - byte_idx,
                mult as nat == pow(256, taken as nat),
                chunk < mult,
                chunk as nat == be_value(bytes@.subrange(byte_idx as int, group_end), 256),
            decreases byte_idx,
        {
            proof {
                lemma_limb_radix();
                reveal_with_fuel(pow, 5);
            }
            byte_idx -= 1;
            let b = bytes[byte_idx];
            proof {
                let one = seq![b];
                let rest = bytes@.subrange(byte_idx + 1, group_end);
                assert(one + rest =~= bytes@.subrange(byte_idx as int, group_end));
                lemma_be_value_concat(one, rest, 256);
                lemma_be_value_single(b, 256);
                assert(b * mult + chunk < 256 * mult) by (nonlinear_arith)
                    requires
                        b < 256,
                        chunk < mult,
                ;
            }
            chunk = chunk + (b as u64) * mult;
            mult = mult * 256;
            taken += 1;
        }
        proof {
            lemma_limb_radix();
            lemma_pow_positive(256, taken as nat);
            if taken < 4 {
                lemma_pow_monotonic(256, taken as nat, 3);
            }
        }
        let ghost before = chunks@;
        chunks[i - 1] = chunk as u32;
        proof {
            let ns = chunks@.subrange(i - 1, len as int);
            lemma_limbs_value_first(ns);
            assert(ns.drop_first() =~= before.subrange(i as int, len as int));
            let group = bytes@.subrange(byte_idx as int, group_end);
            let tail = bytes@.subrange(group_end, byte_len as int);
            assert(group + tail =~= bytes@.subrange(byte_idx as int, byte_len as int));
            lemma_be_value_concat(group, tail, 256);
            lemma_pow_mul(256, 4, (len - i) as nat);
            assert(tail.len() == 4 * (len - i));
        }
        i -= 1;
    }
    proof {
        assert(bytes@.subrange(0, byte_len as int) =~= bytes@);
    }
    let mut first: usize = start;
    while first < len && chunks[first] == 0
        invariant
            chunks@.len() == len,
            first <= len,
            forall|j: int| 0 <= j < first ==> chunks@[j] == 0,
            limbs_value(chunks@.subrange(first as int, len as int)) == be_value(bytes@, 256),
        decreases len - first,
    {
        proof {
            let s = chunks@.subrange(first as int, len as int);
            lemma_limbs_value_first(s);
            assert(s.drop_first() =~= chunks@.subrange(first + 1, len as int));
            assert(0 * pow(limb_radix(), (s.len() - 1) as nat) == 0) by (nonlinear_arith);
        }
        first += 1;
    }
    Some(first)
}

/// Writes the number in `chunks[start..]` to the front of `out`: the first limb
/// without its leading zero bytes, then four bytes for each limb behind it.
/// Fails, and writes nothing, where `out` is too short.
fn copy_limbs(chunks: &[u32], start: usize, out: &mut [u8]) -> (r: Result<usize, ()>)
    requires
        start <= chunks@.len(),
    ensures
        final(out)@.len() == old(out)@.len(),
        r is Ok <==> minimal_bytes(limbs_from(chunks@, start as int)).len() <= old(out)@.len(),
        r matches Ok(n) ==> n == minimal_bytes(limbs_from(chunks@, start as int)).len()
            && final(out)@ == minimal_bytes(limbs_from(chunks@, start as int)) + old(
            out,
        )@.subrange(n as int, old(out)@.len() as int),
        r is Err ==> final(out)@ == old(out)@,
{
    let len = chunks.len();
    let ghost digits = limbs_from(chunks@, start as int);
    if start >= len {
        proof {
            assert(digits =~= Seq::<u32>::empty());
            assert(Seq::<u8>::empty() + old(out)@.subrange(0, old(out)@.len() as int) =~= old(
                out,
            )@);
        }
        return Ok(0);
    }
    let out_len = out.len();
    let first = chunks[start];
    let first_len = limb_len(first);
    let rest = len - start - 1;
    proof {
        lemma_limbs_bytes_len(digits.drop_first());
        assert(digits[0] == first);
        assert(minimal_bytes(digits).len() == first_len + 4 * rest);
    }
    if rest > (usize::MAX - first_len) / 4 {
        return Err(());
    }
    let total = first_len + 4 * rest;
    if out_len < total {
        return Err(());
    }
    let ghost out0 = out@;
    write_limb(out, 0, first, first_len);
    let mut i: usize = start + 1;
    let mut out_idx: usize = first_len;
    proof {
        assert(digits.drop_first().subrange(0, 0) =~= Seq::<u32>::empty());
        assert(out@.subrange(0, first_len as int) =~= min_be_digits(first as nat, 256)
            + limbs_bytes(Seq::<u32>::empty()));
    }
    while i < len
        invariant
            chunks@.len() == len,
            start < i <= len,
            out@.len() == out0.len(),
            total <= out@.len(),
            total == first_len + 4 * (len - start - 1),
            out_idx == first_len + 4 * (i - start - 1),
            digits == limbs_from(chunks@, start as int),
            out@.subrange(0, out_idx as int) == min_be_digits(first as nat, 256) + limbs_bytes(
                digits.drop_first().subrange(0, i - start - 1),
            ),
            forall|j: int| out_idx <= j < out0.len() ==> out@[j] == out0[j],
        decreases len - i,
    {
        let ghost before = out@;
        let limb = chunks[i];
        write_limb(out, out_idx, limb, 4);
        proof {
            let k = i - start - 1;
            let tail = digits.drop_first();
            assert(tail.subrange(0, k + 1).drop_last() =~= tail.subrange(0, k));
            assert(tail.subrange(0, k + 1).last() == limb);
            assert(out@.subrange(0, out_idx + 4) =~= before.subrange(0, out_idx as int)
                + be_digits(limb as nat, 256, 4));
        }
        out_idx += 4;
        i += 1;
    }
    proof {
        let tail = digits.drop_first();
        assert(tail.subrange(0, tail.len() as int) =~= tail);
        assert(out@ =~= out@.subrange(0, out_idx as int) + out0.subrange(
            out_idx as int,
            out0.len() as int,
        ));
    }
    Ok(out_idx)
}

/// A buffer of fixed capacity used as one big unsigned integer.
///
/// The limbs from `start` on are the number, most significant first; those in front
/// of `start` are not part of it. `start` equal to the capacity is zero.
pub struct BigUintView<'a> {
    chunks: &'a mut [u32],
    start: usize,
}

impl<'a> BigUintView<'a> {
    /// The start lies within the buffer.
    pub open spec fn wf(&self) -> bool {
        self.start() <= self.capacity()
    }

    /// All limbs of the buffer.
    pub closed spec fn limbs(&self) -> Seq<u32> {
        self.chunks@
    }

    /// The index of the first limb that belongs to the number.
    pub closed spec fn start(&self) -> nat {
        self.start as nat
    }

    /// The number of limbs in the buffer.
    pub open spec fn capacity(&self) -> nat {
        self.limbs().len()
    }

    /// The limbs that belong to the number.
    pub open spec fn digits(&self) -> Seq<u32> {
        limbs_from(self.limbs(), self.start() as int)
    }

    /// The number itself.
    pub open spec fn value(&self) -> nat {
        limbs_value(self.digits())
    }

    /// The first limb of the number is not zero.
    pub open spec fn normalized(&self) -> bool {
        self.start() < self.capacity() ==> self.limbs()[self.start() as int] != 0
    }

    /// The bytes that [`BigUintView::copy_into_bytes_be`] emits. Of a normalized
    /// number they are its shortest big-endian spelling.
    pub open spec fn be_bytes(&self) -> Seq<u8> {
        minimal_bytes(self.digits())
    }

    /// Takes `chunks` as the buffer, clears it and starts at zero.
    pub fn new(chunks: &'a mut [u32]) -> (r: Self)
        ensures
            r.wf(),
            r.capacity() == old(chunks)@.len(),
            r.start() == r.capacity(),
            r.value() == 0,
            r.normalized(),
            forall|i: int| 0 <= i < r.capacity() ==> r.limbs()[i] == 0,
    {
        let len = chunks.len();
        let mut i: usize = 0;
        while i < len
            invariant
                chunks@.len() == len,
                i <= len,
                forall|j: int| 0 <= j < i ==> chunks@[j] == 0,
            decreases len - i,
        {
            chunks[i] = 0;
            i += 1;
        }
        let r = BigUintView { chunks, start: len };
        assert(r.digits() =~= Seq::<u32>::empty());
        r
    }

    /// Divides the number by `divider` and returns the remainder. Limbs that the
    /// division left zero at the front leave the number.
    pub fn div_mod(&mut self, divider: u32) -> (rem: u32)
        requires
            old(self).wf(),
            divider > 0,
        ensures
            final(self).wf(),
            final(self).value() == old(self).value() / (divider as nat),
            rem as nat == old(self).value() % (divider as nat),
            final(self).capacity() == old(self).capacity(),
            old(self).start() <= final(self).start() <= final(self).capacity(),
            final(self).normalized(),
    {
        let (rem, start) = div_mod_limbs(self.chunks, self.start, divider);
        self.start = start;
        rem
    }

    /// Multiplies the number by `multiplicator` and adds `addition`. Where the
    /// result needs one more limb, the number takes the limb in front of `start`;
    /// where there is none, the call fails.
    pub fn mul_add(&mut self, multiplicator: u32, addition: u32) -> (r: Result<(), ()>)
        requires
            old(self).wf(),
        ensures
            final(self).wf(),
            final(self).capacity() == old(self).capacity(),
            r is Err <==> old(self).start() == 0 && old(self).value() * (multiplicator as nat)
                + addition as nat >= pow(limb_radix(), old(self).capacity()),
            r is Ok ==> final(self).value() == old(self).value() * (multiplicator as nat)
                + addition as nat,
            r is Ok ==> final(self).start() == old(self).start() || final(self).start() + 1
                == old(self).start(),
            r is Ok && multiplicator > 0 && old(self).normalized() ==> final(self).normalized(),
            r is Err ==> final(self).start() == 0 && final(self).value() == (old(self).value() * (
            multiplicator as nat) + addition as nat) % pow(limb_radix(), old(self).capacity()),
            r is Ok ==> (final(self).start() + 1 == old(self).start() <==> old(self).value() * (
            multiplicator as nat) + addition as nat >= pow(
                limb_radix(),
                (old(self).capacity() - old(self).start()) as nat,
            )),
    {
        match mul_add_limbs(self.chunks, self.start, multiplicator, addition) {
            Ok(start) => {
                self.start = start;
                Ok(())
            },
            Err(()) => {
                proof {
                    assert(limbs_from(self.chunks@, 0) =~= self.chunks@);
                    assert(limbs_from(old(self).chunks@, 0) =~= old(self).chunks@);
                }
                Err(())
            },
        }
    }

    /// Whether the number has no limbs. Of a normalized number: whether it is zero.
    pub fn is_zero(&self) -> (r: bool)
        requires
            self.wf(),
        ensures
            r <==> self.start() >= self.capacity(),
            self.normalized() ==> (r <==> self.value() == 0),
    {
        proof {
            if self.start < self.chunks@.len() {
                if self.normalized() {
                    lemma_limbs_value_magnitude(self.digits());
                    lemma_pow_positive(limb_radix(), (self.digits().len() - 1) as nat);
                }
            } else {
                assert(self.digits() =~= Seq::<u32>::empty());
            }
        }
        self.start >= self.chunks.len()
    }

    /// Sets the number to the one that `bytes` spell, most significant byte first.
    /// Fails, and changes nothing, where the bytes need more limbs than the buffer has.
    pub fn load_be_bytes(&mut self, bytes: &[u8]) -> (ok: bool)
        requires
            old(self).wf(),
        ensures
            final(self).wf(),
            final(self).capacity() == old(self).capacity(),
            ok <==> bytes@.len() <= 4 * old(self).capacity(),
            ok ==> final(self).value() == be_value(bytes@, 256) && final(self).normalized(),
            ok && bytes@.len() > 0 ==> forall|j: int|
                0 <= j < final(self).start() ==> final(self).limbs()[j] == 0,
            bytes@.len() == 0 ==> final(self).limbs() == old(self).limbs(),
            !ok ==> final(self).limbs() == old(self).limbs() && final(self).start() == old(
                self,
            ).start(),
    {
        if bytes.len() == 0 {
            self.start = self.chunks.len();
            assert(self.digits() =~= Seq::<u32>::empty());
            return true;
        }
        match load_limbs(self.chunks, bytes) {
            Some(start) => {
                self.start = start;
                true
            },
            None => false,
        }
    }

    /// Writes the number to the front of `out`, most significant byte first, and
    /// returns how many bytes that took. Fails, and writes nothing, where `out` is
    /// too short.
    pub fn copy_into_bytes_be(&self, out: &mut [u8]) -> (r: Result<usize, ()>)
        requires
            self.wf(),
        ensures
            final(out)@.len() == old(out)@.len(),
            r is Ok <==> self.be_bytes().len() <= old(out)@.len(),
            r matches Ok(n) ==> n == self.be_bytes().len() && final(out)@ == self.be_bytes() + old(
                out,
            )@.subrange(n as int, old(out)@.len() as int),
            r is Err ==> final(out)@ == old(out)@,
    {
        copy_limbs(self.chunks, self.start, out)
    }
}

/// Limbs that are zero at the front do not count.
pub proof fn lemma_limbs_value_skip_zeros(s: Seq<u32>, k: int)
    requires
        0 <= k <= s.len(),
        forall|j: int| 0 <= j < k ==> s[j] == 0,
    ensures
        limbs_value(s) == limbs_value(limbs_from(s, k)),
    decreases k,
{
    if k > 0 {
        lemma_limbs_value_first(s);
        let t = s.drop_first();
        assert forall|j: int| 0 <= j < k - 1 implies t[j] == 0 by {
            assert(t[j] == s[j + 1]);
        }
        lemma_limbs_value_skip_zeros(t, k - 1);
        assert(t.subrange(k - 1, t.len() as int) =~= s.subrange(k, s.len() as int));
        assert(0 * pow(limb_radix(), (s.len() - 1) as nat) == 0) by (nonlinear_arith);
    } else {
        assert(s.subrange(0, s.len() as int) =~= s);
    }
}

/// A big unsigned integer that owns its limbs, most significant first, and grows
/// when it needs more of them.
pub struct BigUint {
    /// The limbs, most significant first.
    pub chunks: Vec<u32>,
}

/// The index of the first limb that is not zero, or the number of limbs.
fn first_nonzero(chunks: &[u32]) -> (r: usize)
    ensures
        r <= chunks@.len(),
        forall|j: int| 0 <= j < r ==> chunks@[j] == 0,
        r < chunks@.len() ==> chunks@[r as int] != 0,
{
    let len = chunks.len();
    let mut i: usize = 0;
    while i < len && chunks[i] == 0
        invariant
            len == chunks@.len(),
            i <= len,
            forall|j: int| 0 <= j < i ==> chunks@[j] == 0,
        decreases len - i,
    {
        i += 1;
    }
    i
}

impl BigUint {
    /// The number itself.
    pub open spec fn value(&self) -> nat {
        limbs_value(self.chunks@)
    }

    /// Zero, with room reserved for `capacity` limbs.
    pub fn with_capacity(capacity: usize) -> (r: Self)
        ensures
            r.value() == 0,
            r.chunks@ == seq![0u32],
    {
        let mut chunks: Vec<u32> = Vec::with_capacity(capacity);
        chunks.push(0);
        proof {
            lemma_limbs_value_skip_zeros(chunks@, 1);
            assert(chunks@.subrange(1, 1) =~= Seq::<u32>::empty());
        }
        BigUint { chunks }
    }

    /// Divides the number by `divider` and returns the remainder.
    pub fn div_mod(&mut self, divider: u32) -> (rem: u32)
        requires
            divider > 0,
        ensures
            final(self).value() == old(self).value() / (divider as nat),
            rem as nat == old(self).value() % (divider as nat),
            final(self).chunks@.len() == old(self).chunks@.len(),
    {
        let start = first_nonzero(self.chunks.as_slice());
        proof {
            lemma_limbs_value_skip_zeros(self.chunks@, start as int);
        }
        let (rem, first) = div_mod_limbs(self.chunks.as_mut_slice(), start, divider);
        proof {
            lemma_limbs_value_skip_zeros(self.chunks@, first as int);
        }
        rem
    }

    /// Multiplies the number by `multiplicator` and adds `addition`, with one more
    /// limb where the result needs it.
    pub fn mul_add(&mut self, multiplicator: u32, addition: u32)
        ensures
            final(self).value() == old(self).value() * (multiplicator as nat) + addition as nat,
            final(self).chunks@.len() == if old(self).chunks@.len() == 0 {
                1
            } else if old(self).chunks@[0] != 0 {
                old(self).chunks@.len() + 1
            } else {
                old(self).chunks@.len()
            },
    {
        let start = first_nonzero(self.chunks.as_slice());
        proof {
            lemma_limbs_value_skip_zeros(self.chunks@, start as int);
        }
        if start == 0 && self.chunks.len() > 0 {
            self.chunks.insert(0, 0);
            proof {
                assert(limbs_from(self.chunks@, 1) =~= old(self).chunks@);
            }
            let r = mul_add_limbs(self.chunks.as_mut_slice(), 1, multiplicator, addition);
            proof {
                lemma_limbs_value_skip_zeros(self.chunks@, r->Ok_0 as int);
            }
        } else {
            if self.chunks.len() == 0 {
                self.chunks.push(0);
            }
            let len = self.chunks.len();
            let first = first_nonzero(self.chunks.as_slice());
            let used_start = if first < len {
                first
            } else {
                len - 1
            };
            proof {
                let now = self.chunks@;
                if old(self).chunks@.len() == 0 {
                    lemma_limbs_value_skip_zeros(now, 1);
                    assert(limbs_from(now, 1) =~= Seq::<u32>::empty());
                }
                assert(limbs_value(now) == old(self).value());
                lemma_limbs_value_skip_zeros(now, used_start as int);
                if first >= len {
                    lemma_limbs_value_skip_zeros(now, len as int);
                    assert(limbs_from(now, len as int) =~= Seq::<u32>::empty());
                    assert(0 * (multiplicator as nat) == 0) by (nonlinear_arith);
                    lemma_pow_positive(limb_radix(), (len - 1) as nat);
                    assert(pow(limb_radix(), len as nat) == limb_radix() * pow(
                        limb_radix(),
                        (len - 1) as nat,
                    ));
                    assert(limb_radix() * pow(limb_radix(), (len - 1) as nat) >= limb_radix())
                        by (nonlinear_arith)
                        requires
                            pow(limb_radix(), (len - 1) as nat) >= 1,
                    ;
                }
            }
            let r = mul_add_limbs(self.chunks.as_mut_slice(), used_start, multiplicator, addition);
            proof {
                assert(r is Ok);
                lemma_limbs_value_skip_zeros(self.chunks@, r->Ok_0 as int);
            }
        }
    }

    /// Whether the number is zero.
    pub fn is_zero(&self) -> (r: bool)
        ensures
            r <==> self.value() == 0,
    {
        let start = first_nonzero(self.chunks.as_slice());
        proof {
            lemma_limbs_value_skip_zeros(self.chunks@, start as int);
            let s = limbs_from(self.chunks@, start as int);
            if start < self.chunks@.len() {
                lemma_limbs_value_magnitude(s);
                lemma_pow_positive(limb_radix(), (s.len() - 1) as nat);
            } else {
                assert(s =~= Seq::<u32>::empty());
            }
        }
        start >= self.chunks.len()
    }

    /// The number that `bytes` spell, most significant byte first.
    pub fn from_bytes_be(bytes: &[u8]) -> (r: Self)
        ensures
            r.value() == be_value(bytes@, 256),
            r.chunks@.len() == (bytes@.len() + 3) / 4,
    {
        let n = bytes.len();
        let needed: usize = n / 4 + if n % 4 != 0 {
            1usize
        } else {
            0usize
        };
        let mut chunks: Vec<u32> = vec![0u32; needed];
        if n > 0 {
            let r = load_limbs(chunks.as_mut_slice(), bytes);
            proof {
                lemma_limbs_value_skip_zeros(chunks@, r->Some_0 as int);
            }
        } else {
            assert(chunks@ =~= Seq::<u32>::empty());
        }
        BigUint { chunks }
    }

    /// The shortest big-endian spelling of the number in bytes. Zero is spelled by
    /// no byte at all.
    pub fn into_bytes_be(self) -> (out: Vec<u8>)
        ensures
            out@ == min_be_digits(self.value(), 256),
    {
        let len = self.chunks.len();
        let start = first_nonzero(self.chunks.as_slice());
        let mut out: Vec<u8> = Vec::new();
        let ghost digits = limbs_from(self.chunks@, start as int);
        proof {
            lemma_limbs_value_skip_zeros(self.chunks@, start as int);
            lemma_minimal_bytes(digits);
        }
        if start >= len {
            proof {
                assert(digits =~= Seq::<u32>::empty());
            }
            return out;
        }
        let first = self.chunks[start];
        let first_len = limb_len(first);
        let mut temp = [0u8; 4];
        write_limb(&mut temp, 0, first, first_len);
        let mut k: usize = 0;
        while k < first_len
            invariant
                k <= first_len <= 4,
                temp@.len() == 4,
                out@ == temp@.subrange(0, k as int),
            decreases first_len - k,
        {
            out.push(temp[k]);
            proof {
                assert(out@ =~= temp@.subrange(0, k + 1));
            }
            k += 1;
        }
        let mut i: usize = start + 1;
        proof {
            assert(digits.drop_first().subrange(0, 0) =~= Seq::<u32>::empty());
            assert(out@ =~= min_be_digits(first as nat, 256) + limbs_bytes(Seq::<u32>::empty()));
        }
        while i < len
            invariant
                start < i <= len,
                len == self.chunks@.len(),
                temp@.len() == 4,
                digits == limbs_from(self.chunks@, start as int),
                out@ == min_be_digits(first as nat, 256) + limbs_bytes(
                    digits.drop_first().subrange(0, i - start - 1),
                ),
            decreases len - i,
        {
            let limb = self.chunks[i];
            let ghost before = out@;
            write_limb(&mut temp, 0, limb, 4);
            let mut j: usize = 0;
            while j < 4
                invariant
                    j <= 4,
                    temp@.len() == 4,
                    out@ == before + temp@.subrange(0, j as int),
                decreases 4 - j,
            {
                out.push(temp[j]);
                proof {
                    assert(out@ =~= before + temp@.subrange(0, j + 1));
                }
                j += 1;
            }
            proof {
                let c = i - start - 1;
                let tail = digits.drop_first();
                assert(tail.subrange(0, c + 1).drop_last() =~= tail.subrange(0, c));
                assert(tail.subrange(0, c + 1).last() == limb);
                assert(out@ =~= min_be_digits(first as nat, 256) + (limbs_bytes(
                    tail.subrange(0, c),
                ) + be_digits(limb as nat, 256, 4)));
            }
            i += 1;
        }
        proof {
            let tail = digits.drop_first();
            assert(tail.subrange(0, tail.len() as int) =~= tail);
        }
        out
    }
}

/// How many bytes the shortest big-endian spelling of `limb` has.
fn limb_len(limb: u32) -> (n: usize)
    ensures
        n == min_be_digits(limb as nat, 256).len(),
        n <= 4,
        be_digits(limb as nat, 256, n as nat) == min_be_digits(limb as nat, 256),
{
    proof {
        let l = min_be_digits(limb as nat, 256).len();
        crate::radix::lemma_min_be_digits_magnitude(limb as nat, 256);
        lemma_be_digits_value(limb as nat, 256, l);
        lemma_be_digits_len(limb as nat, 256, l);
        lemma_be_digits_below(limb as nat, 256, l);
        lemma_min_be_digits_below(limb as nat, 256);
        lemma_min_be_digits_value(limb as nat, 256);
        vstd::arithmetic::div_mod::lemma_small_mod(limb as nat, pow(256, l));
        lemma_be_value_injective(
            be_digits(limb as nat, 256, l),
            min_be_digits(limb as nat, 256),
            256,
        );
        lemma_limb_radix();
        lemma_min_be_digits_value(limb as nat, 256);
        lemma_min_be_digits_len_bound(limb as nat, 256, 4);
        crate::radix::lemma_min_be_digits_magnitude(limb as nat, 256);
        let l = min_be_digits(limb as nat, 256).len();
        if l >= 1 {
            lemma_pow_monotonic(256, 1, l);
        }
        if l >= 2 {
            lemma_pow_monotonic(256, 2, l);
        }
        if l >= 3 {
            lemma_pow_monotonic(256, 3, l);
        }
        if l <= 3 {
            lemma_pow_monotonic(256, l, 3);
        }
        if l <= 2 {
            lemma_pow_monotonic(256, l, 2);
        }
        if l <= 1 {
            lemma_pow_monotonic(256, l, 1);
        }
        if l >= 1 {
            lemma_pow_monotonic(256, 0, (l - 1) as nat);
        }
        if l >= 2 {
            lemma_pow_monotonic(256, 1, (l - 1) as nat);
        }
        if l >= 3 {
            lemma_pow_monotonic(256, 2, (l - 1) as nat);
        }
        if l >= 4 {
            lemma_pow_monotonic(256, 3, (l - 1) as nat);
        }
        assert(pow(256, 0) == 1);
    }
    if limb >= 0x100_0000 {
        4
    } else if limb >= 0x1_0000 {
        3
    } else if limb >= 0x100 {
        2
    } else if limb >= 1 {
        1
    } else {
        0
    }
}

/// Writes the `count` low bytes of `limb` to `out[at..at + count]`, most
/// significant first.
fn write_limb(out: &mut [u8], at: usize, limb: u32, count: usize)
    requires
        count <= 4,
        at + count <= old(out)@.len(),
    ensures
        final(out)@.len() == old(out)@.len(),
        final(out)@.subrange(at as int, at + count) == be_digits(limb as nat, 256, count as nat),
        forall|j: int|
            0 <= j < old(out)@.len() && !(at <= j < at + count) ==> final(out)@[j] == old(out)@[j],
{
    let mut x: u32 = limb;
    let mut k: usize = count;
    let n = out.len();
    proof {
        assert(out@.subrange(at + count, at + count) =~= Seq::<u8>::empty());
    }
    while k > 0
        invariant
            k <= count <= 4,
            at + count <= out@.len(),
            out@.len() == n,
            out@.len() == old(out)@.len(),
            forall|j: int|
                0 <= j < out@.len() && !(at + k <= j < at + count) ==> out@[j] == old(out)@[j],
            be_digits(limb as nat, 256, count as nat) == be_digits(x as nat, 256, k as nat)
                + out@.subrange(at + k, at + count),
        decreases k,
    {
        let ghost before = out@;
        k -= 1;
        out[at + k] = (x % 256) as u8;
        proof {
            let d = be_digits(x as nat, 256, (k + 1) as nat);
            let dl = be_digits((x / 256) as nat, 256, k as nat);
            assert(d == dl.push((x as nat % 256) as u8));
            assert(dl.push((x % 256) as u8) + before.subrange(at + k + 1, at + count) =~= dl
                + out@.subrange(at + k, at + count));
        }
        x = x / 256;
    }
    proof {
        assert(be_digits(x as nat, 256, 0) + out@.subrange(at as int, at + count)
            =~= out@.subrange(at as int, at + count));
    }
}

} // verus!
