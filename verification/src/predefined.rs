//! Ready-made encodings: hexadecimal, base32 and base64 as RFC 4648 has them,
//! with their usual variants, and base58 and base62.
use crate::encoding::{BitOrder, Encoding, EncodingView, PaddingMode};
use crate::specification::{
    compile, compiles, keys, lemma_compiles, Specification, SpecificationErrorImpl,
    SpecificationView,
};
use crate::text::{ascii_string, is_ascii, lemma_ascii_is_utf8};
use vstd::prelude::*;

verus! {

/// `count` bytes in a row, from `first` on.
pub open spec fn run(first: u8, count: nat) -> Seq<u8> {
    Seq::new(count, |i: int| (first + i) as u8)
}

/// A specification of nothing but what is given here: no bytes to skip, and the
/// padding read in the standard way.
pub open spec fn specified(
    symbols: Seq<u8>,
    msb: bool,
    check_trailing_bits: bool,
    padding: Option<char>,
    wrap_width: nat,
    separator: Seq<u8>,
    from: Seq<u8>,
    to: Seq<u8>,
) -> SpecificationView {
    SpecificationView {
        symbols,
        msb,
        check_trailing_bits,
        padding,
        padding_mode: PaddingMode::Standard,
        ignore: Seq::empty(),
        wrap_width,
        separator,
        from,
        to,
        use_arithmetic: false,
    }
}

/// Appends `count` bytes in a row, from `first` on.
fn push_run(v: &mut Vec<u8>, first: u8, count: u8)
    requires
        first + count <= 128,
    ensures
        final(v)@ == old(v)@ + run(first, count as nat),
{
    let mut i: u8 = 0;
    while i < count
        invariant
            i <= count,
            first + count <= 128,
            v@ == old(v)@ + run(first, i as nat),
        decreases count - i,
    {
        v.push(first + i);
        proof {
            assert(v@ =~= old(v)@ + run(first, (i + 1) as nat));
        }
        i += 1;
    }
}

/// The specification of what is given.
fn specify(
    symbols: Vec<u8>,
    msb: bool,
    check_trailing_bits: bool,
    padding: Option<char>,
    wrap_width: usize,
    separator: Vec<u8>,
    from: Vec<u8>,
    to: Vec<u8>,
) -> (s: Specification)
    requires
        is_ascii(symbols@),
        is_ascii(separator@),
        is_ascii(from@),
        is_ascii(to@),
    ensures
        s@ == specified(
            symbols@,
            msb,
            check_trailing_bits,
            padding,
            wrap_width as nat,
            separator@,
            from@,
            to@,
        ),
{
    proof {
        lemma_ascii_is_utf8(symbols@);
        lemma_ascii_is_utf8(separator@);
        lemma_ascii_is_utf8(from@);
        lemma_ascii_is_utf8(to@);
        assert(vstd::utf8::encode_utf8(Seq::<char>::empty()) =~= Seq::<u8>::empty());
    }
    let mut s = Specification::new();
    s.symbols = ascii_string(symbols);
    s.bit_order = if msb {
        BitOrder::MostSignificantFirst
    } else {
        BitOrder::LeastSignificantFirst
    };
    s.check_trailing_bits = check_trailing_bits;
    s.padding = padding;
    s.wrap.width = wrap_width;
    s.wrap.separator = ascii_string(separator);
    s.translate.from = ascii_string(from);
    s.translate.to = ascii_string(to);
    s
}

/// Compiles a specification that compiles for sure.
fn build(spec: &Specification, Ghost(witness): Ghost<spec_fn(int) -> int>) -> (r: Encoding)
    requires
        compiles(spec@, witness),
    ensures
        compile(spec@) == Ok::<EncodingView, SpecificationErrorImpl>(r@),
        r@.wf(),
        r@.tidy(),
{
    proof {
        lemma_compiles(spec@, witness);
    }
    match spec.encoding() {
        Ok(e) => e,
        Err(_) => vstd::pervasive::unreached(),
    }
}

/// The digits and the letters from a to f.
pub open spec fn hexlower_alphabet() -> Seq<u8> {
    run(48, 10) + run(97, 6)
}

/// The digits and the letters from a to f.
fn hexlower_symbols() -> (v: Vec<u8>)
    ensures
        v@ == hexlower_alphabet(),
{
    let mut v: Vec<u8> = Vec::new();
    push_run(&mut v, 48, 10);
    push_run(&mut v, 97, 6);
    proof {
        assert(v@ =~= hexlower_alphabet());
    }
    v
}

/// The digits and the letters from A to F.
pub open spec fn hexupper_alphabet() -> Seq<u8> {
    run(48, 10) + run(65, 6)
}

/// The digits and the letters from A to F.
fn hexupper_symbols() -> (v: Vec<u8>)
    ensures
        v@ == hexupper_alphabet(),
{
    let mut v: Vec<u8> = Vec::new();
    push_run(&mut v, 48, 10);
    push_run(&mut v, 65, 6);
    proof {
        assert(v@ =~= hexupper_alphabet());
    }
    v
}

/// The letters from A to Z and the digits from 2 to 7.
pub open spec fn base32_alphabet() -> Seq<u8> {
    run(65, 26) + run(50, 6)
}

/// The letters from A to Z and the digits from 2 to 7.
fn base32_symbols() -> (v: Vec<u8>)
    ensures
        v@ == base32_alphabet(),
{
    let mut v: Vec<u8> = Vec::new();
    push_run(&mut v, 65, 26);
    push_run(&mut v, 50, 6);
    proof {
        assert(v@ =~= base32_alphabet());
    }
    v
}

/// The digits and the letters from A to V.
pub open spec fn base32hex_alphabet() -> Seq<u8> {
    run(48, 10) + run(65, 22)
}

/// The digits and the letters from A to V.
fn base32hex_symbols() -> (v: Vec<u8>)
    ensures
        v@ == base32hex_alphabet(),
{
    let mut v: Vec<u8> = Vec::new();
    push_run(&mut v, 48, 10);
    push_run(&mut v, 65, 22);
    proof {
        assert(v@ =~= base32hex_alphabet());
    }
    v
}

/// The digits and the letters from a to v.
pub open spec fn base32_dnssec_alphabet() -> Seq<u8> {
    run(48, 10) + run(97, 22)
}

/// The digits and the letters from a to v.
fn base32_dnssec_symbols() -> (v: Vec<u8>)
    ensures
        v@ == base32_dnssec_alphabet(),
{
    let mut v: Vec<u8> = Vec::new();
    push_run(&mut v, 48, 10);
    push_run(&mut v, 97, 22);
    proof {
        assert(v@ =~= base32_dnssec_alphabet());
    }
    v
}

/// The digits and the letters from b to z without e, i and o.
pub open spec fn base32_dnscurve_alphabet() -> Seq<u8> {
    run(48, 10) + run(98, 3) + run(102, 3) + run(106, 5) + run(112, 11)
}

/// The digits and the letters from b to z without e, i and o.
fn base32_dnscurve_symbols() -> (v: Vec<u8>)
    ensures
        v@ == base32_dnscurve_alphabet(),
{
    let mut v: Vec<u8> = Vec::new();
    push_run(&mut v, 48, 10);
    push_run(&mut v, 98, 3);
    push_run(&mut v, 102, 3);
    push_run(&mut v, 106, 5);
    push_run(&mut v, 112, 11);
    proof {
        assert(v@ =~= base32_dnscurve_alphabet());
    }
    v
}

/// The letters from A to Z and from a to z, the digits, `+` and `/`.
pub open spec fn base64_alphabet() -> Seq<u8> {
    run(65, 26) + run(97, 26) + run(48, 10) + run(43, 1) + run(47, 1)
}

/// The letters from A to Z and from a to z, the digits, `+` and `/`.
fn base64_symbols() -> (v: Vec<u8>)
    ensures
        v@ == base64_alphabet(),
{
    let mut v: Vec<u8> = Vec::new();
    push_run(&mut v, 65, 26);
    push_run(&mut v, 97, 26);
    push_run(&mut v, 48, 10);
    push_run(&mut v, 43, 1);
    push_run(&mut v, 47, 1);
    proof {
        assert(v@ =~= base64_alphabet());
    }
    v
}

/// The letters from A to Z and from a to z, the digits, `-` and `_`.
pub open spec fn base64url_alphabet() -> Seq<u8> {
    run(65, 26) + run(97, 26) + run(48, 10) + run(45, 1) + run(95, 1)
}

/// The letters from A to Z and from a to z, the digits, `-` and `_`.
fn base64url_symbols() -> (v: Vec<u8>)
    ensures
        v@ == base64url_alphabet(),
{
    let mut v: Vec<u8> = Vec::new();
    push_run(&mut v, 65, 26);
    push_run(&mut v, 97, 26);
    push_run(&mut v, 48, 10);
    push_run(&mut v, 45, 1);
    push_run(&mut v, 95, 1);
    proof {
        assert(v@ =~= base64url_alphabet());
    }
    v
}

/// The digits from 1 to 9 and the letters without I, O and l.
pub open spec fn base58_alphabet() -> Seq<u8> {
    run(49, 9) + run(65, 8) + run(74, 5) + run(80, 11) + run(97, 11) + run(109, 14)
}

/// The digits from 1 to 9 and the letters without I, O and l.
fn base58_symbols() -> (v: Vec<u8>)
    ensures
        v@ == base58_alphabet(),
{
    let mut v: Vec<u8> = Vec::new();
    push_run(&mut v, 49, 9);
    push_run(&mut v, 65, 8);
    push_run(&mut v, 74, 5);
    push_run(&mut v, 80, 11);
    push_run(&mut v, 97, 11);
    push_run(&mut v, 109, 14);
    proof {
        assert(v@ =~= base58_alphabet());
    }
    v
}

/// The digits and the letters from A to Z and from a to z.
pub open spec fn base62_alphabet() -> Seq<u8> {
    run(48, 10) + run(65, 26) + run(97, 26)
}

/// The digits and the letters from A to Z and from a to z.
fn base62_symbols() -> (v: Vec<u8>)
    ensures
        v@ == base62_alphabet(),
{
    let mut v: Vec<u8> = Vec::new();
    push_run(&mut v, 48, 10);
    push_run(&mut v, 65, 26);
    push_run(&mut v, 97, 26);
    proof {
        assert(v@ =~= base62_alphabet());
    }
    v
}

/// The specification of [`hexlower`].
pub open spec fn hexlower_view() -> SpecificationView {
    specified(
        hexlower_alphabet(),
        true,
        true,
        None,
        0,
        Seq::<u8>::empty(),
        Seq::<u8>::empty(),
        Seq::<u8>::empty(),
    )
}

/// Lowercase hexadecimal.
pub fn hexlower() -> (r: Encoding)
    ensures
        compile(hexlower_view()) == Ok::<EncodingView, SpecificationErrorImpl>(r@),
        r@.wf(),
{
    let separator: Vec<u8> = Vec::new();
    let from: Vec<u8> = Vec::new();
    let to: Vec<u8> = Vec::new();
    proof {
        assert(from@ =~= Seq::<u8>::empty());
        assert(to@ =~= Seq::<u8>::empty());
        assert(separator@ =~= Seq::<u8>::empty());
    }
    let spec = specify(
        hexlower_symbols(),
        true,
        true,
        None,
        0,
        separator,
        from,
        to,
    );
    proof {
        assert(keys(spec@) =~= hexlower_alphabet());
    }
    build(&spec, Ghost(|j: int| 0int))
}

/// The specification of [`hexlower_permissive`].
pub open spec fn hexlower_permissive_view() -> SpecificationView {
    specified(
        hexlower_alphabet(),
        true,
        true,
        None,
        0,
        Seq::<u8>::empty(),
        run(65, 6),
        run(97, 6),
    )
}

/// Lowercase hexadecimal that reads uppercase too.
pub fn hexlower_permissive() -> (r: Encoding)
    ensures
        compile(hexlower_permissive_view()) == Ok::<EncodingView, SpecificationErrorImpl>(r@),
        r@.wf(),
{
    let separator: Vec<u8> = Vec::new();
    let mut from: Vec<u8> = Vec::new();
    push_run(&mut from, 65, 6);
    let mut to: Vec<u8> = Vec::new();
    push_run(&mut to, 97, 6);
    proof {
        assert(from@ =~= run(65, 6));
        assert(to@ =~= run(97, 6));
        assert(separator@ =~= Seq::<u8>::empty());
    }
    let spec = specify(
        hexlower_symbols(),
        true,
        true,
        None,
        0,
        separator,
        from,
        to,
    );
    proof {
        assert(keys(spec@) =~= hexlower_alphabet() + run(65, 6));
    }
    build(&spec, Ghost(|j: int| 10 + j))
}

/// The specification of [`hexupper`].
pub open spec fn hexupper_view() -> SpecificationView {
    specified(
        hexupper_alphabet(),
        true,
        true,
        None,
        0,
        Seq::<u8>::empty(),
        Seq::<u8>::empty(),
        Seq::<u8>::empty(),
    )
}

/// Uppercase hexadecimal.
pub fn hexupper() -> (r: Encoding)
    ensures
        compile(hexupper_view()) == Ok::<EncodingView, SpecificationErrorImpl>(r@),
        r@.wf(),
{
    let separator: Vec<u8> = Vec::new();
    let from: Vec<u8> = Vec::new();
    let to: Vec<u8> = Vec::new();
    proof {
        assert(from@ =~= Seq::<u8>::empty());
        assert(to@ =~= Seq::<u8>::empty());
        assert(separator@ =~= Seq::<u8>::empty());
    }
    let spec = specify(
        hexupper_symbols(),
        true,
        true,
        None,
        0,
        separator,
        from,
        to,
    );
    proof {
        assert(keys(spec@) =~= hexupper_alphabet());
    }
    build(&spec, Ghost(|j: int| 0int))
}

/// The specification of [`hexupper_permissive`].
pub open spec fn hexupper_permissive_view() -> SpecificationView {
    specified(
        hexupper_alphabet(),
        true,
        true,
        None,
        0,
        Seq::<u8>::empty(),
        run(97, 6),
        run(65, 6),
    )
}

/// Uppercase hexadecimal that reads lowercase too.
pub fn hexupper_permissive() -> (r: Encoding)
    ensures
        compile(hexupper_permissive_view()) == Ok::<EncodingView, SpecificationErrorImpl>(r@),
        r@.wf(),
{
    let separator: Vec<u8> = Vec::new();
    let mut from: Vec<u8> = Vec::new();
    push_run(&mut from, 97, 6);
    let mut to: Vec<u8> = Vec::new();
    push_run(&mut to, 65, 6);
    proof {
        assert(from@ =~= run(97, 6));
        assert(to@ =~= run(65, 6));
        assert(separator@ =~= Seq::<u8>::empty());
    }
    let spec = specify(
        hexupper_symbols(),
        true,
        true,
        None,
        0,
        separator,
        from,
        to,
    );
    proof {
        assert(keys(spec@) =~= hexupper_alphabet() + run(97, 6));
    }
    build(&spec, Ghost(|j: int| 10 + j))
}

/// The specification of [`base32`].
pub open spec fn base32_view() -> SpecificationView {
    specified(
        base32_alphabet(),
        true,
        true,
        Some('='),
        0,
        Seq::<u8>::empty(),
        Seq::<u8>::empty(),
        Seq::<u8>::empty(),
    )
}

/// Base32 with padding.
pub fn base32() -> (r: Encoding)
    ensures
        compile(base32_view()) == Ok::<EncodingView, SpecificationErrorImpl>(r@),
        r@.wf(),
{
    let separator: Vec<u8> = Vec::new();
    let from: Vec<u8> = Vec::new();
    let to: Vec<u8> = Vec::new();
    proof {
        assert(from@ =~= Seq::<u8>::empty());
        assert(to@ =~= Seq::<u8>::empty());
        assert(separator@ =~= Seq::<u8>::empty());
    }
    let spec = specify(
        base32_symbols(),
        true,
        true,
        Some('='),
        0,
        separator,
        from,
        to,
    );
    proof {
        assert(keys(spec@) =~= base32_alphabet() + seq![61u8]);
    }
    build(&spec, Ghost(|j: int| 0int))
}

/// The specification of [`base32_nopad`].
pub open spec fn base32_nopad_view() -> SpecificationView {
    specified(
        base32_alphabet(),
        true,
        true,
        None,
        0,
        Seq::<u8>::empty(),
        Seq::<u8>::empty(),
        Seq::<u8>::empty(),
    )
}

/// Base32 without padding.
pub fn base32_nopad() -> (r: Encoding)
    ensures
        compile(base32_nopad_view()) == Ok::<EncodingView, SpecificationErrorImpl>(r@),
        r@.wf(),
{
    let separator: Vec<u8> = Vec::new();
    let from: Vec<u8> = Vec::new();
    let to: Vec<u8> = Vec::new();
    proof {
        assert(from@ =~= Seq::<u8>::empty());
        assert(to@ =~= Seq::<u8>::empty());
        assert(separator@ =~= Seq::<u8>::empty());
    }
    let spec = specify(
        base32_symbols(),
        true,
        true,
        None,
        0,
        separator,
        from,
        to,
    );
    proof {
        assert(keys(spec@) =~= base32_alphabet());
    }
    build(&spec, Ghost(|j: int| 0int))
}

/// The specification of [`base32_nopad_nocase`].
pub open spec fn base32_nopad_nocase_view() -> SpecificationView {
    specified(
        base32_alphabet(),
        true,
        true,
        None,
        0,
        Seq::<u8>::empty(),
        run(97, 26),
        run(65, 26),
    )
}

/// Base32 without padding that reads lowercase too.
pub fn base32_nopad_nocase() -> (r: Encoding)
    ensures
        compile(base32_nopad_nocase_view()) == Ok::<EncodingView, SpecificationErrorImpl>(r@),
        r@.wf(),
{
    let separator: Vec<u8> = Vec::new();
    let mut from: Vec<u8> = Vec::new();
    push_run(&mut from, 97, 26);
    let mut to: Vec<u8> = Vec::new();
    push_run(&mut to, 65, 26);
    proof {
        assert(from@ =~= run(97, 26));
        assert(to@ =~= run(65, 26));
        assert(separator@ =~= Seq::<u8>::empty());
    }
    let spec = specify(
        base32_symbols(),
        true,
        true,
        None,
        0,
        separator,
        from,
        to,
    );
    proof {
        assert(keys(spec@) =~= base32_alphabet() + run(97, 26));
    }
    build(&spec, Ghost(|j: int| j))
}

/// The specification of [`base32_nopad_visual`].
pub open spec fn base32_nopad_visual_view() -> SpecificationView {
    specified(
        base32_alphabet(),
        true,
        true,
        None,
        0,
        Seq::<u8>::empty(),
        seq![48u8, 49u8, 108u8, 56u8],
        seq![79u8, 73u8, 73u8, 66u8],
    )
}

/// Base32 without padding that reads `0` as `O`, `1` and `l` as `I`, and `8` as `B`.
pub fn base32_nopad_visual() -> (r: Encoding)
    ensures
        compile(base32_nopad_visual_view()) == Ok::<EncodingView, SpecificationErrorImpl>(r@),
        r@.wf(),
{
    let separator: Vec<u8> = Vec::new();
    let mut from: Vec<u8> = Vec::new();
    from.push(48);
    from.push(49);
    from.push(108);
    from.push(56);
    let mut to: Vec<u8> = Vec::new();
    to.push(79);
    to.push(73);
    to.push(73);
    to.push(66);
    proof {
        assert(from@ =~= seq![48u8, 49u8, 108u8, 56u8]);
        assert(to@ =~= seq![79u8, 73u8, 73u8, 66u8]);
        assert(separator@ =~= Seq::<u8>::empty());
    }
    let spec = specify(
        base32_symbols(),
        true,
        true,
        None,
        0,
        separator,
        from,
        to,
    );
    proof {
        assert(keys(spec@) =~= base32_alphabet() + seq![48u8, 49u8, 108u8, 56u8]);
    }
    build(&spec, Ghost(|j: int| if j == 0 { 14int } else if j == 3 { 1int } else { 8int }))
}

/// The specification of [`base32hex`].
pub open spec fn base32hex_view() -> SpecificationView {
    specified(
        base32hex_alphabet(),
        true,
        true,
        Some('='),
        0,
        Seq::<u8>::empty(),
        Seq::<u8>::empty(),
        Seq::<u8>::empty(),
    )
}

/// Base32 with the extended hexadecimal alphabet, with padding.
pub fn base32hex() -> (r: Encoding)
    ensures
        compile(base32hex_view()) == Ok::<EncodingView, SpecificationErrorImpl>(r@),
        r@.wf(),
{
    let separator: Vec<u8> = Vec::new();
    let from: Vec<u8> = Vec::new();
    let to: Vec<u8> = Vec::new();
    proof {
        assert(from@ =~= Seq::<u8>::empty());
        assert(to@ =~= Seq::<u8>::empty());
        assert(separator@ =~= Seq::<u8>::empty());
    }
    let spec = specify(
        base32hex_symbols(),
        true,
        true,
        Some('='),
        0,
        separator,
        from,
        to,
    );
    proof {
        assert(keys(spec@) =~= base32hex_alphabet() + seq![61u8]);
    }
    build(&spec, Ghost(|j: int| 0int))
}

/// The specification of [`base32hex_nopad`].
pub open spec fn base32hex_nopad_view() -> SpecificationView {
    specified(
        base32hex_alphabet(),
        true,
        true,
        None,
        0,
        Seq::<u8>::empty(),
        Seq::<u8>::empty(),
        Seq::<u8>::empty(),
    )
}

/// Base32 with the extended hexadecimal alphabet, without padding.
pub fn base32hex_nopad() -> (r: Encoding)
    ensures
        compile(base32hex_nopad_view()) == Ok::<EncodingView, SpecificationErrorImpl>(r@),
        r@.wf(),
{
    let separator: Vec<u8> = Vec::new();
    let from: Vec<u8> = Vec::new();
    let to: Vec<u8> = Vec::new();
    proof {
        assert(from@ =~= Seq::<u8>::empty());
        assert(to@ =~= Seq::<u8>::empty());
        assert(separator@ =~= Seq::<u8>::empty());
    }
    let spec = specify(
        base32hex_symbols(),
        true,
        true,
        None,
        0,
        separator,
        from,
        to,
    );
    proof {
        assert(keys(spec@) =~= base32hex_alphabet());
    }
    build(&spec, Ghost(|j: int| 0int))
}

/// The specification of [`base32_dnssec`].
pub open spec fn base32_dnssec_view() -> SpecificationView {
    specified(
        base32_dnssec_alphabet(),
        true,
        true,
        None,
        0,
        Seq::<u8>::empty(),
        run(65, 22),
        run(97, 22),
    )
}

/// Base32 as DNSSEC has it: the extended hexadecimal alphabet in lowercase, without
/// padding, reading uppercase too.
pub fn base32_dnssec() -> (r: Encoding)
    ensures
        compile(base32_dnssec_view()) == Ok::<EncodingView, SpecificationErrorImpl>(r@),
        r@.wf(),
{
    let separator: Vec<u8> = Vec::new();
    let mut from: Vec<u8> = Vec::new();
    push_run(&mut from, 65, 22);
    let mut to: Vec<u8> = Vec::new();
    push_run(&mut to, 97, 22);
    proof {
        assert(from@ =~= run(65, 22));
        assert(to@ =~= run(97, 22));
        assert(separator@ =~= Seq::<u8>::empty());
    }
    let spec = specify(
        base32_dnssec_symbols(),
        true,
        true,
        None,
        0,
        separator,
        from,
        to,
    );
    proof {
        assert(keys(spec@) =~= base32_dnssec_alphabet() + run(65, 22));
    }
    build(&spec, Ghost(|j: int| 10 + j))
}

/// The specification of [`base32_dnscurve`].
pub open spec fn base32_dnscurve_view() -> SpecificationView {
    specified(
        base32_dnscurve_alphabet(),
        false,
        true,
        None,
        0,
        Seq::<u8>::empty(),
        run(66, 3) + run(70, 3) + run(74, 5) + run(80, 11),
        run(98, 3) + run(102, 3) + run(106, 5) + run(112, 11),
    )
}

/// Base32 as DNSCurve has it: the least significant bit first, without padding,
/// reading uppercase too.
pub fn base32_dnscurve() -> (r: Encoding)
    ensures
        compile(base32_dnscurve_view()) == Ok::<EncodingView, SpecificationErrorImpl>(r@),
        r@.wf(),
{
    let separator: Vec<u8> = Vec::new();
    let mut from: Vec<u8> = Vec::new();
    push_run(&mut from, 66, 3);
    push_run(&mut from, 70, 3);
    push_run(&mut from, 74, 5);
    push_run(&mut from, 80, 11);
    let mut to: Vec<u8> = Vec::new();
    push_run(&mut to, 98, 3);
    push_run(&mut to, 102, 3);
    push_run(&mut to, 106, 5);
    push_run(&mut to, 112, 11);
    proof {
        assert(from@ =~= run(66, 3) + run(70, 3) + run(74, 5) + run(80, 11));
        assert(to@ =~= run(98, 3) + run(102, 3) + run(106, 5) + run(112, 11));
        assert(separator@ =~= Seq::<u8>::empty());
    }
    let spec = specify(
        base32_dnscurve_symbols(),
        false,
        true,
        None,
        0,
        separator,
        from,
        to,
    );
    proof {
        assert(keys(spec@) =~= base32_dnscurve_alphabet() + (run(66, 3) + run(70, 3) + run(74, 5) + run(80, 11)));
    }
    build(&spec, Ghost(|j: int| 10 + j))
}

/// The specification of [`base64`].
pub open spec fn base64_view() -> SpecificationView {
    specified(
        base64_alphabet(),
        true,
        true,
        Some('='),
        0,
        Seq::<u8>::empty(),
        Seq::<u8>::empty(),
        Seq::<u8>::empty(),
    )
}

/// Base64 with padding.
pub fn base64() -> (r: Encoding)
    ensures
        compile(base64_view()) == Ok::<EncodingView, SpecificationErrorImpl>(r@),
        r@.wf(),
{
    let separator: Vec<u8> = Vec::new();
    let from: Vec<u8> = Vec::new();
    let to: Vec<u8> = Vec::new();
    proof {
        assert(from@ =~= Seq::<u8>::empty());
        assert(to@ =~= Seq::<u8>::empty());
        assert(separator@ =~= Seq::<u8>::empty());
    }
    let spec = specify(
        base64_symbols(),
        true,
        true,
        Some('='),
        0,
        separator,
        from,
        to,
    );
    proof {
        assert(keys(spec@) =~= base64_alphabet() + seq![61u8]);
    }
    build(&spec, Ghost(|j: int| 0int))
}

/// The specification of [`base64_nopad`].
pub open spec fn base64_nopad_view() -> SpecificationView {
    specified(
        base64_alphabet(),
        true,
        true,
        None,
        0,
        Seq::<u8>::empty(),
        Seq::<u8>::empty(),
        Seq::<u8>::empty(),
    )
}

/// Base64 without padding.
pub fn base64_nopad() -> (r: Encoding)
    ensures
        compile(base64_nopad_view()) == Ok::<EncodingView, SpecificationErrorImpl>(r@),
        r@.wf(),
{
    let separator: Vec<u8> = Vec::new();
    let from: Vec<u8> = Vec::new();
    let to: Vec<u8> = Vec::new();
    proof {
        assert(from@ =~= Seq::<u8>::empty());
        assert(to@ =~= Seq::<u8>::empty());
        assert(separator@ =~= Seq::<u8>::empty());
    }
    let spec = specify(
        base64_symbols(),
        true,
        true,
        None,
        0,
        separator,
        from,
        to,
    );
    proof {
        assert(keys(spec@) =~= base64_alphabet());
    }
    build(&spec, Ghost(|j: int| 0int))
}

/// The specification of [`base64_mime`].
pub open spec fn base64_mime_view() -> SpecificationView {
    specified(
        base64_alphabet(),
        true,
        true,
        Some('='),
        76,
        seq![13u8, 10u8],
        Seq::<u8>::empty(),
        Seq::<u8>::empty(),
    )
}

/// Base64 as MIME has it: with padding, in lines of 76 symbols that end in a carriage
/// return and a line feed.
pub fn base64_mime() -> (r: Encoding)
    ensures
        compile(base64_mime_view()) == Ok::<EncodingView, SpecificationErrorImpl>(r@),
        r@.wf(),
{
    let mut separator: Vec<u8> = Vec::new();
    separator.push(13);
    separator.push(10);
    let from: Vec<u8> = Vec::new();
    let to: Vec<u8> = Vec::new();
    proof {
        assert(from@ =~= Seq::<u8>::empty());
        assert(to@ =~= Seq::<u8>::empty());
        assert(separator@ =~= seq![13u8, 10u8]);
    }
    let spec = specify(
        base64_symbols(),
        true,
        true,
        Some('='),
        76,
        separator,
        from,
        to,
    );
    proof {
        assert(keys(spec@) =~= base64_alphabet() + seq![61u8] + seq![13u8, 10u8]);
    }
    build(&spec, Ghost(|j: int| 0int))
}

/// The specification of [`base64_mime_permissive`].
pub open spec fn base64_mime_permissive_view() -> SpecificationView {
    specified(
        base64_alphabet(),
        true,
        false,
        Some('='),
        76,
        seq![13u8, 10u8],
        Seq::<u8>::empty(),
        Seq::<u8>::empty(),
    )
}

/// Base64 as MIME has it, with trailing bits not checked.
pub fn base64_mime_permissive() -> (r: Encoding)
    ensures
        compile(base64_mime_permissive_view()) == Ok::<EncodingView, SpecificationErrorImpl>(r@),
        r@.wf(),
{
    let mut separator: Vec<u8> = Vec::new();
    separator.push(13);
    separator.push(10);
    let from: Vec<u8> = Vec::new();
    let to: Vec<u8> = Vec::new();
    proof {
        assert(from@ =~= Seq::<u8>::empty());
        assert(to@ =~= Seq::<u8>::empty());
        assert(separator@ =~= seq![13u8, 10u8]);
    }
    let spec = specify(
        base64_symbols(),
        true,
        false,
        Some('='),
        76,
        separator,
        from,
        to,
    );
    proof {
        assert(keys(spec@) =~= base64_alphabet() + seq![61u8] + seq![13u8, 10u8]);
    }
    build(&spec, Ghost(|j: int| 0int))
}

/// The specification of [`base64url`].
pub open spec fn base64url_view() -> SpecificationView {
    specified(
        base64url_alphabet(),
        true,
        true,
        Some('='),
        0,
        Seq::<u8>::empty(),
        Seq::<u8>::empty(),
        Seq::<u8>::empty(),
    )
}

/// Base64 with the alphabet for URLs and file names, with padding.
pub fn base64url() -> (r: Encoding)
    ensures
        compile(base64url_view()) == Ok::<EncodingView, SpecificationErrorImpl>(r@),
        r@.wf(),
{
    let separator: Vec<u8> = Vec::new();
    let from: Vec<u8> = Vec::new();
    let to: Vec<u8> = Vec::new();
    proof {
        assert(from@ =~= Seq::<u8>::empty());
        assert(to@ =~= Seq::<u8>::empty());
        assert(separator@ =~= Seq::<u8>::empty());
    }
    let spec = specify(
        base64url_symbols(),
        true,
        true,
        Some('='),
        0,
        separator,
        from,
        to,
    );
    proof {
        assert(keys(spec@) =~= base64url_alphabet() + seq![61u8]);
    }
    build(&spec, Ghost(|j: int| 0int))
}

/// The specification of [`base64url_nopad`].
pub open spec fn base64url_nopad_view() -> SpecificationView {
    specified(
        base64url_alphabet(),
        true,
        true,
        None,
        0,
        Seq::<u8>::empty(),
        Seq::<u8>::empty(),
        Seq::<u8>::empty(),
    )
}

/// Base64 with the alphabet for URLs and file names, without padding.
pub fn base64url_nopad() -> (r: Encoding)
    ensures
        compile(base64url_nopad_view()) == Ok::<EncodingView, SpecificationErrorImpl>(r@),
        r@.wf(),
{
    let separator: Vec<u8> = Vec::new();
    let from: Vec<u8> = Vec::new();
    let to: Vec<u8> = Vec::new();
    proof {
        assert(from@ =~= Seq::<u8>::empty());
        assert(to@ =~= Seq::<u8>::empty());
        assert(separator@ =~= Seq::<u8>::empty());
    }
    let spec = specify(
        base64url_symbols(),
        true,
        true,
        None,
        0,
        separator,
        from,
        to,
    );
    proof {
        assert(keys(spec@) =~= base64url_alphabet());
    }
    build(&spec, Ghost(|j: int| 0int))
}

/// The specification of [`base58`].
pub open spec fn base58_view() -> SpecificationView {
    specified(
        base58_alphabet(),
        true,
        true,
        None,
        0,
        Seq::<u8>::empty(),
        Seq::<u8>::empty(),
        Seq::<u8>::empty(),
    )
}

/// Base58 with the alphabet of Bitcoin.
pub fn base58() -> (r: Encoding)
    ensures
        compile(base58_view()) == Ok::<EncodingView, SpecificationErrorImpl>(r@),
        r@.wf(),
{
    let separator: Vec<u8> = Vec::new();
    let from: Vec<u8> = Vec::new();
    let to: Vec<u8> = Vec::new();
    proof {
        assert(from@ =~= Seq::<u8>::empty());
        assert(to@ =~= Seq::<u8>::empty());
        assert(separator@ =~= Seq::<u8>::empty());
    }
    let spec = specify(
        base58_symbols(),
        true,
        true,
        None,
        0,
        separator,
        from,
        to,
    );
    proof {
        assert(keys(spec@) =~= base58_alphabet());
    }
    build(&spec, Ghost(|j: int| 0int))
}

/// The specification of [`base62`].
pub open spec fn base62_view() -> SpecificationView {
    specified(
        base62_alphabet(),
        true,
        true,
        None,
        0,
        Seq::<u8>::empty(),
        Seq::<u8>::empty(),
        Seq::<u8>::empty(),
    )
}

/// Base62.
pub fn base62() -> (r: Encoding)
    ensures
        compile(base62_view()) == Ok::<EncodingView, SpecificationErrorImpl>(r@),
        r@.wf(),
{
    let separator: Vec<u8> = Vec::new();
    let from: Vec<u8> = Vec::new();
    let to: Vec<u8> = Vec::new();
    proof {
        assert(from@ =~= Seq::<u8>::empty());
        assert(to@ =~= Seq::<u8>::empty());
        assert(separator@ =~= Seq::<u8>::empty());
    }
    let spec = specify(
        base62_symbols(),
        true,
        true,
        None,
        0,
        separator,
        from,
        to,
    );
    proof {
        assert(keys(spec@) =~= base62_alphabet());
    }
    build(&spec, Ghost(|j: int| 0int))
}

} // verus!
