//! The specification of an encoding, and how it is compiled.
use crate::block::{enc, enc_of, IGNORE, INVALID, lemma_block_shape, PADDING, radix_of, valid_bit};
use crate::encoding::{BitOrder, Encoding, EncodingView, marks_ignored, PaddingMode};
use crate::radix::repeat;
use crate::text::is_ascii;
use vstd::prelude::*;
use vstd::utf8::encode_utf8;

verus! {

/// Bytes that stand for other bytes when decoding: `from[i]` is read as `to[i]`.
#[derive(Debug, Clone)]
pub struct Translate {
    /// The bytes to read differently.
    pub from: String,
    /// What they are read as.
    pub to: String,
}

/// Lines: behind every `width` symbols of a text stands `separator`.
#[derive(Debug, Clone)]
pub struct Wrap {
    /// How many symbols a line has. With 0 the text is not wrapped.
    pub width: usize,
    /// What ends a line. Where it is empty the text is not wrapped.
    pub separator: String,
}

/// What an encoding is to be.
#[derive(Debug, Clone)]
pub struct Specification {
    /// The alphabet: the symbol of value 0 first.
    pub symbols: String,
    /// Which bit of a byte comes first.
    pub bit_order: BitOrder,
    /// Whether the bits behind the last whole byte must be zero.
    pub check_trailing_bits: bool,
    /// The padding.
    pub padding: Option<char>,
    /// How the padding is read.
    pub padding_mode: PaddingMode,
    /// Bytes to skip when decoding.
    pub ignore: String,
    /// Lines.
    pub wrap: Wrap,
    /// Bytes that stand for other bytes when decoding.
    pub translate: Translate,
    /// Take the arithmetic codec whatever the size of the alphabet.
    pub use_arithmetic: bool,
}

/// Why a specification is no encoding.
#[derive(Debug, Clone, Copy, PartialEq, Eq, Structural)]
pub enum SpecificationErrorImpl {
    /// The alphabet has fewer than 2 symbols, or the block codec is asked for and
    /// its size is none of 2, 4, 8, 16, 32 and 64.
    BadSize,
    /// A byte is not ASCII.
    NotAscii,
    /// The byte is given two meanings.
    Duplicate(u8),
    /// There is a padding where blocks are never short of symbols.
    ExtraPadding,
    /// The width of a line is 256 or more.
    WrapLength,
    /// The separator has more than 15 bytes.
    WrapSeparator,
    /// The width of a line is no multiple of the number of symbols of a block,
    /// which is given.
    WrapWidth(u8),
    /// There are not as many bytes to translate as bytes to translate them to.
    FromTo,
    /// The byte to translate to has no meaning.
    Undefined(u8),
}

/// Why a specification is no encoding.
#[derive(Debug, Clone, Copy, PartialEq, Eq, Structural)]
pub struct SpecificationError(pub SpecificationErrorImpl);

impl SpecificationError {
    /// A few words for the rule that the specification breaks.
    pub fn description(&self) -> (r: &'static str)
        ensures
            r@ == match self.0 {
                SpecificationErrorImpl::BadSize => "invalid number of symbols"@,
                SpecificationErrorImpl::NotAscii => "non-ascii character"@,
                SpecificationErrorImpl::Duplicate(_) => "conflicting definitions"@,
                SpecificationErrorImpl::ExtraPadding => "unnecessary padding"@,
                SpecificationErrorImpl::WrapLength => "invalid wrap width or separator length"@,
                SpecificationErrorImpl::WrapSeparator => "invalid wrap separator"@,
                SpecificationErrorImpl::WrapWidth(_) => "wrap width mismatch"@,
                SpecificationErrorImpl::FromTo => "translate mismatch"@,
                SpecificationErrorImpl::Undefined(_) => "undefined character"@,
            },
    {
        match self.0 {
            SpecificationErrorImpl::BadSize => "invalid number of symbols",
            SpecificationErrorImpl::NotAscii => "non-ascii character",
            SpecificationErrorImpl::Duplicate(_) => "conflicting definitions",
            SpecificationErrorImpl::ExtraPadding => "unnecessary padding",
            SpecificationErrorImpl::WrapLength => "invalid wrap width or separator length",
            SpecificationErrorImpl::WrapSeparator => "invalid wrap separator",
            SpecificationErrorImpl::WrapWidth(_) => "wrap width mismatch",
            SpecificationErrorImpl::FromTo => "translate mismatch",
            SpecificationErrorImpl::Undefined(_) => "undefined character",
        }
    }
}

/// A specification as mathematics sees it: strings are their bytes.
pub struct SpecificationView {
    /// The alphabet.
    pub symbols: Seq<u8>,
    /// Whether the most significant bit comes first.
    pub msb: bool,
    /// Whether the bits behind the last whole byte must be zero.
    pub check_trailing_bits: bool,
    /// The padding.
    pub padding: Option<char>,
    /// How the padding is read.
    pub padding_mode: PaddingMode,
    /// The bytes to skip when decoding.
    pub ignore: Seq<u8>,
    /// How many symbols a line has.
    pub wrap_width: nat,
    /// What ends a line.
    pub separator: Seq<u8>,
    /// The bytes that are read as others.
    pub from: Seq<u8>,
    /// What they are read as.
    pub to: Seq<u8>,
    pub use_arithmetic: bool,
}

impl View for Specification {
    type V = SpecificationView;

    open spec fn view(&self) -> SpecificationView {
        SpecificationView {
            symbols: encode_utf8(self.symbols@),
            msb: self.bit_order == BitOrder::MostSignificantFirst,
            check_trailing_bits: self.check_trailing_bits,
            padding: self.padding,
            padding_mode: self.padding_mode,
            ignore: encode_utf8(self.ignore@),
            wrap_width: self.wrap.width as nat,
            separator: encode_utf8(self.wrap.separator@),
            from: encode_utf8(self.translate.from@),
            to: encode_utf8(self.translate.to@),
            use_arithmetic: self.use_arithmetic,
        }
    }
}

/// How many bits a symbol of an alphabet of `n` symbols has, or 0 where `n` is no
/// size of the block codec.
pub open spec fn bit_of_size(n: nat) -> nat {
    if n == 2 {
        1
    } else if n == 4 {
        2
    } else if n == 8 {
        3
    } else if n == 16 {
        4
    } else if n == 32 {
        5
    } else if n == 64 {
        6
    } else {
        0
    }
}

/// The symbols of a byte hold no bits of another: no block is ever short of
/// symbols, and no bits ever trail.
pub open spec fn whole_bytes(bit: nat) -> bool {
    bit == 1 || bit == 2 || bit == 4
}

/// Every entry of the table satisfies `ok`.
pub open spec fn all_are(table: Seq<u8>, ok: spec_fn(u8) -> bool) -> bool {
    forall|c: int| 0 <= c < table.len() ==> ok(#[trigger] table[c])
}

/// Being a meaning that a byte can have with an alphabet of `n` symbols: a value
/// of the alphabet, or one of `INVALID`, `IGNORE` and `PADDING`.
pub open spec fn is_meaning(n: nat) -> spec_fn(u8) -> bool {
    |x: u8| (x as nat) < n || x == INVALID || x == IGNORE || x == PADDING
}

/// Not being the mark of the padding.
pub open spec fn not_padding() -> spec_fn(u8) -> bool {
    |x: u8| x != PADDING
}

/// Gives the byte `c` the meaning `x`. A byte has one meaning: to give it again
/// the one it has is in order, another is not.
pub open spec fn set_value(table: Seq<u8>, c: u8, x: u8) -> Result<
    Seq<u8>,
    SpecificationErrorImpl,
> {
    if c >= 128 {
        Err(SpecificationErrorImpl::NotAscii)
    } else if table[c as int] == x {
        Ok(table)
    } else if table[c as int] != INVALID {
        Err(SpecificationErrorImpl::Duplicate(c))
    } else {
        Ok(table.update(c as int, x))
    }
}

/// Gives each symbol from the `i`-th on its place as its value. No alphabet has
/// more than 128 symbols.
pub open spec fn set_symbols(table: Seq<u8>, symbols: Seq<u8>, i: nat) -> Result<
    Seq<u8>,
    SpecificationErrorImpl,
>
    decreases symbols.len() - i,
{
    if i >= symbols.len() {
        Ok(table)
    } else if i >= 128 {
        if symbols[i as int] >= 128 {
            Err(SpecificationErrorImpl::NotAscii)
        } else {
            Err(SpecificationErrorImpl::Duplicate(symbols[i as int]))
        }
    } else {
        match set_value(table, symbols[i as int], i as u8) {
            Err(e) => Err(e),
            Ok(next) => set_symbols(next, symbols, i + 1),
        }
    }
}

/// Gives each of `bytes` from the `i`-th on the meaning `x`.
pub open spec fn set_all(table: Seq<u8>, bytes: Seq<u8>, x: u8, i: nat) -> Result<
    Seq<u8>,
    SpecificationErrorImpl,
>
    decreases bytes.len() - i,
{
    if i >= bytes.len() {
        Ok(table)
    } else {
        match set_value(table, bytes[i as int], x) {
            Err(e) => Err(e),
            Ok(next) => set_all(next, bytes, x, i + 1),
        }
    }
}

/// Gives each of `from` from the `i`-th on the meaning that the byte of `to` in
/// its place has by then.
pub open spec fn set_translate(table: Seq<u8>, from: Seq<u8>, to: Seq<u8>, i: nat) -> Result<
    Seq<u8>,
    SpecificationErrorImpl,
>
    decreases from.len() - i,
{
    if i >= from.len() || i >= to.len() {
        Ok(table)
    } else if to[i as int] >= 128 {
        Err(SpecificationErrorImpl::NotAscii)
    } else if table[to[i as int] as int] == INVALID {
        Err(SpecificationErrorImpl::Undefined(to[i as int]))
    } else {
        match set_value(table, from[i as int], table[to[i as int] as int]) {
            Err(e) => Err(e),
            Ok(next) => set_translate(next, from, to, i + 1),
        }
    }
}

/// Gives the padding its meaning. The arithmetic codec takes a padding and does
/// not use it.
pub open spec fn set_padding(table: Seq<u8>, padding: Option<char>, arithmetic: bool, bit: nat) -> Result<
    (Seq<u8>, Option<u8>),
    SpecificationErrorImpl,
> {
    match padding {
        None => Ok((table, None)),
        Some(c) => if !arithmetic && whole_bytes(bit) {
            Err(SpecificationErrorImpl::ExtraPadding)
        } else if c as u32 >= 128 {
            Err(SpecificationErrorImpl::NotAscii)
        } else {
            match set_value(table, (c as u32) as u8, PADDING) {
                Err(e) => Err(e),
                Ok(next) => Ok(
                    (
                        next,
                        if arithmetic {
                            None
                        } else {
                            Some((c as u32) as u8)
                        },
                    ),
                ),
            }
        },
    }
}

/// Gives the bytes of the separator their meaning: they are skipped. The
/// arithmetic codec takes a wrap and does not use it.
pub open spec fn set_wrap(
    table: Seq<u8>,
    width: nat,
    separator: Seq<u8>,
    arithmetic: bool,
    bit: nat,
) -> Result<(Seq<u8>, Option<(nat, Seq<u8>)>), SpecificationErrorImpl> {
    if separator.len() == 0 || width == 0 {
        Ok((table, None))
    } else if separator.len() > 15 {
        Err(SpecificationErrorImpl::WrapSeparator)
    } else if width >= 256 {
        Err(SpecificationErrorImpl::WrapLength)
    } else if !arithmetic && width % enc_of(bit) != 0 {
        Err(SpecificationErrorImpl::WrapWidth(enc_of(bit) as u8))
    } else {
        match set_all(table, separator, IGNORE, 0) {
            Err(e) => Err(e),
            Ok(next) => Ok((next, Some((width, separator)))),
        }
    }
}

/// The table from value to symbol: the block codec has the alphabet in it over and
/// over, the arithmetic codec once, and then its first symbol.
pub open spec fn sym_table(symbols: Seq<u8>, arithmetic: bool) -> Seq<u8> {
    Seq::new(
        256,
        |i: int|
            if arithmetic {
                if i < symbols.len() {
                    symbols[i]
                } else {
                    symbols[0]
                }
            } else {
                symbols[i % (symbols.len() as int)]
            },
    )
}

/// The encoding that a specification compiles to, or why it compiles to none.
pub open spec fn compile(v: SpecificationView) -> Result<EncodingView, SpecificationErrorImpl> {
    let n = v.symbols.len();
    let arithmetic = v.use_arithmetic || bit_of_size(n) == 0;
    let bit = if arithmetic {
        0
    } else {
        bit_of_size(n)
    };
    if n < 2 {
        Err(SpecificationErrorImpl::BadSize)
    } else if arithmetic && !is_ascii(v.symbols) {
        Err(SpecificationErrorImpl::NotAscii)
    } else {
        match set_symbols(repeat(INVALID, 128), v.symbols, 0) {
            Err(e) => Err(e),
            Ok(t1) => match set_padding(t1, v.padding, arithmetic, bit) {
                Err(e) => Err(e),
                Ok((t2, pad)) => match set_all(t2, v.ignore, IGNORE, 0) {
                    Err(e) => Err(e),
                    Ok(t3) => match set_wrap(t3, v.wrap_width, v.separator, arithmetic, bit) {
                        Err(e) => Err(e),
                        Ok((t4, wrap)) => if v.from.len() != v.to.len() {
                            Err(SpecificationErrorImpl::FromTo)
                        } else {
                            match set_translate(t4, v.from, v.to, 0) {
                                Err(e) => Err(e),
                                Ok(t5) => Ok(
                                    EncodingView {
                                        sym: sym_table(v.symbols, arithmetic),
                                        val: t5,
                                        bit,
                                        msb: v.msb,
                                        ctb: v.check_trailing_bits || (!arithmetic
                                            && whole_bytes(bit)),
                                        pad,
                                        pad_mode: if pad is None {
                                            PaddingMode::NoPadding
                                        } else if v.padding_mode == PaddingMode::NoPadding {
                                            PaddingMode::Standard
                                        } else {
                                            v.padding_mode
                                        },
                                        wrap,
                                        arithmetic,
                                        base: if arithmetic {
                                            n
                                        } else {
                                            0
                                        },
                                        ignore: marks_ignored(t5),
                                    },
                                ),
                            }
                        },
                    },
                },
            },
        }
    }
}

/// A meaning once given stays.
pub proof fn lemma_set_value(table: Seq<u8>, c: u8, x: u8)
    requires
        table.len() == 128,
    ensures
        set_value(table, c, x) matches Ok(next) ==> {
            &&& next.len() == 128
            &&& c < 128
            &&& next[c as int] == x
            &&& forall|k: int| 0 <= k < 128 && k != c ==> next[k] == table[k]
            &&& forall|k: int| 0 <= k < 128 && table[k] != INVALID ==> next[k] == table[k]
        },
{
}

/// Symbols that were given their values have them, and no meaning given before
/// is lost.
pub proof fn lemma_set_symbols(table: Seq<u8>, symbols: Seq<u8>, i: nat)
    requires
        table.len() == 128,
        i <= symbols.len(),
        i <= 128,
    ensures
        set_symbols(table, symbols, i) matches Ok(next) ==> {
            &&& next.len() == 128
            &&& symbols.len() <= 128
            &&& forall|k: int| 0 <= k < 128 && table[k] != INVALID ==> next[k] == table[k]
            &&& forall|j: int|
                i <= j < symbols.len() ==> #[trigger] symbols[j] < 128 && next[symbols[j] as int]
                    == j
        },
    decreases symbols.len() - i,
{
    if i < symbols.len() && i < 128 {
        lemma_set_value(table, symbols[i as int], i as u8);
        match set_value(table, symbols[i as int], i as u8) {
            Err(e) => {},
            Ok(t1) => {
                lemma_set_symbols(t1, symbols, i + 1);
            },
        }
    }
}

/// Bytes that were given a meaning have it, and no meaning given before is lost.
pub proof fn lemma_set_all(table: Seq<u8>, bytes: Seq<u8>, x: u8, i: nat)
    requires
        table.len() == 128,
        i <= bytes.len(),
        x != INVALID,
    ensures
        set_all(table, bytes, x, i) matches Ok(next) ==> {
            &&& next.len() == 128
            &&& forall|k: int| 0 <= k < 128 && table[k] != INVALID ==> next[k] == table[k]
            &&& forall|j: int|
                i <= j < bytes.len() ==> #[trigger] bytes[j] < 128 && next[bytes[j] as int] == x
        },
    decreases bytes.len() - i,
{
    if i < bytes.len() {
        lemma_set_value(table, bytes[i as int], x);
        match set_value(table, bytes[i as int], x) {
            Err(e) => {},
            Ok(t1) => {
                lemma_set_all(t1, bytes, x, i + 1);
            },
        }
    }
}

/// No meaning given before is lost where bytes are given the meaning of others.
pub proof fn lemma_set_translate(table: Seq<u8>, from: Seq<u8>, to: Seq<u8>, i: nat)
    requires
        table.len() == 128,
        i <= from.len(),
    ensures
        set_translate(table, from, to, i) matches Ok(next) ==> {
            &&& next.len() == 128
            &&& forall|k: int| 0 <= k < 128 && table[k] != INVALID ==> next[k] == table[k]
        },
    decreases from.len() - i,
{
    if i < from.len() && i < to.len() && to[i as int] < 128 && table[to[i as int] as int]
        != INVALID {
        let x = table[to[i as int] as int];
        lemma_set_value(table, from[i as int], x);
        match set_value(table, from[i as int], x) {
            Err(e) => {},
            Ok(t1) => {
                lemma_set_translate(t1, from, to, i + 1);
            },
        }
    }
}

/// Gives the byte `c` the meaning `x`, as [`set_value`] says.
fn set(table: &mut [u8; 128], c: u8, x: u8) -> (r: Result<(), SpecificationErrorImpl>)
    ensures
        match set_value(old(table)@, c, x) {
            Ok(next) => r is Ok && final(table)@ == next,
            Err(e) => r == Err::<(), SpecificationErrorImpl>(e) && final(table)@ == old(table)@,
        },
{
    if c >= 128 {
        return Err(SpecificationErrorImpl::NotAscii);
    }
    if table[c as usize] == x {
        return Ok(());
    }
    if table[c as usize] != INVALID {
        return Err(SpecificationErrorImpl::Duplicate(c));
    }
    table[c as usize] = x;
    Ok(())
}

/// Gives each of `bytes` the meaning `x`, as [`set_all`] says.
fn set_each(table: &mut [u8; 128], bytes: &[u8], x: u8) -> (r: Result<
    (),
    SpecificationErrorImpl,
>)
    ensures
        match set_all(old(table)@, bytes@, x, 0) {
            Ok(next) => r is Ok && final(table)@ == next,
            Err(e) => r == Err::<(), SpecificationErrorImpl>(e),
        },
{
    let n = bytes.len();
    let mut i: usize = 0;
    while i < n
        invariant
            i <= n,
            n == bytes@.len(),
            set_all(old(table)@, bytes@, x, 0) == set_all(table@, bytes@, x, i as nat),
        decreases n - i,
    {
        match set(table, bytes[i], x) {
            Err(e) => {
                return Err(e);
            },
            Ok(()) => {},
        }
        i += 1;
    }
    Ok(())
}

/// Whether `n` is the size of an alphabet of the block codec, and how many bits
/// its symbols have then.
fn size_bit(n: usize) -> (bit: u8)
    ensures
        bit == bit_of_size(n as nat),
        bit <= 6,
{
    match n {
        2 => 1,
        4 => 2,
        8 => 3,
        16 => 4,
        32 => 5,
        64 => 6,
        _ => 0,
    }
}

/// The symbols, as [`set_symbols`] says.
fn compile_symbols(symbols: &[u8]) -> (r: Result<[u8; 128], SpecificationErrorImpl>)
    ensures
        match set_symbols(repeat(INVALID, 128), symbols@, 0) {
            Ok(table) => r is Ok && r->Ok_0@ == table,
            Err(e) => r == Err::<[u8; 128], SpecificationErrorImpl>(e),
        },
{
    let n = symbols.len();
    let mut values = [INVALID; 128];
    let ghost t0 = values@;
    proof {
        assert(t0 =~= repeat(INVALID, 128));
    }
    let mut i: usize = 0;
    while i < n
        invariant
            i <= n,
            i <= 128,
            n == symbols@.len(),
            t0 == repeat(INVALID, 128),
            set_symbols(t0, symbols@, 0) == set_symbols(values@, symbols@, i as nat),
        decreases n - i,
    {
        if i >= 128 {
            if symbols[i] >= 128 {
                return Err(SpecificationErrorImpl::NotAscii);
            }
            return Err(SpecificationErrorImpl::Duplicate(symbols[i]));
        }
        match set(&mut values, symbols[i], i as u8) {
            Err(e) => {
                return Err(e);
            },
            Ok(()) => {},
        }
        i += 1;
    }
    Ok(values)
}

/// The padding, as [`set_padding`] says.
fn compile_padding(table: &mut [u8; 128], padding: Option<char>, arithmetic: bool, bit: u8) -> (r:
    Result<Option<u8>, SpecificationErrorImpl>)
    ensures
        match set_padding(old(table)@, padding, arithmetic, bit as nat) {
            Ok((next, pad)) => r == Ok::<Option<u8>, SpecificationErrorImpl>(pad)
                && final(table)@ == next,
            Err(e) => r == Err::<Option<u8>, SpecificationErrorImpl>(e),
        },
{
    match padding {
        None => Ok(None),
        Some(c) => {
            if !arithmetic && (bit == 1 || bit == 2 || bit == 4) {
                return Err(SpecificationErrorImpl::ExtraPadding);
            }
            if c as u32 >= 128 {
                return Err(SpecificationErrorImpl::NotAscii);
            }
            let p = c as u32 as u8;
            match set(table, p, PADDING) {
                Err(e) => {
                    return Err(e);
                },
                Ok(()) => {},
            }
            if arithmetic {
                Ok(None)
            } else {
                Ok(Some(p))
            }
        },
    }
}

/// The lines, as [`set_wrap`] says: the width, the separator and its length; a
/// width of 0 where the text is not wrapped.
fn compile_wrap(
    table: &mut [u8; 128],
    width: usize,
    separator: &[u8],
    arithmetic: bool,
    bit: u8,
) -> (r: Result<(u8, [u8; 15], u8), SpecificationErrorImpl>)
    requires
        !arithmetic ==> valid_bit(bit as nat),
    ensures
        match set_wrap(old(table)@, width as nat, separator@, arithmetic, bit as nat) {
            Ok((next, wrap)) => r is Ok && final(table)@ == next && r->Ok_0.2 <= 15 && wrap == (
            if r->Ok_0.0 > 0 {
                Some((r->Ok_0.0 as nat, r->Ok_0.1@.subrange(0, r->Ok_0.2 as int)))
            } else {
                None::<(nat, Seq<u8>)>
            }),
            Err(e) => r == Err::<(u8, [u8; 15], u8), SpecificationErrorImpl>(e),
        },
{
    let mut wrap_sep = [0u8; 15];
    let n = separator.len();
    if n == 0 || width == 0 {
        return Ok((0, wrap_sep, 0));
    }
    if n > 15 {
        return Err(SpecificationErrorImpl::WrapSeparator);
    }
    if width >= 256 {
        return Err(SpecificationErrorImpl::WrapLength);
    }
    if !arithmetic {
        let e = enc(bit as usize);
        proof {
            lemma_block_shape(bit as nat);
        }
        if width % e != 0 {
            return Err(SpecificationErrorImpl::WrapWidth(e as u8));
        }
    }
    match set_each(table, separator, IGNORE) {
        Err(e) => {
            return Err(e);
        },
        Ok(()) => {},
    }
    let mut s: usize = 0;
    while s < n
        invariant
            s <= n <= 15,
            n == separator@.len(),
            forall|j: int| 0 <= j < s ==> wrap_sep@[j] == separator@[j],
        decreases n - s,
    {
        wrap_sep[s] = separator[s];
        s += 1;
    }
    proof {
        assert(wrap_sep@.subrange(0, n as int) =~= separator@);
    }
    Ok((width as u8, wrap_sep, n as u8))
}

/// The bytes that stand for others, as [`set_translate`] says.
fn compile_translate(table: &mut [u8; 128], from: &[u8], to: &[u8]) -> (r: Result<
    (),
    SpecificationErrorImpl,
>)
    requires
        from@.len() == to@.len(),
    ensures
        match set_translate(old(table)@, from@, to@, 0) {
            Ok(next) => r is Ok && final(table)@ == next,
            Err(e) => r == Err::<(), SpecificationErrorImpl>(e),
        },
{
    let n = from.len();
    let mut j: usize = 0;
    while j < n
        invariant
            j <= n,
            n == from@.len(),
            from@.len() == to@.len(),
            set_translate(old(table)@, from@, to@, 0) == set_translate(
                table@,
                from@,
                to@,
                j as nat,
            ),
        decreases n - j,
    {
        if to[j] >= 128 {
            return Err(SpecificationErrorImpl::NotAscii);
        }
        let v = table[to[j] as usize];
        if v == INVALID {
            return Err(SpecificationErrorImpl::Undefined(to[j]));
        }
        match set(table, from[j], v) {
            Err(e) => {
                return Err(e);
            },
            Ok(()) => {},
        }
        j += 1;
    }
    Ok(())
}

/// The table from value to symbol, as [`sym_table`] says.
fn build_sym(symbols: &[u8], arithmetic: bool) -> (sym: [u8; 256])
    requires
        symbols@.len() >= 2,
    ensures
        sym@ == sym_table(symbols@, arithmetic),
{
    let n = symbols.len();
    let mut sym = [0u8; 256];
    let mut k: usize = 0;
    while k < 256
        invariant
            k <= 256,
            2 <= n == symbols@.len(),
            forall|q: int| 0 <= q < k ==> sym@[q] == sym_table(symbols@, arithmetic)[q],
        decreases 256 - k,
    {
        sym[k] = if arithmetic {
            if k < n {
                symbols[k]
            } else {
                symbols[0]
            }
        } else {
            symbols[k % n]
        };
        k += 1;
    }
    proof {
        assert(sym@ =~= sym_table(symbols@, arithmetic));
    }
    sym
}

/// Whether every byte is ASCII.
fn all_ascii(bytes: &[u8]) -> (r: bool)
    ensures
        r == is_ascii(bytes@),
{
    let n = bytes.len();
    let mut k: usize = 0;
    while k < n
        invariant
            k <= n,
            n == bytes@.len(),
            forall|j: int| 0 <= j < k ==> bytes@[j] < 128,
        decreases n - k,
    {
        if bytes[k] >= 128 {
            return false;
        }
        k += 1;
    }
    true
}

/// Whether the table marks a byte as skipped.
fn any_ignore(table: &[u8; 128]) -> (r: bool)
    ensures
        r == marks_ignored(table@),
{
    let mut c: usize = 0;
    while c < 128
        invariant
            c <= 128,
            forall|x: int| 0 <= x < c ==> table@[x] != IGNORE,
        decreases 128 - c,
    {
        if table[c] == IGNORE {
            return true;
        }
        c += 1;
    }
    false
}

/// What a specification compiles to is an encoding.
pub proof fn lemma_compile_wf(v: SpecificationView)
    ensures
        compile(v) matches Ok(view) ==> view.wf(),
{
    let n = v.symbols.len();
    let arithmetic = v.use_arithmetic || bit_of_size(n) == 0;
    let bit = if arithmetic {
        0
    } else {
        bit_of_size(n)
    };
    if compile(v) is Ok {
        let view = compile(v)->Ok_0;
        let t0 = repeat(INVALID, 128);
        lemma_set_symbols(t0, v.symbols, 0);
        let t1 = set_symbols(t0, v.symbols, 0)->Ok_0;
        let (t2, pad) = set_padding(t1, v.padding, arithmetic, bit)->Ok_0;
        match v.padding {
            None => {},
            Some(c) => {
                lemma_set_value(t1, (c as u32) as u8, PADDING);
            },
        }
        lemma_set_all(t2, v.ignore, IGNORE, 0);
        let t3 = set_all(t2, v.ignore, IGNORE, 0)->Ok_0;
        let (t4, wrap) = set_wrap(t3, v.wrap_width, v.separator, arithmetic, bit)->Ok_0;
        if wrap is Some {
            lemma_set_all(t3, v.separator, IGNORE, 0);
        }
        lemma_set_translate(t4, v.from, v.to, 0);
        let t5 = set_translate(t4, v.from, v.to, 0)->Ok_0;
        assert(view.val == t5);
        assert forall|q: int| 0 <= q < n implies #[trigger] v.symbols[q] < 128 && t5[v.symbols[q] as int]
            == q by {
            assert(t1[v.symbols[q] as int] == q);
            assert(t2[v.symbols[q] as int] == q);
            assert(t3[v.symbols[q] as int] == q);
            assert(t4[v.symbols[q] as int] == q);
        }
        assert(is_ascii(view.sym)) by {
            assert forall|q: int| 0 <= q < 256 implies #[trigger] view.sym[q] < 128 by {
                if arithmetic {
                    if q < n {
                        assert(v.symbols[q] < 128);
                    } else {
                        assert(v.symbols[0] < 128);
                    }
                } else {
                    vstd::arithmetic::div_mod::lemma_mod_bound(q, n as int);
                    assert(v.symbols[q % (n as int)] < 128);
                }
            }
        }
        if !arithmetic {
            lemma_block_shape(bit);
            assert(radix_of(bit) == n);
            assert forall|q: int| 0 <= q < n implies view.val[#[trigger] view.sym[q] as int]
                == q by {
                vstd::arithmetic::div_mod::lemma_small_mod(q as nat, n);
                assert(t5[v.symbols[q] as int] == q);
            }
            assert forall|q: int| 0 <= q < 256 implies #[trigger] view.sym[q] == view.sym[q % (
            radix_of(bit) as int)] by {
                vstd::arithmetic::div_mod::lemma_mod_bound(q, n as int);
                vstd::arithmetic::div_mod::lemma_mod_twice(q, n as int);
            }
            match pad {
                None => {},
                Some(p) => {
                    assert(t2[p as int] == PADDING);
                    assert(t3[p as int] == PADDING);
                    assert(t4[p as int] == PADDING);
                    assert(t5[p as int] == PADDING);
                },
            }
        } else {
            assert forall|q: int| 0 <= q < n implies view.val[#[trigger] view.sym[q] as int]
                == q by {
                assert(t5[v.symbols[q] as int] == q);
            }
        }
        match wrap {
            None => {},
            Some((width, sep)) => {
                assert forall|q: int| 0 <= q < sep.len() implies #[trigger] sep[q] < 128
                    && t5[sep[q] as int] == IGNORE by {
                    assert(t4[sep[q] as int] == IGNORE);
                }
            },
        }
    }
}

proof fn lemma_set_value_all_are(table: Seq<u8>, c: u8, x: u8, ok: spec_fn(u8) -> bool)
    requires
        table.len() == 128,
        all_are(table, ok),
        ok(x),
    ensures
        set_value(table, c, x) matches Ok(next) ==> all_are(next, ok),
{
    match set_value(table, c, x) {
        Err(_) => {},
        Ok(next) => {
            assert forall|d: int| 0 <= d < next.len() implies ok(#[trigger] next[d]) by {
                if d != c {
                    assert(ok(table[d]));
                }
            }
        },
    }
}

proof fn lemma_set_symbols_all_are(
    table: Seq<u8>,
    symbols: Seq<u8>,
    i: nat,
    ok: spec_fn(u8) -> bool,
)
    requires
        table.len() == 128,
        all_are(table, ok),
        i <= symbols.len(),
        forall|x: u8| (x as nat) < symbols.len() ==> #[trigger] ok(x),
    ensures
        set_symbols(table, symbols, i) matches Ok(next) ==> all_are(next, ok),
    decreases symbols.len() - i,
{
    if i < symbols.len() && i < 128 {
        lemma_set_value(table, symbols[i as int], i as u8);
        lemma_set_value_all_are(table, symbols[i as int], i as u8, ok);
        match set_value(table, symbols[i as int], i as u8) {
            Err(_) => {},
            Ok(next) => {
                lemma_set_symbols_all_are(next, symbols, i + 1, ok);
            },
        }
    }
}

proof fn lemma_set_all_all_are(
    table: Seq<u8>,
    bytes: Seq<u8>,
    x: u8,
    i: nat,
    ok: spec_fn(u8) -> bool,
)
    requires
        table.len() == 128,
        all_are(table, ok),
        ok(x),
    ensures
        set_all(table, bytes, x, i) matches Ok(next) ==> all_are(next, ok),
    decreases bytes.len() - i,
{
    if i < bytes.len() {
        lemma_set_value(table, bytes[i as int], x);
        lemma_set_value_all_are(table, bytes[i as int], x, ok);
        match set_value(table, bytes[i as int], x) {
            Err(_) => {},
            Ok(next) => {
                lemma_set_all_all_are(next, bytes, x, i + 1, ok);
            },
        }
    }
}

proof fn lemma_set_translate_all_are(
    table: Seq<u8>,
    from: Seq<u8>,
    to: Seq<u8>,
    i: nat,
    ok: spec_fn(u8) -> bool,
)
    requires
        table.len() == 128,
        all_are(table, ok),
    ensures
        set_translate(table, from, to, i) matches Ok(next) ==> all_are(next, ok),
    decreases from.len() - i,
{
    if i < from.len() && i < to.len() && to[i as int] < 128 && table[to[i as int] as int]
        != INVALID {
        let x = table[to[i as int] as int];
        assert(ok(x));
        lemma_set_value(table, from[i as int], x);
        lemma_set_value_all_are(table, from[i as int], x, ok);
        match set_value(table, from[i as int], x) {
            Err(_) => {},
            Ok(next) => {
                lemma_set_translate_all_are(next, from, to, i + 1, ok);
            },
        }
    }
}

/// What a specification compiles to holds nothing that no specification gives.
pub proof fn lemma_compile_tidy(v: SpecificationView)
    ensures
        compile(v) matches Ok(view) ==> view.tidy(),
{
    let n = v.symbols.len();
    let arithmetic = v.use_arithmetic || bit_of_size(n) == 0;
    let bit = if arithmetic {
        0
    } else {
        bit_of_size(n)
    };
    if compile(v) is Ok {
        let view = compile(v)->Ok_0;
        let t0 = repeat(INVALID, 128);
        lemma_set_symbols(t0, v.symbols, 0);
        let t1 = set_symbols(t0, v.symbols, 0)->Ok_0;
        let (t2, pad) = set_padding(t1, v.padding, arithmetic, bit)->Ok_0;
        let t3 = set_all(t2, v.ignore, IGNORE, 0)->Ok_0;
        lemma_set_all(t2, v.ignore, IGNORE, 0);
        let (t4, wrap) = set_wrap(t3, v.wrap_width, v.separator, arithmetic, bit)->Ok_0;
        if wrap is Some {
            lemma_set_all(t3, v.separator, IGNORE, 0);
        }
        let t5 = set_translate(t4, v.from, v.to, 0)->Ok_0;
        assert(view.symbols().len() == n) by {
            if !arithmetic {
                lemma_block_shape(bit);
            }
        }
        // Every byte has a meaning.
        let ok = is_meaning(n);
        assert(all_are(t0, ok));
        lemma_set_symbols_all_are(t0, v.symbols, 0, ok);
        match v.padding {
            None => {},
            Some(c) => {
                lemma_set_value(t1, (c as u32) as u8, PADDING);
                lemma_set_value_all_are(t1, (c as u32) as u8, PADDING, ok);
            },
        }
        lemma_set_all_all_are(t2, v.ignore, IGNORE, 0, ok);
        if wrap is Some {
            lemma_set_all_all_are(t3, v.separator, IGNORE, 0, ok);
        }
        lemma_set_translate_all_are(t4, v.from, v.to, 0, ok);
        assert(all_are(view.val, is_meaning(view.symbols().len())));
        // No byte is padding where there is none.
        if !arithmetic && pad is None {
            let free = not_padding();
            assert(all_are(t0, free));
            lemma_set_symbols_all_are(t0, v.symbols, 0, free);
            lemma_set_all_all_are(t2, v.ignore, IGNORE, 0, free);
            if wrap is Some {
                lemma_set_all_all_are(t3, v.separator, IGNORE, 0, free);
            }
            lemma_set_translate_all_are(t4, v.from, v.to, 0, free);
        }
    }
}

/// The bytes that a specification gives a meaning to, in the order in which it
/// does: the symbols, the padding, the bytes to skip, the separator of a wrap
/// that is in use, and the bytes to translate.
pub open spec fn keys(v: SpecificationView) -> Seq<u8> {
    v.symbols + (match v.padding {
        None => Seq::<u8>::empty(),
        Some(c) => seq![(c as u32) as u8],
    }) + v.ignore + (if v.separator.len() == 0 || v.wrap_width == 0 {
        Seq::<u8>::empty()
    } else {
        v.separator
    }) + v.from
}

/// Only the first `m` of `keys` may have a meaning in `table`.
pub open spec fn untouched(table: Seq<u8>, keys: Seq<u8>, m: nat) -> bool {
    &&& table.len() == 128
    &&& forall|c: int|
        0 <= c < 128 && (forall|j: int| 0 <= j < m ==> keys[j] != c) ==> #[trigger] table[c]
            == INVALID
}

/// A specification that compiles for sure: its alphabet has from 2 to 128
/// symbols, every byte that it gives a meaning to is ASCII and is given one
/// meaning only, every byte that it translates to is a symbol (`witness` says
/// which), and its padding and its wrap are in order.
pub open spec fn compiles(v: SpecificationView, witness: spec_fn(int) -> int) -> bool {
    let n = v.symbols.len();
    let arithmetic = v.use_arithmetic || bit_of_size(n) == 0;
    let bit = bit_of_size(n);
    &&& 2 <= n <= 128
    &&& is_ascii(keys(v))
    &&& crate::arithmetic::distinct(keys(v))
    &&& (v.padding matches Some(c) ==> c as u32 <= 127 && (arithmetic || !whole_bytes(bit)))
    &&& (v.separator.len() > 0 && v.wrap_width > 0 ==> v.separator.len() <= 15 && v.wrap_width
        < 256 && (arithmetic || v.wrap_width % enc_of(bit) == 0))
    &&& v.from.len() == v.to.len()
    &&& forall|j: int|
        0 <= j < v.to.len() ==> 0 <= #[trigger] witness(j) < n && v.symbols[witness(j)] == v.to[j]
}

proof fn lemma_set_value_fresh(table: Seq<u8>, keys: Seq<u8>, m: nat, x: u8)
    requires
        untouched(table, keys, m),
        m < keys.len(),
        is_ascii(keys),
        crate::arithmetic::distinct(keys),
    ensures
        set_value(table, keys[m as int], x) is Ok,
        untouched(set_value(table, keys[m as int], x)->Ok_0, keys, m + 1),
{
    let c = keys[m as int];
    assert(c < 128);
    assert(table[c as int] == INVALID) by {
        assert forall|j: int| 0 <= j < m implies keys[j] != c by {}
    }
    let next = set_value(table, c, x)->Ok_0;
    assert forall|d: int| 0 <= d < 128 && (forall|j: int| 0 <= j < m + 1 ==> keys[j] != d) implies #[trigger] next[d]
        == INVALID by {
        assert(keys[m as int] != d);
        assert forall|j: int| 0 <= j < m implies keys[j] != d by {}
        assert(table[d] == INVALID);
    }
}

proof fn lemma_set_symbols_fresh(table: Seq<u8>, keys: Seq<u8>, symbols: Seq<u8>, i: nat)
    requires
        untouched(table, keys, i),
        i <= symbols.len() <= 128,
        symbols.len() <= keys.len(),
        symbols == keys.subrange(0, symbols.len() as int),
        is_ascii(keys),
        crate::arithmetic::distinct(keys),
    ensures
        set_symbols(table, symbols, i) is Ok,
        untouched(set_symbols(table, symbols, i)->Ok_0, keys, symbols.len()),
    decreases symbols.len() - i,
{
    if i < symbols.len() {
        assert(symbols[i as int] == keys[i as int]);
        lemma_set_value_fresh(table, keys, i, i as u8);
        lemma_set_symbols_fresh(
            set_value(table, keys[i as int], i as u8)->Ok_0,
            keys,
            symbols,
            i + 1,
        );
    }
}

proof fn lemma_set_all_fresh(
    table: Seq<u8>,
    keys: Seq<u8>,
    m: nat,
    bytes: Seq<u8>,
    x: u8,
    i: nat,
)
    requires
        untouched(table, keys, m + i),
        i <= bytes.len(),
        m + bytes.len() <= keys.len(),
        bytes == keys.subrange(m as int, (m + bytes.len()) as int),
        is_ascii(keys),
        crate::arithmetic::distinct(keys),
    ensures
        set_all(table, bytes, x, i) is Ok,
        untouched(set_all(table, bytes, x, i)->Ok_0, keys, m + bytes.len()),
    decreases bytes.len() - i,
{
    if i < bytes.len() {
        assert(bytes[i as int] == keys[(m + i) as int]);
        lemma_set_value_fresh(table, keys, m + i, x);
        lemma_set_all_fresh(
            set_value(table, keys[(m + i) as int], x)->Ok_0,
            keys,
            m,
            bytes,
            x,
            i + 1,
        );
    }
}

proof fn lemma_set_translate_fresh(
    table: Seq<u8>,
    keys: Seq<u8>,
    m: nat,
    from: Seq<u8>,
    to: Seq<u8>,
    i: nat,
)
    requires
        untouched(table, keys, m + i),
        i <= from.len(),
        from.len() == to.len(),
        m + from.len() <= keys.len(),
        from == keys.subrange(m as int, (m + from.len()) as int),
        is_ascii(keys),
        crate::arithmetic::distinct(keys),
        forall|j: int| i <= j < to.len() ==> #[trigger] to[j] < 128 && table[to[j] as int] != INVALID,
    ensures
        set_translate(table, from, to, i) is Ok,
    decreases from.len() - i,
{
    if i < from.len() {
        assert(from[i as int] == keys[(m + i) as int]);
        assert(to[i as int] < 128 && table[to[i as int] as int] != INVALID);
        let x = table[to[i as int] as int];
        lemma_set_value_fresh(table, keys, m + i, x);
        lemma_set_value(table, from[i as int], x);
        let next = set_value(table, keys[(m + i) as int], x)->Ok_0;
        assert forall|j: int| i + 1 <= j < to.len() implies #[trigger] to[j] < 128 && next[to[j] as int]
            != INVALID by {
            assert(to[j] < 128 && table[to[j] as int] != INVALID);
        }
        lemma_set_translate_fresh(next, keys, m, from, to, i + 1);
    }
}

/// Symbols that are ASCII and all different, and no more than 128, can be given
/// their values where no byte has a meaning yet; no other byte has one then.
pub proof fn lemma_symbols_fresh(table: Seq<u8>, symbols: Seq<u8>)
    requires
        table == repeat(INVALID, 128),
        symbols.len() <= 128,
        is_ascii(symbols),
        crate::arithmetic::distinct(symbols),
    ensures
        set_symbols(table, symbols, 0) is Ok,
        untouched(set_symbols(table, symbols, 0)->Ok_0, symbols, symbols.len()),
{
    assert(symbols.subrange(0, symbols.len() as int) =~= symbols);
    lemma_set_symbols_fresh(table, symbols, symbols, 0);
}

/// Such a specification compiles.
pub proof fn lemma_compiles(v: SpecificationView, witness: spec_fn(int) -> int)
    requires
        compiles(v, witness),
    ensures
        compile(v) is Ok,
        compile(v)->Ok_0.wf(),
        compile(v)->Ok_0.tidy(),
{
    lemma_compile_tidy(v);
    let n = v.symbols.len();
    let arithmetic = v.use_arithmetic || bit_of_size(n) == 0;
    let bit = if arithmetic {
        0
    } else {
        bit_of_size(n)
    };
    let k = keys(v);
    let pad_seq = match v.padding {
        None => Seq::<u8>::empty(),
        Some(c) => seq![(c as u32) as u8],
    };
    let sep_seq = if v.separator.len() == 0 || v.wrap_width == 0 {
        Seq::<u8>::empty()
    } else {
        v.separator
    };
    assert(is_ascii(v.symbols)) by {
        assert forall|i: int| 0 <= i < n implies #[trigger] v.symbols[i] < 128 by {
            assert(k[i] == v.symbols[i]);
        }
    }
    let t0 = repeat(INVALID, 128);
    assert(v.symbols =~= k.subrange(0, n as int));
    lemma_set_symbols_fresh(t0, k, v.symbols, 0);
    lemma_set_symbols(t0, v.symbols, 0);
    let t1 = set_symbols(t0, v.symbols, 0)->Ok_0;
    let m1 = n;
    assert(pad_seq =~= k.subrange(m1 as int, (m1 + pad_seq.len()) as int));
    let m2 = m1 + pad_seq.len();
    let t2 = match v.padding {
        None => t1,
        Some(c) => {
            assert(k[m1 as int] == (c as u32) as u8);
            lemma_set_value_fresh(t1, k, m1, PADDING);
            lemma_set_value(t1, (c as u32) as u8, PADDING);
            set_value(t1, (c as u32) as u8, PADDING)->Ok_0
        },
    };
    assert(set_padding(t1, v.padding, arithmetic, bit) is Ok);
    assert(set_padding(t1, v.padding, arithmetic, bit)->Ok_0.0 == t2);
    assert(untouched(t2, k, m2));
    assert(v.ignore =~= k.subrange(m2 as int, (m2 + v.ignore.len()) as int));
    lemma_set_all_fresh(t2, k, m2, v.ignore, IGNORE, 0);
    lemma_set_all(t2, v.ignore, IGNORE, 0);
    let t3 = set_all(t2, v.ignore, IGNORE, 0)->Ok_0;
    let m3 = m2 + v.ignore.len();
    assert(sep_seq =~= k.subrange(m3 as int, (m3 + sep_seq.len()) as int));
    let m4 = m3 + sep_seq.len();
    let t4 = if sep_seq.len() == 0 {
        t3
    } else {
        lemma_set_all_fresh(t3, k, m3, sep_seq, IGNORE, 0);
        lemma_set_all(t3, sep_seq, IGNORE, 0);
        set_all(t3, sep_seq, IGNORE, 0)->Ok_0
    };
    assert(set_wrap(t3, v.wrap_width, v.separator, arithmetic, bit) is Ok);
    assert(set_wrap(t3, v.wrap_width, v.separator, arithmetic, bit)->Ok_0.0 == t4);
    assert(untouched(t4, k, m4));
    assert(v.from =~= k.subrange(m4 as int, (m4 + v.from.len()) as int));
    assert forall|j: int| 0 <= j < v.to.len() implies #[trigger] v.to[j] < 128 && t4[v.to[j] as int]
        != INVALID by {
        let w = witness(j);
        assert(v.symbols[w] == v.to[j]);
        assert(v.symbols[w] < 128);
        assert(t1[v.symbols[w] as int] == w);
        assert(t2[v.symbols[w] as int] == w);
        assert(t3[v.symbols[w] as int] == w);
        assert(t4[v.symbols[w] as int] == w);
    }
    lemma_set_translate_fresh(t4, k, m4, v.from, v.to, 0);
    lemma_compile_wf(v);
}

/// Whether an alphabet of `n` symbols is one of the block codec: `n` is 2, 4, 8,
/// 16, 32 or 64. Every other alphabet is one of the arithmetic codec.
pub fn is_power_of_two_base(n: usize) -> (r: bool)
    ensures
        r == (bit_of_size(n as nat) != 0),
{
    size_bit(n) != 0
}

impl Specification {
    /// A specification with nothing in it: no symbol, the most significant bit
    /// first, trailing bits checked, no padding, nothing skipped, wrapped or
    /// translated.
    pub fn new() -> (r: Specification)
        ensures
            r@ == (SpecificationView {
                symbols: Seq::empty(),
                msb: true,
                check_trailing_bits: true,
                padding: None,
                padding_mode: PaddingMode::Standard,
                ignore: Seq::empty(),
                wrap_width: 0,
                separator: Seq::empty(),
                from: Seq::empty(),
                to: Seq::empty(),
                use_arithmetic: false,
            }),
    {
        proof {
            assert(encode_utf8(Seq::<char>::empty()) =~= Seq::<u8>::empty());
        }
        Specification {
            symbols: String::new(),
            bit_order: BitOrder::MostSignificantFirst,
            check_trailing_bits: true,
            padding: None,
            padding_mode: PaddingMode::Standard,
            ignore: String::new(),
            wrap: Wrap { width: 0, separator: String::new() },
            translate: Translate { from: String::new(), to: String::new() },
            use_arithmetic: false,
        }
    }

    /// Compiles the specification, as [`compile`] says.
    pub fn encoding(&self) -> (r: Result<Encoding, SpecificationError>)
        ensures
            match compile(self@) {
                Ok(view) => r is Ok && r->Ok_0@ == view && view.wf() && view.tidy(),
                Err(e) => r == Err::<Encoding, SpecificationError>(SpecificationError(e)),
            },
    {
        proof {
            lemma_compile_wf(self@);
            lemma_compile_tidy(self@);
        }
        let symbols = self.symbols.as_str().as_bytes();
        let n = symbols.len();
        if n < 2 {
            return Err(SpecificationError(SpecificationErrorImpl::BadSize));
        }
        let size = size_bit(n);
        let arithmetic = self.use_arithmetic || !is_power_of_two_base(n);
        let bit: u8 = if arithmetic {
            0
        } else {
            size
        };
        if arithmetic && !all_ascii(symbols) {
            return Err(SpecificationError(SpecificationErrorImpl::NotAscii));
        }
        let mut values = match compile_symbols(symbols) {
            Ok(table) => table,
            Err(e) => {
                return Err(SpecificationError(e));
            },
        };
        let pad = match compile_padding(&mut values, self.padding, arithmetic, bit) {
            Ok(pad) => pad,
            Err(e) => {
                return Err(SpecificationError(e));
            },
        };
        match set_each(&mut values, self.ignore.as_str().as_bytes(), IGNORE) {
            Ok(()) => {},
            Err(e) => {
                return Err(SpecificationError(e));
            },
        }
        let (wrap_width, wrap_sep, wrap_len) = match compile_wrap(
            &mut values,
            self.wrap.width,
            self.wrap.separator.as_str().as_bytes(),
            arithmetic,
            bit,
        ) {
            Ok(wrap) => wrap,
            Err(e) => {
                return Err(SpecificationError(e));
            },
        };
        let from = self.translate.from.as_str().as_bytes();
        let to = self.translate.to.as_str().as_bytes();
        if from.len() != to.len() {
            return Err(SpecificationError(SpecificationErrorImpl::FromTo));
        }
        match compile_translate(&mut values, from, to) {
            Ok(()) => {},
            Err(e) => {
                return Err(SpecificationError(e));
            },
        }
        let sym = build_sym(symbols, arithmetic);
        let ignore = any_ignore(&values);
        let msb = match self.bit_order {
            BitOrder::MostSignificantFirst => true,
            BitOrder::LeastSignificantFirst => false,
        };
        let ctb = self.check_trailing_bits || (!arithmetic && (bit == 1 || bit == 2 || bit == 4));
        let pad_mode = match pad {
            None => PaddingMode::NoPadding,
            Some(_) => match self.padding_mode {
                PaddingMode::NoPadding => PaddingMode::Standard,
                mode => mode,
            },
        };
        let base: u8 = if arithmetic {
            proof {
                lemma_set_symbols(repeat(INVALID, 128), symbols@, 0);
            }
            n as u8
        } else {
            0
        };
        Ok(
            Encoding::from_parts(
                sym,
                values,
                bit,
                msb,
                ctb,
                pad,
                pad_mode,
                wrap_width,
                wrap_sep,
                wrap_len,
                arithmetic,
                base,
                ignore,
            ),
        )
    }
}

impl Default for Specification {
    fn default() -> (r: Specification)
        ensures
            r@ == (SpecificationView {
                symbols: Seq::empty(),
                msb: true,
                check_trailing_bits: true,
                padding: None,
                padding_mode: PaddingMode::Standard,
                ignore: Seq::empty(),
                wrap_width: 0,
                separator: Seq::empty(),
                from: Seq::empty(),
                to: Seq::empty(),
                use_arithmetic: false,
            }),
    {
        Specification::new()
    }
}

} // verus!
