//! A compiled encoding: the tables and rules by which bytes become text and text
//! becomes bytes again.
use crate::arithmetic;
use crate::arithmetic::MAX_BIGINT_BUFFER;
use crate::block::{
    dec, dec_of, decode_room, decode_spec, decode_wrap_len, decode_wrap_mut, enc, enc_of,
    encode_wrap_len, encode_wrap_mut, encode_wrap_spec, IGNORE, Outcome, PADDING, radix_of, Rules,
    valid_bit, valid_len, wrap_len, written_at,
};
use crate::error::{DecodeError, DecodeKind, DecodePartial, EncodeError, EncodeKind};
use crate::specification::{
    all_are, is_meaning, not_padding, Specification, SpecificationView, Translate, whole_bytes,
    Wrap,
};
use crate::text::{ascii_chars, ascii_string, is_ascii};
use vstd::prelude::*;

verus! {

/// How the padding of a text is read.
#[derive(Debug, Clone, Copy, PartialEq, Eq, Structural)]
pub enum PaddingMode {
    /// There is no padding.
    NoPadding,
    /// Blocks are filled up with padding; padded texts may follow one another.
    Standard,
    /// As `Standard`.
    PadConcat,
    /// Blocks are filled up with padding; nothing may follow a padded block.
    PadFinal,
}

/// Which bit of a byte comes first.
#[derive(Debug, Clone, Copy, PartialEq, Eq, Structural)]
pub enum BitOrder {
    /// The most significant bit comes first.
    MostSignificantFirst,
    /// The least significant bit comes first.
    LeastSignificantFirst,
}

/// The table marks a byte as skipped.
pub open spec fn marks_ignored(val: Seq<u8>) -> bool {
    exists|c: int| 0 <= c < 128 && #[trigger] val[c] == IGNORE
}

/// An encoding as mathematics sees it.
pub struct EncodingView {
    /// The table from value to symbol, 256 entries. The block codec has the
    /// alphabet in it over and over, the arithmetic codec once.
    pub sym: Seq<u8>,
    /// The table from ASCII byte to value, 128 entries: a value of the alphabet, or
    /// one of `INVALID`, `IGNORE` and `PADDING`.
    pub val: Seq<u8>,
    /// How many bits a symbol has; 0 for the arithmetic codec.
    pub bit: nat,
    /// Whether the most significant bit comes first.
    pub msb: bool,
    /// Whether the bits behind the last whole byte must be zero.
    pub ctb: bool,
    /// The padding.
    pub pad: Option<u8>,
    /// How the padding is read.
    pub pad_mode: PaddingMode,
    /// The width of a line and the separator behind it, where the text is wrapped.
    pub wrap: Option<(nat, Seq<u8>)>,
    /// Whether this is the arithmetic codec.
    pub arithmetic: bool,
    /// How many symbols the alphabet of the arithmetic codec has; 0 for the block
    /// codec.
    pub base: nat,
    /// Whether there are bytes to skip when decoding.
    pub ignore: bool,
}

impl EncodingView {
    /// What holds of every encoding.
    pub open spec fn wf(self) -> bool {
        &&& self.sym.len() == 256
        &&& self.val.len() == 128
        &&& is_ascii(self.sym)
        &&& if self.arithmetic {
            &&& self.bit == 0
            &&& 2 <= self.base <= 128
            &&& self.pad is None
            &&& forall|i: int| 0 <= i < self.base ==> self.val[#[trigger] self.sym[i] as int] == i
        } else {
            &&& valid_bit(self.bit)
            &&& self.base == 0
            &&& forall|v: int|
                0 <= v < radix_of(self.bit) ==> self.val[#[trigger] self.sym[v] as int] == v
            &&& forall|i: int|
                0 <= i < 256 ==> #[trigger] self.sym[i] == self.sym[i % (radix_of(self.bit) as int)]
            &&& (self.pad matches Some(p) ==> p < 128 && self.val[p as int] == PADDING)
            &&& (self.pad is Some <==> self.pad_mode != PaddingMode::NoPadding)
        }
        &&& (self.wrap matches Some((width, sep)) ==> {
            &&& 0 < width < 256
            &&& 0 < sep.len() <= 15
            &&& (!self.arithmetic ==> width % enc_of(self.bit) == 0)
            &&& forall|i: int|
                0 <= i < sep.len() ==> #[trigger] sep[i] < 128 && self.val[sep[i] as int] == IGNORE
        })
        &&& self.ignore == marks_ignored(self.val)
    }

    /// What holds of every encoding besides: its tables and rules hold nothing
    /// that no specification gives. Every byte has a meaning; none is marked as
    /// padding where the block codec has none; where the symbols of a byte hold no
    /// bits of another, trailing bits are checked and there is no padding; and the
    /// arithmetic codec has no way to read a padding, and its first symbol behind
    /// its alphabet.
    pub open spec fn tidy(self) -> bool {
        &&& all_are(self.val, is_meaning(self.symbols().len()))
        &&& (!self.arithmetic && self.pad is None ==> all_are(self.val, not_padding()))
        &&& (!self.arithmetic && whole_bytes(self.bit) ==> self.ctb && self.pad is None)
        &&& (self.arithmetic ==> self.pad_mode == PaddingMode::NoPadding && forall|i: int|
            self.base <= i < 256 ==> #[trigger] self.sym[i] == self.sym[0])
    }

    /// The alphabet.
    pub open spec fn symbols(self) -> Seq<u8> {
        self.sym.subrange(
            0,
            if self.arithmetic {
                self.base as int
            } else {
                radix_of(self.bit) as int
            },
        )
    }

    /// The width of a line and the length of the separator.
    pub open spec fn wrap_sizes(self) -> Option<(nat, nat)> {
        match self.wrap {
            None => None,
            Some((width, sep)) => Some((width, sep.len())),
        }
    }

    /// The rules by which the block codec reads a text.
    pub open spec fn rules(self) -> Rules {
        Rules {
            bit: self.bit as usize,
            msb: self.msb,
            ctb: self.ctb,
            pad: self.pad,
            pad_final: self.pad_mode == PaddingMode::PadFinal,
            ignore: self.ignore,
        }
    }

    /// How long the text of `n` bytes is. For the arithmetic codec, which has no
    /// length that holds of all inputs of a length, a bound that holds for the
    /// larger alphabets.
    pub open spec fn encode_len(self, n: nat) -> nat {
        if self.arithmetic {
            n + n / 2 + 2
        } else {
            wrap_len(self.bit, self.pad is Some, self.wrap_sizes(), n)
        }
    }

    /// The text of `input`.
    pub open spec fn encoded(self, input: Seq<u8>) -> Seq<u8> {
        if self.arithmetic {
            arithmetic::encoded(self.symbols(), input)
        } else {
            encode_wrap_spec(self.bit, self.msb, self.sym, self.pad, self.wrap, input)
        }
    }

    /// What encoding `input` into a buffer of `room` bytes gives: the length of the
    /// text, or why there is none.
    pub open spec fn encode_result(self, input: Seq<u8>, room: nat) -> Result<nat, EncodeKind> {
        if self.arithmetic {
            if input.len() > 4 * MAX_BIGINT_BUFFER {
                Err(EncodeKind::Overflow)
            } else if self.encoded(input).len() > room {
                Err(EncodeKind::BufferTooSmall)
            } else {
                Ok(self.encoded(input).len())
            }
        } else {
            if self.encode_len(input.len()) > usize::MAX {
                Err(EncodeKind::Overflow)
            } else if self.encode_len(input.len()) != room {
                Err(EncodeKind::BufferTooSmall)
            } else {
                Ok(room)
            }
        }
    }

    /// How many bytes a text of `n` bytes gives at most, or why no text has `n`
    /// bytes: where nothing is skipped, `Length` at the greatest length that a text
    /// can have.
    pub open spec fn decode_len(self, n: nat) -> Result<nat, DecodeError> {
        if self.arithmetic {
            Ok(n)
        } else if !self.ignore && n != valid_len(self.bit, self.pad is Some, n) {
            Err(
                DecodeError {
                    position: valid_len(self.bit, self.pad is Some, n) as usize,
                    kind: DecodeKind::Length,
                },
            )
        } else {
            Ok(decode_room(self.bit, self.pad is Some, n))
        }
    }

    /// What decoding `input` into a buffer of `room` bytes gives.
    pub open spec fn decoded(self, input: Seq<u8>, room: nat) -> Outcome {
        if self.arithmetic {
            match arithmetic::decode_result(self.symbols(), input, MAX_BIGINT_BUFFER as nat) {
                Err(e) => Outcome {
                    bytes: Seq::empty(),
                    failure: Some(DecodePartial { read: e.position, written: 0, error: e }),
                },
                Ok(bytes) => if bytes.len() <= room {
                    Outcome { bytes, failure: None }
                } else {
                    Outcome {
                        bytes: Seq::empty(),
                        failure: Some(
                            DecodePartial {
                                read: 0,
                                written: 0,
                                error: DecodeError {
                                    position: 0,
                                    kind: DecodeKind::BufferTooSmall,
                                },
                            },
                        ),
                    }
                },
            }
        } else {
            match self.decode_len(input.len()) {
                Err(e) => Outcome {
                    bytes: Seq::empty(),
                    failure: Some(DecodePartial { read: 0, written: 0, error: e }),
                },
                Ok(n) => if room != n {
                    Outcome {
                        bytes: Seq::empty(),
                        failure: Some(
                            DecodePartial {
                                read: 0,
                                written: 0,
                                error: DecodeError {
                                    position: input.len() as usize,
                                    kind: DecodeKind::BufferTooSmall,
                                },
                            },
                        ),
                    }
                } else {
                    decode_spec(self.rules(), self.val, input)
                },
            }
        }
    }

    /// Every byte that decodes to a value is the symbol of that value: nothing is
    /// translated, skipped or padding.
    pub open spec fn canonical(self) -> bool {
        &&& self.ctb
        &&& forall|c: int|
            0 <= c < 128 && #[trigger] self.val[c] != crate::block::INVALID ==> (
            self.val[c] as int) < self.symbols().len() && self.sym[self.val[c] as int] == c
    }
}

/// A compiled encoding. It is made by [`crate::specification::Specification::encoding`]
/// or taken from [`crate::predefined`].
#[derive(Debug, Clone, Copy, PartialEq, Eq)]
pub struct Encoding {
    sym: [u8; 256],
    val: [u8; 128],
    bit: u8,
    msb: bool,
    ctb: bool,
    pad: Option<u8>,
    pad_mode: PaddingMode,
    wrap_width: u8,
    wrap_sep: [u8; 15],
    wrap_len: u8,
    arithmetic: bool,
    base: u8,
    ignore: bool,
}

impl View for Encoding {
    type V = EncodingView;

    closed spec fn view(&self) -> EncodingView {
        EncodingView {
            sym: self.sym@,
            val: self.val@,
            bit: self.bit as nat,
            msb: self.msb,
            ctb: self.ctb,
            pad: self.pad,
            pad_mode: self.pad_mode,
            wrap: if self.wrap_width > 0 {
                Some((self.wrap_width as nat, self.wrap_sep@.subrange(0, self.wrap_len as int)))
            } else {
                None
            },
            arithmetic: self.arithmetic,
            base: self.base as nat,
            ignore: self.ignore,
        }
    }
}

impl Encoding {
    #[verifier::type_invariant]
    spec fn inv(self) -> bool {
        self.wrap_len <= 15 && self@.wf() && self@.tidy()
    }

    /// Puts an encoding together from its parts.
    pub(crate) fn from_parts(
        sym: [u8; 256],
        val: [u8; 128],
        bit: u8,
        msb: bool,
        ctb: bool,
        pad: Option<u8>,
        pad_mode: PaddingMode,
        wrap_width: u8,
        wrap_sep: [u8; 15],
        wrap_len: u8,
        arithmetic: bool,
        base: u8,
        ignore: bool,
    ) -> (r: Encoding)
        requires
            wrap_len <= 15,
            (EncodingView {
                sym: sym@,
                val: val@,
                bit: bit as nat,
                msb,
                ctb,
                pad,
                pad_mode,
                wrap: if wrap_width > 0 {
                    Some((wrap_width as nat, wrap_sep@.subrange(0, wrap_len as int)))
                } else {
                    None
                },
                arithmetic,
                base: base as nat,
                ignore,
            }).wf(),
            (EncodingView {
                sym: sym@,
                val: val@,
                bit: bit as nat,
                msb,
                ctb,
                pad,
                pad_mode,
                wrap: if wrap_width > 0 {
                    Some((wrap_width as nat, wrap_sep@.subrange(0, wrap_len as int)))
                } else {
                    None
                },
                arithmetic,
                base: base as nat,
                ignore,
            }).tidy(),
        ensures
            r@ == (EncodingView {
                sym: sym@,
                val: val@,
                bit: bit as nat,
                msb,
                ctb,
                pad,
                pad_mode,
                wrap: if wrap_width > 0 {
                    Some((wrap_width as nat, wrap_sep@.subrange(0, wrap_len as int)))
                } else {
                    None
                },
                arithmetic,
                base: base as nat,
                ignore,
            }),
    {
        Encoding {
            sym,
            val,
            bit,
            msb,
            ctb,
            pad,
            pad_mode,
            wrap_width,
            wrap_sep,
            wrap_len,
            arithmetic,
            base,
            ignore,
        }
    }

    /// The table from value to symbol.
    pub fn sym(&self) -> (r: &[u8; 256])
        ensures
            r@ == self@.sym,
    {
        &self.sym
    }

    /// The table from ASCII byte to value.
    pub fn val(&self) -> (r: &[u8; 128])
        ensures
            r@ == self@.val,
    {
        &self.val
    }

    /// Whether this is the arithmetic codec.
    pub fn is_arithmetic(&self) -> (r: bool)
        ensures
            r == self@.arithmetic,
            self@.wf(),
            self@.tidy(),
    {
        proof {
            use_type_invariant(self);
        }
        self.arithmetic
    }

    /// The alphabet.
    pub fn get_symbols(&self) -> (r: &[u8])
        ensures
            r@ == self@.symbols(),
    {
        proof {
            use_type_invariant(self);
            if !self.arithmetic {
                crate::block::lemma_block_shape(self.bit as nat);
            }
        }
        let n: usize = if self.arithmetic {
            self.base as usize
        } else {
            radix_usize(self.bit as usize)
        };
        let all: &[u8] = &self.sym;
        &all[0..n]
    }

    /// The padding.
    pub fn pad(&self) -> (r: Option<u8>)
        ensures
            r == self@.pad,
    {
        self.pad
    }

    /// How the padding is read.
    pub fn pad_mode(&self) -> (r: PaddingMode)
        ensures
            r == self@.pad_mode,
    {
        self.pad_mode
    }

    /// Whether the bits behind the last whole byte must be zero.
    pub fn ctb(&self) -> (r: bool)
        ensures
            r == self@.ctb,
    {
        self.ctb
    }

    /// Whether the most significant bit comes first.
    pub fn msb(&self) -> (r: bool)
        ensures
            r == self@.msb,
    {
        self.msb
    }

    /// How many bits a symbol has; 0 for the arithmetic codec.
    pub fn bit(&self) -> (r: usize)
        ensures
            r == self@.bit,
            !self@.arithmetic ==> valid_bit(r as nat),
    {
        proof {
            use_type_invariant(self);
        }
        self.bit as usize
    }

    /// The width of a line and the separator behind it, where the text is wrapped.
    pub fn wrap(&self) -> (r: Option<(usize, &[u8])>)
        ensures
            crate::block::spec_wrap(r) == self@.wrap,
            crate::block::spec_wrap_lens(r) == self@.wrap_sizes(),
    {
        proof {
            use_type_invariant(self);
        }
        if self.wrap_width == 0 {
            None
        } else {
            let all: &[u8] = &self.wrap_sep;
            Some((self.wrap_width as usize, &all[0..self.wrap_len as usize]))
        }
    }

    /// Whether there are bytes to skip when decoding.
    pub fn has_ignore(&self) -> (r: bool)
        ensures
            r == self@.ignore,
    {
        self.ignore
    }

    /// The least numbers of bytes and of symbols that go together: a block, or a
    /// line with its separator where the text is wrapped.
    pub fn block_len(&self) -> (r: (usize, usize))
        requires
            !self@.arithmetic,
        ensures
            r == match self@.wrap {
                None => (dec_of(self@.bit) as usize, enc_of(self@.bit) as usize),
                Some((width, sep)) => (
                    (width / enc_of(self@.bit) * dec_of(self@.bit)) as usize,
                    (width + sep.len()) as usize,
                ),
            },
    {
        proof {
            use_type_invariant(self);
            crate::block::lemma_block_shape(self.bit as nat);
        }
        let bit = self.bit();
        match self.wrap() {
            Some((col, end)) => {
                proof {
                    let q = col / enc_of(bit as nat) as usize;
                    assert(q * dec_of(bit as nat) <= 255 * 8) by (nonlinear_arith)
                        requires
                            q <= 255,
                            dec_of(bit as nat) <= 8,
                    ;
                }
                (col / enc(bit) * dec(bit), col + end.len())
            },
            None => (dec(bit), enc(bit)),
        }
    }

    /// How long the text of `len` bytes is, where a `usize` holds that.
    pub fn encode_len(&self, len: usize) -> (r: Result<usize, EncodeError>)
        ensures
            r is Ok <==> self@.encode_len(len as nat) <= usize::MAX,
            r matches Ok(n) ==> n == self@.encode_len(len as nat),
            r matches Err(e) ==> e.kind == EncodeKind::Overflow,
    {
        proof {
            use_type_invariant(self);
        }
        let total = if self.is_arithmetic() {
            match (len / 2).checked_add(2) {
                Some(extra) => len.checked_add(extra),
                None => None,
            }
        } else {
            let wrap_info = match self.wrap() {
                None => None,
                Some((width, sep)) => Some((width, sep.len())),
            };
            encode_wrap_len(self.bit(), self.pad().is_some(), wrap_info, len)
        };
        match total {
            Some(n) => Ok(n),
            None => Err(EncodeError { kind: EncodeKind::Overflow }),
        }
    }

    /// The step by which an output buffer is best filled: the length of the text
    /// of a block, or of a line with its separator where the text is wrapped; 1
    /// for the arithmetic codec.
    pub fn encode_align(&self) -> (r: usize)
        ensures
            r == if self@.arithmetic {
                1
            } else {
                match self@.wrap {
                    None => enc_of(self@.bit) as usize,
                    Some((width, sep)) => (width + sep.len()) as usize,
                }
            },
    {
        if self.is_arithmetic() {
            return 1;
        }
        self.block_len().1
    }

    /// Encodes `input` into `output` and returns the length of the text.
    ///
    /// The block codec fills `output`, whose length must be what
    /// [`Encoding::encode_len`] gives for the input: it fails with `BufferTooSmall`
    /// where it is not, and with `Overflow` where there is no such length, and
    /// leaves `output` as it is then. The arithmetic codec writes to the front of
    /// `output`; it fails with `Overflow` where the input has more than 512 bytes
    /// and with `BufferTooSmall` where the text does not fit, and then leaves in
    /// `output` what it wrote before.
    pub fn encode_mut(&self, input: &[u8], output: &mut [u8]) -> (r: Result<usize, EncodeError>)
        ensures
            final(output)@.len() == old(output)@.len(),
            match self@.encode_result(input@, old(output)@.len()) {
                Ok(n) => r == Ok::<usize, EncodeError>(n as usize) && final(output)@
                    == self@.encoded(input@) + old(output)@.subrange(
                    n as int,
                    old(output)@.len() as int,
                ),
                Err(kind) => r == Err::<usize, EncodeError>(EncodeError { kind }) && (
                !self@.arithmetic ==> final(output)@ == old(output)@),
            },
            self@.arithmetic ==> final(output)@ == arithmetic::encode_output(
                self@.symbols(),
                input@,
                old(output)@,
            ),
    {
        proof {
            use_type_invariant(self);
        }
        if self.is_arithmetic() {
            let symbols = self.get_symbols();
            arithmetic::encode_to_buffer(symbols, input, output)
        } else {
            let len = match self.encode_len(input.len()) {
                Ok(n) => n,
                Err(e) => {
                    return Err(e);
                },
            };
            if output.len() != len {
                return Err(EncodeError { kind: EncodeKind::BufferTooSmall });
            }
            let written = encode_wrap_mut(
                self.bit(),
                self.msb(),
                self.sym(),
                self.pad(),
                self.wrap(),
                input,
                output,
            );
            proof {
                crate::block::lemma_encode_wrap_len(
                    self@.bit,
                    self@.msb,
                    self@.sym,
                    self@.pad,
                    self@.wrap,
                    input@,
                );
                assert(output@ =~= self@.encoded(input@) + old(output)@.subrange(
                    written as int,
                    old(output)@.len() as int,
                ));
            }
            Ok(written)
        }
    }

    /// How many bytes a text of `len` bytes gives at most, or why no text has `len`
    /// bytes.
    pub fn decode_len(&self, len: usize) -> (r: Result<usize, DecodeError>)
        ensures
            match self@.decode_len(len as nat) {
                Ok(n) => r == Ok::<usize, DecodeError>(n as usize) && n <= len,
                Err(e) => r == Err::<usize, DecodeError>(e),
            },
    {
        proof {
            use_type_invariant(self);
        }
        if self.is_arithmetic() {
            return Ok(len);
        }
        let (ilen, olen) = decode_wrap_len(self.bit(), self.pad().is_some(), len);
        if !self.has_ignore() && len != ilen {
            return Err(DecodeError { position: ilen, kind: DecodeKind::Length });
        }
        Ok(olen)
    }

    /// Decodes `input` into `output` and returns how many bytes it gave.
    ///
    /// The length of `output` must be what [`Encoding::decode_len`] gives for the
    /// input: the block codec fails with `BufferTooSmall` where it is not. On a
    /// failure of the block codec, the first `read` bytes of the input were decoded
    /// to the first `written` bytes of `output`.
    pub fn decode_mut(&self, input: &[u8], output: &mut [u8]) -> (r: Result<usize, DecodePartial>)
        ensures
            final(output)@.len() == old(output)@.len(),
            match self@.decoded(input@, old(output)@.len()).failure {
                None => r == Ok::<usize, DecodePartial>(
                    self@.decoded(input@, old(output)@.len()).bytes.len() as usize,
                ),
                Some(f) => r == Err::<usize, DecodePartial>(f),
            },
            !self@.arithmetic || r is Ok ==> written_at(
                old(output)@,
                final(output)@,
                0,
                self@.decoded(input@, old(output)@.len()).bytes,
            ),
            self@.arithmetic ==> final(output)@ == arithmetic::decode_output(
                self@.symbols(),
                input@,
                old(output)@,
            ),
    {
        proof {
            use_type_invariant(self);
        }
        if self.is_arithmetic() {
            let symbols = self.get_symbols();
            match arithmetic::decode_to_buffer(symbols, input, output) {
                Ok(len) => {
                    proof {
                        let bytes = self@.decoded(input@, old(output)@.len()).bytes;
                        assert(final(output)@.subrange(0, bytes.len() as int) =~= bytes);
                    }
                    Ok(len)
                },
                Err(e) => Err(DecodePartial { read: e.position, written: 0, error: e }),
            }
        } else {
            let len = match self.decode_len(input.len()) {
                Ok(n) => n,
                Err(e) => {
                    proof {
                        assert(output@.subrange(0, 0) =~= Seq::<u8>::empty());
                    }
                    return Err(DecodePartial { read: 0, written: 0, error: e });
                },
            };
            if output.len() != len {
                proof {
                    assert(output@.subrange(0, 0) =~= Seq::<u8>::empty());
                }
                return Err(
                    DecodePartial {
                        read: 0,
                        written: 0,
                        error: DecodeError {
                            position: input.len(),
                            kind: DecodeKind::BufferTooSmall,
                        },
                    },
                );
            }
            let rules = Rules {
                bit: self.bit(),
                msb: self.msb(),
                ctb: self.ctb(),
                pad: self.pad(),
                pad_final: match self.pad_mode() {
                    PaddingMode::PadFinal => true,
                    _ => false,
                },
                ignore: self.has_ignore(),
            };
            decode_wrap_mut(rules, self.val(), input, output)
        }
    }

    /// Decodes `input`.
    pub fn decode(&self, input: &[u8]) -> (r: Result<Vec<u8>, DecodeError>)
        ensures
            match self@.decode_len(input@.len()) {
                Err(e) => r == Err::<Vec<u8>, DecodeError>(e),
                Ok(n) => match self@.decoded(input@, n).failure {
                    Some(f) => r == Err::<Vec<u8>, DecodeError>(f.error),
                    None => r is Ok && r->Ok_0@ == self@.decoded(input@, n).bytes,
                },
            },
    {
        let size = match self.decode_len(input.len()) {
            Ok(n) => n,
            Err(e) => {
                return Err(e);
            },
        };
        let mut output: Vec<u8> = vec![0u8; size];
        match self.decode_mut(input, output.as_mut_slice()) {
            Ok(len) => {
                output.truncate(len);
                Ok(output)
            },
            Err(partial) => Err(partial.error),
        }
    }

    /// How many bits a symbol holds: for the arithmetic codec, how many bits the
    /// number of symbols has.
    pub fn bit_width(&self) -> (r: usize)
        ensures
            !self@.arithmetic ==> r == self@.bit,
            self@.arithmetic ==> r >= 1 && crate::radix::pow(2, (r - 1) as nat) <= self@.base
                < crate::radix::pow(2, r as nat),
    {
        proof {
            use_type_invariant(self);
        }
        if self.is_arithmetic() {
            let base = self.base;
            let mut bits: usize = 1;
            let mut bound: u16 = 2;
            proof {
                reveal_with_fuel(crate::radix::pow, 2);
            }
            while bound <= base as u16
                invariant
                    1 <= bits <= 8,
                    2 <= base <= 128,
                    bound as nat == crate::radix::pow(2, bits as nat),
                    crate::radix::pow(2, (bits - 1) as nat) <= base,
                    bound <= 256,
                decreases 256 - bound,
            {
                proof {
                    assert(crate::radix::pow(2, (bits + 1) as nat) == 2 * crate::radix::pow(
                        2,
                        bits as nat,
                    ));
                    if bits >= 8 {
                        crate::radix::lemma_pow_monotonic(2, 8, bits as nat);
                        reveal_with_fuel(crate::radix::pow, 9);
                    }
                }
                bound = bound * 2;
                bits += 1;
            }
            bits
        } else {
            self.bit()
        }
    }

    /// Whether the encoding is canonical: it checks the trailing bits, and every
    /// byte that decodes to a value is the symbol of that value.
    pub fn is_canonical(&self) -> (r: bool)
        ensures
            r == self@.canonical(),
    {
        proof {
            use_type_invariant(self);
        }
        if !self.ctb {
            return false;
        }
        let num_symbols = self.get_symbols().len();
        proof {
            if !self.arithmetic {
                crate::block::lemma_block_shape(self.bit as nat);
            }
        }
        let mut i: usize = 0;
        while i < 128
            invariant
                i <= 128,
                self@.ctb,
                num_symbols == self@.symbols().len(),
                self@.sym.len() == 256,
                self@.val.len() == 128,
                num_symbols <= 256,
                forall|c: int|
                    0 <= c < i && #[trigger] self@.val[c] != crate::block::INVALID ==> (
                    self@.val[c] as int) < num_symbols && self@.sym[self@.val[c] as int] == c,
            decreases 128 - i,
        {
            let v = self.val[i];
            if v != crate::block::INVALID {
                if (v as usize) >= num_symbols {
                    return false;
                }
                if self.sym[v as usize] as usize != i {
                    return false;
                }
            }
            i += 1;
        }
        true
    }
    /// The text of `input` as a string.
    ///
    /// The text must have a length: for the block codec, one that a `usize` holds;
    /// for the arithmetic codec, the input must have at most 512 bytes and its text
    /// at most as many as [`Encoding::encode_len`] allows for.
    pub fn encode(&self, input: &[u8]) -> (s: String)
        requires
            self@.encode_len(input@.len()) <= usize::MAX,
            self@.encode_result(input@, self@.encode_len(input@.len())) is Ok,
        ensures
            s@ == ascii_chars(self@.encoded(input@)),
    {
        proof {
            use_type_invariant(self);
            self@.lemma_encoded_ascii(input@);
        }
        let len = match self.encode_len(input.len()) {
            Ok(n) => n,
            Err(_) => vstd::pervasive::unreached(),
        };
        let mut output: Vec<u8> = vec![0u8; len];
        let written = match self.encode_mut(input, output.as_mut_slice()) {
            Ok(n) => n,
            Err(_) => vstd::pervasive::unreached(),
        };
        output.truncate(written);
        proof {
            assert(output@ =~= self@.encoded(input@));
        }
        ascii_string(output)
    }

    /// The specification of this encoding.
    pub fn specification(&self) -> (s: Specification)
        ensures
            s@ == self@.specification(),
    {
        proof {
            use_type_invariant(self);
            if !self.arithmetic {
                crate::block::lemma_block_shape(self.bit as nat);
            }
        }
        let symbols = self.get_symbols();
        let count = symbols.len();
        let mut names: Vec<u8> = Vec::new();
        let mut k: usize = 0;
        while k < count
            invariant
                k <= count,
                count == symbols@.len(),
                names@ == symbols@.subrange(0, k as int),
            decreases count - k,
        {
            names.push(symbols[k]);
            proof {
                assert(names@ =~= symbols@.subrange(0, k + 1));
            }
            k += 1;
        }
        proof {
            assert(symbols@.subrange(0, count as int) =~= symbols@);
            assert(is_ascii(names@)) by {
                assert forall|i: int| 0 <= i < names@.len() implies #[trigger] names@[i]
                    < 128 by {
                    assert(self@.sym[i] < 128);
                }
            }
        }
        let mut ignore: Vec<u8> = Vec::new();
        let mut from: Vec<u8> = Vec::new();
        let mut to: Vec<u8> = Vec::new();
        let mut c: u8 = 0;
        proof {
            assert(ignore@ + ignored_from(self@.val, 0) =~= ignored_from(self@.val, 0));
            assert(from@ + self@.translated_from(0) =~= self@.translated_from(0));
            assert(to@ + self@.translated_to(0) =~= self@.translated_to(0));
        }
        while c < 128
            invariant
                c <= 128,
                self@.wf(),
                count == self@.symbols().len(),
                count <= 128,
                is_ascii(ignore@),
                is_ascii(from@),
                is_ascii(to@),
                ignored_from(self@.val, 0) == ignore@ + ignored_from(self@.val, c as nat),
                self@.translated_from(0) == from@ + self@.translated_from(c as nat),
                self@.translated_to(0) == to@ + self@.translated_to(c as nat),
            decreases 128 - c,
        {
            let v = self.val[c as usize];
            let ghost rest_ignore = ignored_from(self@.val, (c + 1) as nat);
            let ghost rest_from = self@.translated_from((c + 1) as nat);
            let ghost rest_to = self@.translated_to((c + 1) as nat);
            if v == IGNORE {
                ignore.push(c);
                proof {
                    assert(ignore@ + rest_ignore =~= ignore@.drop_last() + (seq![c] + rest_ignore));
                }
            }
            let canonical: Option<u8> = if (v as usize) < count {
                Some(self.sym[v as usize])
            } else if v == PADDING {
                self.pad
            } else {
                None
            };
            match canonical {
                Some(x) => {
                    if x != c {
                        from.push(c);
                        to.push(x);
                        proof {
                            assert(from@ + rest_from =~= from@.drop_last() + (seq![c] + rest_from));
                            assert(to@ + rest_to =~= to@.drop_last() + (seq![x] + rest_to));
                            assert(self@.sym[v as int] < 128);
                        }
                    }
                },
                None => {},
            }
            c += 1;
        }
        proof {
            assert(ignore@ + Seq::<u8>::empty() =~= ignore@);
            assert(from@ + Seq::<u8>::empty() =~= from@);
            assert(to@ + Seq::<u8>::empty() =~= to@);
        }
        let mut separator: Vec<u8> = Vec::new();
        let mut width: usize = 0;
        match self.wrap() {
            None => {},
            Some((w, sep)) => {
                width = w;
                let n = sep.len();
                let mut i: usize = 0;
                while i < n
                    invariant
                        i <= n,
                        n == sep@.len(),
                        separator@ == sep@.subrange(0, i as int),
                    decreases n - i,
                {
                    separator.push(sep[i]);
                    proof {
                        assert(separator@ =~= sep@.subrange(0, i + 1));
                    }
                    i += 1;
                }
                proof {
                    assert(sep@.subrange(0, n as int) =~= sep@);
                    assert(is_ascii(separator@)) by {
                        assert forall|i: int| 0 <= i < separator@.len() implies #[trigger] separator@[i]
                            < 128 by {
                            assert(sep@[i] < 128);
                        }
                    }
                }
            },
        }
        proof {
            crate::text::lemma_ascii_is_utf8(names@);
            crate::text::lemma_ascii_is_utf8(ignore@);
            crate::text::lemma_ascii_is_utf8(separator@);
            crate::text::lemma_ascii_is_utf8(from@);
            crate::text::lemma_ascii_is_utf8(to@);
        }
        Specification {
            symbols: ascii_string(names),
            bit_order: if self.msb {
                BitOrder::MostSignificantFirst
            } else {
                BitOrder::LeastSignificantFirst
            },
            check_trailing_bits: self.ctb,
            padding: match self.pad {
                None => None,
                Some(p) => Some(p as char),
            },
            padding_mode: match self.pad {
                None => PaddingMode::Standard,
                Some(_) => self.pad_mode,
            },
            ignore: ascii_string(ignore),
            wrap: Wrap { width, separator: ascii_string(separator) },
            translate: Translate { from: ascii_string(from), to: ascii_string(to) },
            use_arithmetic: self.arithmetic,
        }
    }
}

/// The bytes from `c` on that the table marks as skipped.
pub open spec fn ignored_from(val: Seq<u8>, c: nat) -> Seq<u8>
    decreases 128 - c,
{
    if c >= 128 {
        Seq::empty()
    } else if val[c as int] == IGNORE {
        seq![c as u8] + ignored_from(val, c + 1)
    } else {
        ignored_from(val, c + 1)
    }
}

impl EncodingView {
    /// What the byte `c` is read as: the symbol of its value, or the padding where
    /// it is marked as padding; nothing where it has no such meaning.
    pub open spec fn read_as(self, c: nat) -> Option<u8> {
        let v = self.val[c as int];
        if (v as int) < self.symbols().len() {
            Some(self.sym[v as int])
        } else if v == PADDING {
            self.pad
        } else {
            None
        }
    }

    /// The bytes from `c` on that are read as another byte.
    pub open spec fn translated_from(self, c: nat) -> Seq<u8>
        decreases 128 - c,
    {
        if c >= 128 {
            Seq::empty()
        } else if self.read_as(c) is Some && self.read_as(c) != Some(c as u8) {
            seq![c as u8] + self.translated_from(c + 1)
        } else {
            self.translated_from(c + 1)
        }
    }

    /// What the bytes from `c` on that are read as another byte are read as.
    pub open spec fn translated_to(self, c: nat) -> Seq<u8>
        decreases 128 - c,
    {
        if c >= 128 {
            Seq::empty()
        } else if self.read_as(c) is Some && self.read_as(c) != Some(c as u8) {
            seq![self.read_as(c)->Some_0] + self.translated_to(c + 1)
        } else {
            self.translated_to(c + 1)
        }
    }

    /// The specification of an encoding: its alphabet, its rules, the bytes that
    /// it skips, which are those of its separator too, and the bytes that it reads
    /// as others.
    pub open spec fn specification(self) -> SpecificationView {
        SpecificationView {
            symbols: self.symbols(),
            msb: self.msb,
            check_trailing_bits: self.ctb,
            padding: match self.pad {
                None => None,
                Some(p) => Some(p as char),
            },
            padding_mode: match self.pad {
                None => PaddingMode::Standard,
                Some(_) => self.pad_mode,
            },
            ignore: ignored_from(self.val, 0),
            wrap_width: match self.wrap {
                None => 0,
                Some((width, _)) => width,
            },
            separator: match self.wrap {
                None => Seq::empty(),
                Some((_, sep)) => sep,
            },
            from: self.translated_from(0),
            to: self.translated_to(0),
            use_arithmetic: self.arithmetic,
        }
    }

    /// The text of an input is ASCII.
    pub proof fn lemma_encoded_ascii(self, input: Seq<u8>)
        requires
            self.wf(),
        ensures
            is_ascii(self.encoded(input)),
    {
        if self.arithmetic {
            assert(is_ascii(self.symbols())) by {
                assert forall|i: int| 0 <= i < self.symbols().len() implies #[trigger] self.symbols()[i]
                    < 128 by {
                    assert(self.sym[i] < 128);
                }
            }
            arithmetic::lemma_encoded_ascii(self.symbols(), input);
        } else {
            match self.wrap {
                None => {},
                Some((width, sep)) => {
                    assert(is_ascii(sep)) by {
                        assert forall|i: int| 0 <= i < sep.len() implies #[trigger] sep[i]
                            < 128 by {}
                    }
                },
            }
            crate::block::lemma_encode_wrap_ascii(
                self.bit,
                self.msb,
                self.sym,
                self.pad,
                self.wrap,
                input,
            );
        }
    }
}

/// The number of symbols of the block codec.
fn radix_usize(bit: usize) -> (r: usize)
    requires
        valid_bit(bit as nat),
    ensures
        r == radix_of(bit as nat),
{
    proof {
        crate::block::lemma_block_shape(bit as nat);
    }
    match bit {
        1 => 2,
        2 => 4,
        3 => 8,
        4 => 16,
        5 => 32,
        _ => 64,
    }
}

} // verus!
