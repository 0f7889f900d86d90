//! Encoding an input that comes in pieces.
use crate::block::{
    ceil_div, dec_of, enc_of, encode_base_spec, encode_pad_spec, lemma_base_len_blocks,
    lemma_base_len_monotonic, lemma_base_len_small, lemma_block_shape, lemma_encode_base_len, lemma_encode_pad_append,
    lemma_wrap_append, pad_len,
};
use crate::encoding::{Encoding, EncodingView};
use crate::text::ascii_chars;
use vstd::prelude::*;
use vstd::string::StringExecFns;

verus! {

impl EncodingView {
    /// How many bytes make a whole number of blocks, or of lines where the text is
    /// wrapped: inputs of such lengths can be encoded one after the other.
    pub open spec fn unit(self) -> nat {
        match self.wrap {
            None => dec_of(self.bit),
            Some((width, _)) => width / enc_of(self.bit) * dec_of(self.bit),
        }
    }

    /// The unit is at least one byte and at most 255.
    pub proof fn lemma_unit(self)
        requires
            self.wf(),
            !self.arithmetic,
        ensures
            1 <= self.unit() <= 255,
            self.unit() % dec_of(self.bit) == 0,
    {
        let d = dec_of(self.bit);
        let e = enc_of(self.bit);
        lemma_block_shape(self.bit);
        vstd::arithmetic::div_mod::lemma_mod_self_0(d as int);
        match self.wrap {
            None => {},
            Some((width, _)) => {
                let k = width / e;
                vstd::arithmetic::div_mod::lemma_fundamental_div_mod(width as int, e as int);
                assert(k >= 1 && k * e == width) by (nonlinear_arith)
                    requires
                        width == e * k + width % e,
                        width % e == 0,
                        width > 0,
                        e > 0,
                ;
                assert(k * d >= 1 && k * d <= width) by (nonlinear_arith)
                    requires
                        k >= 1,
                        k * e == width,
                        1 <= d <= e,
                ;
                vstd::arithmetic::div_mod::lemma_mod_multiples_basic(k as int, d as int);
            },
        }
    }

    /// The text of whole units and of what follows them is the text of the units
    /// and then the text of what follows.
    pub proof fn lemma_encoded_append(self, a: Seq<u8>, b: Seq<u8>)
        requires
            self.wf(),
            !self.arithmetic,
            a.len() % self.unit() == 0,
        ensures
            self.encoded(a + b) == self.encoded(a) + self.encoded(b),
    {
        let bit = self.bit;
        let d = dec_of(bit);
        let e = enc_of(bit);
        self.lemma_unit();
        lemma_block_shape(bit);
        let unit = self.unit();
        assert(a.len() % d == 0) by {
            lemma_multiple(a.len(), unit, d);
        }
        lemma_encode_pad_append(bit, self.msb, self.sym, self.pad, a, b);
        lemma_encode_pad_append(bit, self.msb, self.sym, self.pad, a, Seq::<u8>::empty());
        assert(a + Seq::<u8>::empty() =~= a);
        crate::laws::lemma_encode_pad_empty(bit, self.msb, self.sym, self.pad);
        let x = encode_base_spec(bit, self.msb, self.sym, a);
        assert(x + Seq::<u8>::empty() =~= x);
        assert(encode_pad_spec(bit, self.msb, self.sym, self.pad, a) == x);
        match self.wrap {
            None => {},
            Some((width, sep)) => {
                lemma_encode_base_len(bit, self.msb, self.sym, a);
                lemma_base_len_blocks(bit, a.len());
                lemma_base_len_small(bit, 0);
                // Whole units are whole lines.
                let k = width / e;
                vstd::arithmetic::div_mod::lemma_fundamental_div_mod(width as int, e as int);
                vstd::arithmetic::div_mod::lemma_fundamental_div_mod(a.len() as int, unit as int);
                vstd::arithmetic::div_mod::lemma_fundamental_div_mod(a.len() as int, d as int);
                let units = a.len() / unit;
                let blocks = a.len() / d;
                assert(blocks == units * k) by (nonlinear_arith)
                    requires
                        a.len() == unit * units,
                        a.len() == d * blocks,
                        unit == k * d,
                        d > 0,
                ;
                assert(blocks * e == units * width) by (nonlinear_arith)
                    requires
                        blocks == units * k,
                        width == e * k,
                ;
                vstd::arithmetic::div_mod::lemma_mod_multiples_basic(units as int, width as int);
                lemma_wrap_append(
                    x,
                    encode_pad_spec(bit, self.msb, self.sym, self.pad, b),
                    width,
                    sep,
                );
            },
        }
    }

    /// How long the text of a unit is: a block of symbols, or a line with its
    /// separator.
    pub open spec fn unit_text(self) -> nat {
        match self.wrap {
            None => enc_of(self.bit),
            Some((width, sep)) => width + sep.len(),
        }
    }

    /// The text of whole units is as many times as long as the text of one, which
    /// is no shorter than the unit.
    pub proof fn lemma_units_len(self, k: nat)
        requires
            self.wf(),
            !self.arithmetic,
        ensures
            self.encode_len(k * self.unit()) == k * self.unit_text(),
            self.unit() <= self.unit_text(),
    {
        let bit = self.bit;
        let d = dec_of(bit);
        let e = enc_of(bit);
        let unit = self.unit();
        let n = k * unit;
        self.lemma_unit();
        lemma_block_shape(bit);
        lemma_base_len_blocks(bit, n);
        lemma_base_len_small(bit, 0);
        let w = unit / d;
        vstd::arithmetic::div_mod::lemma_fundamental_div_mod(unit as int, d as int);
        assert(n == d * (k * w)) by (nonlinear_arith)
            requires
                n == k * unit,
                unit == d * w,
        ;
        vstd::arithmetic::div_mod::lemma_fundamental_div_mod_converse(
            n as int,
            d as int,
            (k * w) as int,
            0,
        );
        let symbols = pad_len(bit, self.pad is Some, n);
        assert(symbols == (k * w) * e);
        match self.wrap {
            None => {
                assert(w == 1);
                assert(k * 1 == k) by (nonlinear_arith);
            },
            Some((width, sep)) => {
                let q = width / e;
                vstd::arithmetic::div_mod::lemma_fundamental_div_mod(width as int, e as int);
                vstd::arithmetic::div_mod::lemma_div_multiples_vanish(q as int, d as int);
                assert(q * d == d * q) by (nonlinear_arith);
                assert(w == q);
                assert(symbols == k * width) by (nonlinear_arith)
                    requires
                        symbols == (k * w) * e,
                        width == e * w,
                ;
                assert(k * width == width * k) by (nonlinear_arith);
                vstd::arithmetic::div_mod::lemma_div_multiples_vanish_fancy(
                    k as int,
                    (width - 1) as int,
                    width as int,
                );
                assert(ceil_div(symbols, width) == k);
                assert(k * width + sep.len() * k == k * (width + sep.len())) by (nonlinear_arith);
                assert(q * d <= q * e) by (nonlinear_arith)
                    requires
                        d <= e,
                ;
                assert(q * e == e * q) by (nonlinear_arith);
            },
        }
    }

    /// The text of a longer input is no shorter.
    pub proof fn lemma_encode_len_monotonic(self, a: nat, b: nat)
        requires
            self.wf(),
            !self.arithmetic,
            a <= b,
        ensures
            self.encode_len(a) <= self.encode_len(b),
    {
        let padded = self.pad is Some;
        lemma_base_len_monotonic(self.bit, a, b);
        let x = pad_len(self.bit, padded, a);
        let y = pad_len(self.bit, padded, b);
        match self.wrap {
            None => {},
            Some((width, sep)) => {
                vstd::arithmetic::div_mod::lemma_div_is_ordered(
                    (x + width - 1) as int,
                    (y + width - 1) as int,
                    width as int,
                );
                assert(sep.len() * ceil_div(x, width) <= sep.len() * ceil_div(y, width))
                    by (nonlinear_arith)
                    requires
                        ceil_div(x, width) <= ceil_div(y, width),
                ;
            },
        }
    }

    /// A text is short of 128 times the length of its input, and one.
    pub proof fn lemma_encode_len_bound(self, n: nat)
        requires
            self.wf(),
            !self.arithmetic,
        ensures
            self.encode_len(n) <= 128 * (n + 1),
    {
        let bit = self.bit;
        let d = dec_of(bit);
        let e = enc_of(bit);
        lemma_block_shape(bit);
        lemma_base_len_blocks(bit, n);
        lemma_base_len_small(bit, n % d);
        let q = n / d;
        vstd::arithmetic::div_mod::lemma_fundamental_div_mod(n as int, d as int);
        assert(q <= n) by (nonlinear_arith)
            requires
                n == d * q + n % d,
                n % d >= 0,
                d >= 1,
                q >= 0,
        ;
        assert(q * e <= 8 * n) by (nonlinear_arith)
            requires
                q <= n,
                e <= 8,
        ;
        let symbols = pad_len(bit, self.pad is Some, n);
        assert(symbols <= 8 * (n + 1));
        match self.wrap {
            None => {},
            Some((width, sep)) => {
                let lines = ceil_div(symbols, width);
                assert(lines <= symbols) by {
                    if symbols == 0 {
                        vstd::arithmetic::div_mod::lemma_basic_div(
                            (width - 1) as int,
                            width as int,
                        );
                    } else {
                        assert(symbols + width - 1 <= symbols * width) by (nonlinear_arith)
                            requires
                                symbols >= 1,
                                width >= 1,
                        ;
                        assert(width * symbols == symbols * width) by (nonlinear_arith);
                        vstd::arithmetic::div_mod::lemma_div_is_ordered(
                            (symbols + width - 1) as int,
                            (symbols * width) as int,
                            width as int,
                        );
                        vstd::arithmetic::div_mod::lemma_div_multiples_vanish(
                            symbols as int,
                            width as int,
                        );
                    }
                }
                assert(sep.len() * lines <= 15 * symbols) by (nonlinear_arith)
                    requires
                        sep.len() <= 15,
                        lines <= symbols,
                ;
            },
        }
    }
}

/// A multiple of a multiple of `d` is a multiple of `d`.
proof fn lemma_multiple(i: nat, m: nat, d: nat)
    requires
        m > 0,
        d > 0,
        i % m == 0,
        m % d == 0,
    ensures
        i % d == 0,
{
    vstd::arithmetic::div_mod::lemma_fundamental_div_mod(i as int, m as int);
    vstd::arithmetic::div_mod::lemma_fundamental_div_mod(m as int, d as int);
    let a = i / m;
    let c = m / d;
    assert(i == (a * c) * d) by (nonlinear_arith)
        requires
            i == m * a,
            m == d * c,
    ;
    vstd::arithmetic::div_mod::lemma_mod_multiples_basic((a * c) as int, d as int);
}

/// The characters of bytes one behind the other.
pub proof fn lemma_ascii_chars_concat(a: Seq<u8>, b: Seq<u8>)
    ensures
        ascii_chars(a + b) == ascii_chars(a) + ascii_chars(b),
{
    assert(ascii_chars(a + b) =~= ascii_chars(a) + ascii_chars(b));
}

impl Encoding {
    /// Appends the text of `input` to `output`.
    ///
    /// The text must have a length, as for [`Encoding::encode`].
    pub fn encode_append(&self, input: &[u8], output: &mut String)
        requires
            self@.encode_len(input@.len()) <= usize::MAX,
            self@.encode_result(input@, self@.encode_len(input@.len())) is Ok,
        ensures
            final(output)@ == old(output)@ + ascii_chars(self@.encoded(input@)),
    {
        let text = self.encode(input);
        output.append(text.as_str());
    }

    /// How many bytes of input one filling of a buffer of `room` bytes takes: whole
    /// units, as many as their text has room for. The text of that many bytes, or
    /// of fewer, has room in the buffer; and cut into pieces of that length, an
    /// input can be encoded piece by piece.
    pub fn chunk_len(&self, room: usize) -> (r: usize)
        requires
            !self@.arithmetic,
        ensures
            r == room as nat / self@.unit_text() * self@.unit(),
            r as nat % self@.unit() == 0,
            forall|n: nat| n <= r ==> #[trigger] self@.encode_len(n) <= room,
    {
        let _arithmetic = self.is_arithmetic();
        let (ilen, olen) = self.block_len();
        let ghost k = (room / olen) as nat;
        proof {
            self@.lemma_unit();
            self@.lemma_units_len(k);
            lemma_block_shape(self@.bit);
            vstd::arithmetic::div_mod::lemma_fundamental_div_mod(room as int, olen as int);
            assert(k * ilen <= k * olen <= room) by (nonlinear_arith)
                requires
                    ilen <= olen,
                    room == olen * k + room % olen,
                    room % olen >= 0,
            ;
            vstd::arithmetic::div_mod::lemma_mod_multiples_basic(k as int, ilen as int);
            assert forall|n: nat| n <= k * ilen implies #[trigger] self@.encode_len(n)
                <= room by {
                self@.lemma_encode_len_monotonic(n, k * (ilen as nat));
            }
        }
        room / olen * ilen
    }

    /// An encoder that appends to `output`. An encoder is for the block codec.
    pub fn new_encoder<'a>(&'a self, output: &'a mut String) -> (r: Encoder<'a>)
        requires
            !self@.arithmetic,
        ensures
            r.wf(),
            r.encoding() == self@,
            r.start() == old(output)@,
            r.fed() == Seq::<u8>::empty(),
            r.text() == old(output)@,
    {
        Encoder::new(self, output)
    }
}

/// Encodes an input that comes in pieces, and appends the text to a string.
///
/// After the last piece [`Encoder::finalize`] must be called: what is left of the
/// input is no whole unit and is encoded only then.
pub struct Encoder<'a> {
    encoding: &'a Encoding,
    output: &'a mut String,
    buffer: [u8; 255],
    length: usize,
    start: Ghost<Seq<char>>,
    fed: Ghost<Seq<u8>>,
}

impl<'a> Encoder<'a> {
    /// The encoding.
    pub closed spec fn encoding(&self) -> EncodingView {
        self.encoding@
    }

    /// What the string held when the encoder was made, or last done.
    pub closed spec fn start(&self) -> Seq<char> {
        self.start@
    }

    /// The pieces of the input that the encoder has taken since.
    pub closed spec fn fed(&self) -> Seq<u8> {
        self.fed@
    }

    /// What the string holds.
    pub closed spec fn text(&self) -> Seq<char> {
        self.output@
    }

    /// How many bytes of the input are still to be encoded.
    pub closed spec fn pending(&self) -> nat {
        self.length as nat
    }

    /// The bytes that the encoder holds.
    pub closed spec fn held(&self) -> Seq<u8> {
        self.buffer@.subrange(0, self.length as int)
    }

    /// The bytes of the input whose text the string holds.
    pub open spec fn done(&self) -> Seq<u8> {
        self.fed().subrange(0, self.fed().len() - self.pending())
    }

    /// The string holds the text of the whole units of the input, and the encoder
    /// holds the rest, which is less than a unit.
    pub open spec fn wf(&self) -> bool {
        self.holds() && self.pending() < self.encoding().unit()
    }

    /// The string holds the text of whole units of the input, and the encoder
    /// holds the rest, which is at most a unit.
    pub open spec fn holds(&self) -> bool {
        let e = self.encoding();
        &&& e.wf()
        &&& !e.arithmetic
        &&& self.pending() <= e.unit()
        &&& self.pending() <= self.fed().len()
        &&& self.done().len() % e.unit() == 0
        &&& self.text() == self.start() + ascii_chars(e.encoded(self.done()))
        &&& self.held() == self.fed().subrange(
            self.fed().len() - self.pending(),
            self.fed().len() as int,
        )
    }

    /// What the encoder holds is what is left of the input when whole units are
    /// taken from it.
    pub proof fn lemma_pending(&self)
        requires
            self.wf(),
        ensures
            self.pending() == self.fed().len() % self.encoding().unit(),
    {
        let unit = self.encoding().unit();
        let done = self.done().len();
        vstd::arithmetic::div_mod::lemma_fundamental_div_mod(done as int, unit as int);
        vstd::arithmetic::div_mod::lemma_fundamental_div_mod_converse(
            self.fed().len() as int,
            unit as int,
            (done / unit) as int,
            self.pending() as int,
        );
        assert((done / unit) * unit == unit * (done / unit)) by (nonlinear_arith);
    }

    fn new(encoding: &'a Encoding, output: &'a mut String) -> (r: Encoder<'a>)
        requires
            !encoding@.arithmetic,
        ensures
            r.wf(),
            r.encoding() == encoding@,
            r.start() == old(output)@,
            r.fed() == Seq::<u8>::empty(),
            r.text() == old(output)@,
    {
        let ghost start = output@;
        let _arithmetic = encoding.is_arithmetic();
        proof {
            let e = encoding@;
            let none = Seq::<u8>::empty();
            e.lemma_unit();
            assert(none.subrange(0, 0) =~= none);
            crate::laws::lemma_encode_pad_empty(e.bit, e.msb, e.sym, e.pad);
            assert(e.encoded(none) =~= none);
            assert(start + ascii_chars(none) =~= start);
            vstd::arithmetic::div_mod::lemma_small_mod(0, e.unit());
        }
        let r = Encoder {
            encoding,
            output,
            buffer: [0u8; 255],
            length: 0,
            start: Ghost(start),
            fed: Ghost(Seq::empty()),
        };
        proof {
            let none = Seq::<u8>::empty();
            assert(r.fed@.subrange(0, r.fed@.len() - r.length) =~= none);
            assert(r.buffer@.subrange(0, 0) =~= r.fed@.subrange(0, 0));
            assert(r.output@ == start);
        }
        r
    }

    /// How many bytes a unit has.
    fn unit(&self) -> (unit: usize)
        requires
            self.wf(),
        ensures
            unit == self.encoding().unit(),
            1 <= unit <= 255,
    {
        proof {
            self.encoding@.lemma_unit();
        }
        let (unit, _) = self.encoding.block_len();
        unit
    }

    /// Fills up what the encoder holds with the first bytes of `input`, and
    /// returns how many bytes it took: all of them, or else the encoder holds a
    /// unit afterwards. An encoder that holds nothing takes nothing.
    fn fill(&mut self, input: &[u8]) -> (taken: usize)
        requires
            old(self).wf(),
        ensures
            final(self).holds(),
            final(self).encoding() == old(self).encoding(),
            final(self).start() == old(self).start(),
            taken <= input@.len(),
            final(self).fed() == old(self).fed() + input@.subrange(0, taken as int),
            old(self).pending() == 0 ==> taken == 0 && final(self).pending() == 0,
            taken < input@.len() && old(self).pending() > 0 ==> final(self).pending() == old(
                self,
            ).encoding().unit(),
    {
        let ghost fed0 = self.fed@;
        let ghost done0 = fed0.subrange(0, fed0.len() - self.length);
        let unit = self.unit();
        let total = input.len();
        if self.length == 0 {
            proof {
                assert(fed0 + input@.subrange(0, 0) =~= fed0);
            }
            return 0;
        }
        let room = unit - self.length;
        let n = if room < total {
            room
        } else {
            total
        };
        let ghost held = self.buffer@.subrange(0, self.length as int);
        let mut i: usize = 0;
        while i < n
            invariant
                i <= n,
                n <= total,
                total == input@.len(),
                self.length + n <= unit <= 255,
                self.length == old(self).length,
                self.encoding == old(self).encoding,
                self.output@ == old(self).output@,
                self.start == old(self).start,
                self.fed == old(self).fed,
                self.buffer@.subrange(0, self.length as int) == held,
                forall|j: int| 0 <= j < i ==> self.buffer@[self.length + j] == input@[j],
            decreases n - i,
        {
            let ghost before = self.buffer@;
            self.buffer[self.length + i] = input[i];
            proof {
                assert(self.buffer@.subrange(0, self.length as int) =~= before.subrange(
                    0,
                    self.length as int,
                ));
            }
            i += 1;
        }
        let ghost piece = input@.subrange(0, n as int);
        proof {
            assert(self.buffer@.subrange(0, self.length + n) =~= held + piece) by {
                assert forall|j: int| 0 <= j < self.length + n implies self.buffer@[j] == (held
                    + piece)[j] by {
                    if j < self.length {
                        assert(self.buffer@.subrange(0, self.length as int)[j] == held[j]);
                    }
                }
            }
            self.fed@ = fed0 + piece;
            assert(self.fed@.subrange(0, self.fed@.len() - (self.length + n)) =~= done0);
            assert(self.fed@.subrange(
                self.fed@.len() - (self.length + n),
                self.fed@.len() as int,
            ) =~= held + piece);
        }
        self.length += n;
        n
    }

    /// Encodes the unit that the encoder holds.
    fn flush(&mut self)
        requires
            old(self).holds(),
            old(self).pending() == old(self).encoding().unit(),
        ensures
            final(self).wf(),
            final(self).pending() == 0,
            final(self).encoding() == old(self).encoding(),
            final(self).start() == old(self).start(),
            final(self).fed() == old(self).fed(),
    {
        let ghost e = self.encoding@;
        let ghost fed0 = self.fed@;
        let ghost done0 = fed0.subrange(0, fed0.len() - self.length);
        let _arithmetic = self.encoding.is_arithmetic();
        proof {
            e.lemma_unit();
        }
        let (unit, _) = self.encoding.block_len();
        let ghost chunk = self.buffer@.subrange(0, unit as int);
        proof {
            e.lemma_encode_len_bound(unit as nat);
            e.lemma_encoded_append(done0, chunk);
            lemma_ascii_chars_concat(e.encoded(done0), e.encoded(chunk));
            vstd::arithmetic::div_mod::lemma_mod_adds(
                done0.len() as int,
                unit as int,
                unit as int,
            );
            vstd::arithmetic::div_mod::lemma_mod_self_0(unit as int);
        }
        let all: &[u8] = &self.buffer;
        self.encoding.encode_append(&all[0..unit], self.output);
        self.length = 0;
        proof {
            assert(self.fed@.subrange(0, self.fed@.len() as int) =~= done0 + chunk);
            assert(self.start@ + ascii_chars(e.encoded(done0)) + ascii_chars(e.encoded(chunk))
                =~= self.start@ + (ascii_chars(e.encoded(done0)) + ascii_chars(e.encoded(chunk))));
            assert(self.buffer@.subrange(0, 0) =~= self.fed@.subrange(
                self.fed@.len() as int,
                self.fed@.len() as int,
            ));
        }
    }

    /// Fills up what the encoder holds with the first bytes of `input`, and
    /// encodes it where that makes a unit. Returns how many bytes it took: all
    /// of them, or else the encoder holds nothing afterwards.
    fn top_up(&mut self, input: &[u8]) -> (taken: usize)
        requires
            old(self).wf(),
        ensures
            final(self).wf(),
            final(self).encoding() == old(self).encoding(),
            final(self).start() == old(self).start(),
            taken <= input@.len(),
            final(self).fed() == old(self).fed() + input@.subrange(0, taken as int),
            taken < input@.len() ==> final(self).pending() == 0,
    {
        let unit = self.unit();
        let taken = self.fill(input);
        if self.length == unit {
            self.flush();
        }
        taken
    }

    /// Encodes the whole units at the front of `input`, and returns how many
    /// bytes they are. The encoder holds nothing.
    fn take_units(&mut self, input: &[u8]) -> (taken: usize)
        requires
            old(self).wf(),
            old(self).pending() == 0,
            old(self).encoding().encode_len(input@.len()) <= usize::MAX,
        ensures
            final(self).wf(),
            final(self).pending() == 0,
            final(self).encoding() == old(self).encoding(),
            final(self).start() == old(self).start(),
            taken <= input@.len(),
            input@.len() - taken < old(self).encoding().unit(),
            final(self).fed() == old(self).fed() + input@.subrange(0, taken as int),
    {
        let ghost e = self.encoding@;
        let ghost fed0 = self.fed@;
        let unit = self.unit();
        let whole = crate::block::floor(input.len(), unit);
        let ghost chunk = input@.subrange(0, whole as int);
        proof {
            assert(fed0.subrange(0, fed0.len() as int) =~= fed0);
            e.lemma_encode_len_monotonic(whole as nat, input@.len());
            e.lemma_encoded_append(fed0, chunk);
            lemma_ascii_chars_concat(e.encoded(fed0), e.encoded(chunk));
            vstd::arithmetic::div_mod::lemma_fundamental_div_mod(input@.len() as int, unit as int);
            vstd::arithmetic::div_mod::lemma_mod_multiples_basic(
                (input@.len() / (unit as nat)) as int,
                unit as int,
            );
            vstd::arithmetic::div_mod::lemma_mod_adds(
                fed0.len() as int,
                whole as int,
                unit as int,
            );
        }
        self.encoding.encode_append(&input[0..whole], self.output);
        proof {
            self.fed@ = fed0 + chunk;
            assert(self.fed@.subrange(0, self.fed@.len() as int) =~= fed0 + chunk);
            assert(self.start@ + ascii_chars(e.encoded(fed0)) + ascii_chars(e.encoded(chunk))
                =~= self.start@ + (ascii_chars(e.encoded(fed0)) + ascii_chars(e.encoded(chunk))));
            assert(self.buffer@.subrange(0, 0) =~= self.fed@.subrange(
                self.fed@.len() as int,
                self.fed@.len() as int,
            ));
        }
        whole
    }

    /// Holds `input`, which is less than a unit, for later. The encoder holds
    /// nothing before.
    fn hold(&mut self, input: &[u8])
        requires
            old(self).wf(),
            old(self).pending() == 0,
            input@.len() < old(self).encoding().unit(),
        ensures
            final(self).wf(),
            final(self).encoding() == old(self).encoding(),
            final(self).start() == old(self).start(),
            final(self).fed() == old(self).fed() + input@,
    {
        let ghost fed0 = self.fed@;
        let unit = self.unit();
        let n = input.len();
        let mut i: usize = 0;
        while i < n
            invariant
                i <= n,
                n == input@.len(),
                n < unit <= 255,
                self.length == 0,
                self.encoding == old(self).encoding,
                self.output@ == old(self).output@,
                self.start == old(self).start,
                self.fed == old(self).fed,
                forall|j: int| 0 <= j < i ==> self.buffer@[j] == input@[j],
            decreases n - i,
        {
            self.buffer[i] = input[i];
            i += 1;
        }
        self.length = n;
        proof {
            self.fed@ = fed0 + input@;
            assert(fed0.subrange(0, fed0.len() as int) =~= fed0);
            assert(self.fed@.subrange(0, self.fed@.len() - n) =~= fed0);
            assert(self.fed@.subrange(self.fed@.len() - n, self.fed@.len() as int) =~= input@);
            assert(self.buffer@.subrange(0, n as int) =~= input@);
        }
    }

    /// Encodes the whole units at the front of `input` and holds the rest. The
    /// encoder holds nothing before.
    fn take_rest(&mut self, input: &[u8])
        requires
            old(self).wf(),
            old(self).pending() == 0,
            old(self).encoding().encode_len(input@.len()) <= usize::MAX,
        ensures
            final(self).wf(),
            final(self).encoding() == old(self).encoding(),
            final(self).start() == old(self).start(),
            final(self).fed() == old(self).fed() + input@,
    {
        let taken = self.take_units(input);
        let left = &input[taken..input.len()];
        self.hold(left);
        proof {
            assert(old(self).fed() + input@.subrange(0, taken as int) + left@ =~= old(self).fed()
                + input@);
        }
    }

    /// Takes the next piece of the input. The text of a piece must have a length,
    /// as for [`Encoding::encode`].
    pub fn append(&mut self, input: &[u8])
        requires
            old(self).wf(),
            old(self).encoding().encode_len(input@.len()) <= usize::MAX,
        ensures
            final(self).wf(),
            final(self).encoding() == old(self).encoding(),
            final(self).start() == old(self).start(),
            final(self).fed() == old(self).fed() + input@,
    {
        let total = input.len();
        let first = self.top_up(input);
        if first == total {
            proof {
                assert(input@.subrange(0, total as int) =~= input@);
            }
            return;
        }
        let rest = &input[first..total];
        proof {
            self.lemma_rest_fits(rest@.len(), input@.len());
        }
        self.take_rest(rest);
        proof {
            assert(old(self).fed() + input@.subrange(0, first as int) + rest@ =~= old(self).fed()
                + input@);
        }
    }

    /// Where the text of a piece has a length, the text of a part of it has one.
    proof fn lemma_rest_fits(&self, a: nat, b: nat)
        requires
            self.wf(),
            a <= b,
            self.encoding().encode_len(b) <= usize::MAX,
        ensures
            self.encoding().encode_len(a) <= usize::MAX,
    {
        self.encoding().lemma_encode_len_monotonic(a, b);
    }

    /// Encodes what is left of the input: the string then holds the text of all
    /// of it. The encoder starts anew, behind what the string holds.
    pub fn finalize(&mut self)
        requires
            old(self).wf(),
        ensures
            final(self).wf(),
            final(self).encoding() == old(self).encoding(),
            final(self).text() == old(self).start() + ascii_chars(
                old(self).encoding().encoded(old(self).fed()),
            ),
            final(self).start() == final(self).text(),
            final(self).fed() == Seq::<u8>::empty(),
    {
        let ghost e = self.encoding@;
        let ghost fed0 = self.fed@;
        let ghost done0 = fed0.subrange(0, fed0.len() - self.length);
        proof {
            e.lemma_unit();
        }
        if self.length > 0 {
            proof {
                let chunk = self.buffer@.subrange(0, self.length as int);
                e.lemma_encode_len_bound(self.length as nat);
                e.lemma_encoded_append(done0, chunk);
                lemma_ascii_chars_concat(e.encoded(done0), e.encoded(chunk));
                assert(done0 + chunk =~= fed0);
                assert(self.start@ + ascii_chars(e.encoded(done0)) + ascii_chars(
                    e.encoded(chunk),
                ) =~= self.start@ + (ascii_chars(e.encoded(done0)) + ascii_chars(
                    e.encoded(chunk),
                )));
            }
            let all: &[u8] = &self.buffer;
            self.encoding.encode_append(&all[0..self.length], self.output);
            self.length = 0;
        } else {
            proof {
                assert(done0 =~= fed0);
            }
        }
        proof {
            let none = Seq::<u8>::empty();
            self.start@ = self.output@;
            self.fed@ = none;
            assert(none.subrange(0, 0) =~= none);
            crate::laws::lemma_encode_pad_empty(e.bit, e.msb, e.sym, e.pad);
            assert(e.encoded(none) =~= none);
            assert(self.start@ + ascii_chars(none) =~= self.start@);
            vstd::arithmetic::div_mod::lemma_small_mod(0, e.unit());
            assert(self.buffer@.subrange(0, 0) =~= none.subrange(0, 0));
        }
    }
}

} // verus!
