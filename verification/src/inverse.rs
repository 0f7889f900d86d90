//! The specification of an encoding compiles to that encoding: an encoding holds
//! nothing that its specification does not say.
use crate::arithmetic::distinct;
use crate::block::{IGNORE, INVALID, lemma_block_shape, PADDING, radix_of};
use crate::encoding::{EncodingView, ignored_from};
use crate::radix::repeat;
use crate::specification::{
    all_are, bit_of_size, compile, lemma_set_symbols, not_padding, set_all, set_padding,
    set_symbols, set_translate, set_value, set_wrap, SpecificationErrorImpl, sym_table,
};
use crate::text::is_ascii;
use vstd::prelude::*;

verus! {

/// Giving bytes a meaning from the `i`-th on is giving the bytes from the `i`-th
/// on a meaning.
proof fn lemma_set_all_shift(table: Seq<u8>, bytes: Seq<u8>, x: u8, i: nat)
    requires
        i <= bytes.len(),
    ensures
        set_all(table, bytes, x, i) == set_all(
            table,
            bytes.subrange(i as int, bytes.len() as int),
            x,
            0,
        ),
    decreases bytes.len() - i,
{
    let rest = bytes.subrange(i as int, bytes.len() as int);
    if i < bytes.len() {
        assert(rest[0] == bytes[i as int]);
        match set_value(table, bytes[i as int], x) {
            Err(_) => {},
            Ok(next) => {
                lemma_set_all_shift(next, bytes, x, i + 1);
                lemma_set_all_shift(next, rest, x, 1);
                assert(rest.subrange(1, rest.len() as int) =~= bytes.subrange(
                    i as int + 1,
                    bytes.len() as int,
                ));
            },
        }
    }
}

/// The same for bytes that are given the meaning of others.
proof fn lemma_set_translate_shift(table: Seq<u8>, from: Seq<u8>, to: Seq<u8>, i: nat)
    requires
        i <= from.len(),
        from.len() == to.len(),
    ensures
        set_translate(table, from, to, i) == set_translate(
            table,
            from.subrange(i as int, from.len() as int),
            to.subrange(i as int, to.len() as int),
            0,
        ),
    decreases from.len() - i,
{
    let f = from.subrange(i as int, from.len() as int);
    let t = to.subrange(i as int, to.len() as int);
    if i < from.len() {
        assert(f[0] == from[i as int] && t[0] == to[i as int]);
        if to[i as int] < 128 && table[to[i as int] as int] != INVALID {
            match set_value(table, from[i as int], table[to[i as int] as int]) {
                Err(_) => {},
                Ok(next) => {
                    lemma_set_translate_shift(next, from, to, i + 1);
                    lemma_set_translate_shift(next, f, t, 1);
                    assert(f.subrange(1, f.len() as int) =~= from.subrange(
                        i as int + 1,
                        from.len() as int,
                    ));
                    assert(t.subrange(1, t.len() as int) =~= to.subrange(i as int + 1, to.len() as int));
                }
            }
        }
    }
}

/// `table` with the bytes from `c` on marked as skipped that `val` marks so.
pub open spec fn marked(table: Seq<u8>, val: Seq<u8>, c: nat) -> Seq<u8> {
    Seq::new(
        128,
        |d: int|
            if d >= c && val[d] == IGNORE {
                IGNORE
            } else {
                table[d]
            },
    )
}

/// Marking the bytes that an encoding skips, where they have no meaning yet.
proof fn lemma_set_marks(table: Seq<u8>, val: Seq<u8>, c: nat)
    requires
        table.len() == 128,
        val.len() == 128,
        c <= 128,
        forall|d: int| c <= d < 128 && val[d] == IGNORE ==> table[d] == INVALID,
    ensures
        set_all(table, ignored_from(val, c), IGNORE, 0) == Ok::<Seq<u8>, SpecificationErrorImpl>(
            marked(table, val, c),
        ),
    decreases 128 - c,
{
    let list = ignored_from(val, c);
    if c >= 128 {
        assert(marked(table, val, c) =~= table);
    } else if val[c as int] == IGNORE {
        let rest = ignored_from(val, c + 1);
        let next = table.update(c as int, IGNORE);
        assert(list[0] == c as u8);
        assert(set_value(table, c as u8, IGNORE) == Ok::<Seq<u8>, SpecificationErrorImpl>(next));
        lemma_set_all_shift(next, list, IGNORE, 1);
        assert(list.subrange(1, list.len() as int) =~= rest);
        lemma_set_marks(next, val, c + 1);
        assert(marked(next, val, c + 1) =~= marked(table, val, c));
    } else {
        lemma_set_marks(table, val, c + 1);
        assert(marked(table, val, c + 1) =~= marked(table, val, c));
    }
}

/// The byte is read as another byte.
pub open spec fn is_translated(e: EncodingView, c: nat) -> bool {
    e.read_as(c) is Some && e.read_as(c) != Some(c as u8)
}

/// `table` with the meaning that the encoding has for them given to the bytes
/// from `c` on that are read as others.
pub open spec fn read(table: Seq<u8>, e: EncodingView, c: nat) -> Seq<u8> {
    Seq::new(
        128,
        |d: int|
            if d >= c && is_translated(e, d as nat) {
                e.val[d]
            } else {
                table[d]
            },
    )
}

/// As many bytes are read as others as there are bytes that they are read as.
proof fn lemma_translated_len(e: EncodingView, c: nat)
    ensures
        e.translated_from(c).len() == e.translated_to(c).len(),
    decreases 128 - c,
{
    if c < 128 {
        lemma_translated_len(e, c + 1);
    }
}

/// Giving the bytes that are read as others their meaning, where they have none
/// yet and the bytes that they are read as have theirs.
proof fn lemma_set_reads(table: Seq<u8>, e: EncodingView, c: nat)
    requires
        table.len() == 128,
        e.val.len() == 128,
        c <= 128,
        forall|d: nat|
            c <= d < 128 && #[trigger] is_translated(e, d) ==> table[d as int] == INVALID,
        forall|d: nat|
            d < 128 && #[trigger] is_translated(e, d) ==> {
                let x = e.read_as(d)->Some_0;
                &&& x < 128
                &&& !is_translated(e, x as nat)
                &&& table[x as int] == e.val[d as int]
                &&& e.val[d as int] != INVALID
            },
    ensures
        set_translate(table, e.translated_from(c), e.translated_to(c), 0) == Ok::<
            Seq<u8>,
            SpecificationErrorImpl,
        >(read(table, e, c)),
    decreases 128 - c,
{
    let from = e.translated_from(c);
    let to = e.translated_to(c);
    lemma_translated_len(e, c);
    if c >= 128 {
        assert(read(table, e, c) =~= table);
    } else if is_translated(e, c) {
        let x = e.read_as(c)->Some_0;
        let next = table.update(c as int, e.val[c as int]);
        assert(table[c as int] == INVALID && table[x as int] == e.val[c as int]);
        assert(from[0] == c as u8 && to[0] == x);
        assert(set_value(table, c as u8, table[x as int]) == Ok::<
            Seq<u8>,
            SpecificationErrorImpl,
        >(next));
        lemma_translated_len(e, c + 1);
        lemma_set_translate_shift(next, from, to, 1);
        assert(from.subrange(1, from.len() as int) =~= e.translated_from(c + 1));
        assert(to.subrange(1, to.len() as int) =~= e.translated_to(c + 1));
        assert forall|d: nat| d < 128 && #[trigger] is_translated(e, d) implies {
            let y = e.read_as(d)->Some_0;
            &&& y < 128
            &&& !is_translated(e, y as nat)
            &&& next[y as int] == e.val[d as int]
            &&& e.val[d as int] != INVALID
        } by {
            let y = e.read_as(d)->Some_0;
            assert(y != c);
        }
        lemma_set_reads(next, e, c + 1);
        assert(read(next, e, c + 1) =~= read(table, e, c));
    } else {
        lemma_set_reads(table, e, c + 1);
        assert(read(table, e, c + 1) =~= read(table, e, c));
    }
}

/// Giving bytes the meaning again that they have changes nothing.
proof fn lemma_set_all_again(table: Seq<u8>, bytes: Seq<u8>, x: u8, i: nat)
    requires
        i <= bytes.len(),
        forall|j: int|
            0 <= j < bytes.len() ==> #[trigger] bytes[j] < 128 && table[bytes[j] as int] == x,
    ensures
        set_all(table, bytes, x, i) == Ok::<Seq<u8>, SpecificationErrorImpl>(table),
    decreases bytes.len() - i,
{
    if i < bytes.len() {
        assert(bytes[i as int] < 128 && table[bytes[i as int] as int] == x);
        lemma_set_all_again(table, bytes, x, i + 1);
    }
}

/// The specification of an encoding compiles to the encoding. Of the arithmetic
/// codec this holds where no byte is marked as padding: it takes a padding and
/// forgets it.
pub proof fn lemma_specification_compiles(e: EncodingView)
    requires
        e.wf(),
        e.tidy(),
        e.arithmetic ==> all_are(e.val, not_padding()),
    ensures
        compile(e.specification()) == Ok::<EncodingView, SpecificationErrorImpl>(e),
{
    let v = e.specification();
    let symbols = e.symbols();
    let n = symbols.len();
    if !e.arithmetic {
        lemma_block_shape(e.bit);
    }
    let arithmetic = v.use_arithmetic || bit_of_size(n) == 0;
    assert(arithmetic == e.arithmetic);
    let bit = if arithmetic {
        0
    } else {
        bit_of_size(n)
    };
    assert(bit == e.bit);
    assert(is_ascii(symbols)) by {
        assert forall|i: int| 0 <= i < n implies #[trigger] symbols[i] < 128 by {
            assert(e.sym[i] < 128);
        }
    }
    crate::laws::lemma_symbols_distinct(e);
    // The symbols.
    let t0 = repeat(INVALID, 128);
    lemma_symbols_set(symbols);
    let t1 = set_symbols(t0, symbols, 0)->Ok_0;
    assert forall|c: int| 0 <= c < 128 implies #[trigger] t1[c] == if (e.val[c] as int) < n
        && e.sym[e.val[c] as int] == c {
        e.val[c]
    } else {
        INVALID
    } by {
        let x = e.val[c];
        if (x as int) < n && e.sym[x as int] == c {
            assert(symbols[x as int] == c);
        } else {
            assert forall|j: int| 0 <= j < n implies symbols[j] != c by {
                if symbols[j] == c {
                    assert(e.val[e.sym[j] as int] == j);
                }
            }
        }
    }
    // The padding.
    let t2 = match e.pad {
        None => t1,
        Some(p) => t1.update(p as int, PADDING),
    };
    assert(set_padding(t1, v.padding, arithmetic, bit) == Ok::<
        (Seq<u8>, Option<u8>),
        SpecificationErrorImpl,
    >((t2, e.pad))) by {
        match e.pad {
            None => {},
            Some(p) => {
                let c = p as char;
                assert((c as u32) as u8 == p);
                assert(t1[p as int] == INVALID);
            },
        }
    }
    // The bytes to skip, and the separator, which is skipped already.
    lemma_set_marks(t2, e.val, 0);
    let t3 = marked(t2, e.val, 0);
    assert(set_wrap(t3, v.wrap_width, v.separator, arithmetic, bit) == Ok::<
        (Seq<u8>, Option<(nat, Seq<u8>)>),
        SpecificationErrorImpl,
    >((t3, e.wrap))) by {
        match e.wrap {
            None => {},
            Some((width, sep)) => {
                assert forall|j: int| 0 <= j < sep.len() implies #[trigger] sep[j] < 128
                    && t3[sep[j] as int] == IGNORE by {}
                lemma_set_all_again(t3, sep, IGNORE, 0);
            },
        }
    }
    // The bytes that are read as others.
    lemma_translated_len(e, 0);
    assert forall|d: nat| d < 128 && #[trigger] is_translated(e, d) implies {
        let x = e.read_as(d)->Some_0;
        &&& x < 128
        &&& !is_translated(e, x as nat)
        &&& t3[x as int] == e.val[d as int]
        &&& e.val[d as int] != INVALID
        &&& t3[d as int] == INVALID
    } by {
        let x = e.read_as(d)->Some_0;
        let m = e.val[d as int];
        if (m as int) < n {
            assert(x == e.sym[m as int]);
            assert(e.val[e.sym[m as int] as int] == m);
        } else {
            assert(m == PADDING);
            assert(e.pad == Some(x));
        }
    }
    lemma_set_reads(t3, e, 0);
    let t5 = read(t3, e, 0);
    assert(t5 =~= e.val) by {
        assert forall|c: int| 0 <= c < 128 implies t5[c] == e.val[c] by {
            let m = e.val[c];
            assert(crate::specification::is_meaning(n)(m));
            if is_translated(e, c as nat) {
            } else if m == IGNORE {
            } else if m == PADDING {
                assert(e.pad is Some);
                assert(e.pad == Some(c as u8));
            } else if (m as int) < n {
                assert(e.sym[m as int] == c);
            }
        }
    }
    assert(sym_table(symbols, arithmetic) =~= e.sym) by {
        assert forall|i: int| 0 <= i < 256 implies sym_table(symbols, arithmetic)[i]
            == e.sym[i] by {
            if arithmetic {
            } else {
                vstd::arithmetic::div_mod::lemma_mod_bound(i, n as int);
                assert(e.sym[i] == e.sym[i % (radix_of(e.bit) as int)]);
            }
        }
    }
    let made = compile(v)->Ok_0;
    assert(compile(v) is Ok);
    assert(made.val == t5);
    assert(made.pad_mode == e.pad_mode);
    assert(made.ctb == e.ctb);
    assert(made.ignore == e.ignore);
    assert(made == e);
}

/// Symbols that are ASCII and all different can be given their values.
proof fn lemma_symbols_set(symbols: Seq<u8>)
    requires
        symbols.len() <= 128,
        is_ascii(symbols),
        distinct(symbols),
    ensures
        set_symbols(repeat(INVALID, 128), symbols, 0) is Ok,
        set_symbols(repeat(INVALID, 128), symbols, 0)->Ok_0.len() == 128,
        forall|j: int|
            0 <= j < symbols.len() ==> set_symbols(
                repeat(INVALID, 128),
                symbols,
                0,
            )->Ok_0[#[trigger] symbols[j] as int] == j,
        forall|c: int|
            0 <= c < 128 && (forall|j: int| 0 <= j < symbols.len() ==> symbols[j] != c)
                ==> #[trigger] set_symbols(repeat(INVALID, 128), symbols, 0)->Ok_0[c] == INVALID,
{
    let t0 = repeat(INVALID, 128);
    assert(symbols.subrange(0, symbols.len() as int) =~= symbols);
    crate::specification::lemma_symbols_fresh(t0, symbols);
    lemma_set_symbols(t0, symbols, 0);
}

} // verus!
