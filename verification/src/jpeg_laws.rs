//! What holds of the decoder: a picture that was encoded by the rules of the
//! format decodes to what was encoded.

use vstd::prelude::*;

use crate::double;
use crate::jpeg;
use crate::jpeg::{Bits, Codes, Component, Header, Scan};

verus! {

// ---------------------------------------------------------------------------
// Magnitudes
// ---------------------------------------------------------------------------

/// How many bits a number takes, without leading zeroes.
pub open spec fn width(n: nat) -> nat
    decreases n,
{
    if n == 0 {
        0
    } else {
        1 + width(n / 2)
    }
}

/// How far a number is from nothing.
pub open spec fn size_of(c: int) -> nat {
    if c < 0 {
        (-c) as nat
    } else {
        c as nat
    }
}

/// The bits that a coefficient is written as, as a number: a positive one as it
/// is, a negative one with every bit turned over.
pub open spec fn magnitude(c: int) -> int {
    if c >= 0 {
        c
    } else {
        c + double::p2(width(size_of(c))) - 1
    }
}

proof fn lemma_width(n: nat)
    ensures
        n < double::p2(width(n)),
        n > 0 ==> double::p2((width(n) - 1) as nat) <= n,
        n > 0 ==> width(n) > 0,
    decreases n,
{
    if n > 0 {
        lemma_width(n / 2);
        let w = width(n / 2);
        assert(double::p2(w + 1) == 2 * double::p2(w));
        if n / 2 > 0 {
            assert(double::p2(w) == 2 * double::p2((w - 1) as nat));
        } else {
            assert(n == 1);
            assert(w == 0);
            assert(double::p2(0) == 1);
        }
    }
}

proof fn lemma_p2_grows(a: nat, b: nat)
    requires
        a <= b,
    ensures
        double::p2(a) <= double::p2(b),
    decreases b,
{
    if a < b {
        lemma_p2_grows(a, (b - 1) as nat);
    }
}

/// A coefficient of at most fifteen bits takes at most fifteen.
proof fn lemma_width_small(n: nat)
    requires
        n <= 32767,
    ensures
        width(n) <= 15,
        n > 0 ==> width(n) > 0,
{
    lemma_width(n);
    if width(n) > 15 {
        lemma_p2_grows(15, (width(n) - 1) as nat);
        reveal_with_fuel(double::p2, 17);
        assert(double::p2(15) == 32768);
    }
}

/// A coefficient is got back from its bits.
pub proof fn lemma_a_magnitude_is_read(c: int)
    ensures
        jpeg::extended(magnitude(c), width(size_of(c))) == c,
{
    let n = size_of(c);
    lemma_width(n);
    if c != 0 {
        assert(double::p2(width(n)) == 2 * double::p2((width(n) - 1) as nat));
    }
}

// ---------------------------------------------------------------------------
// Symbols in the stream
// ---------------------------------------------------------------------------

/// The code of a symbol in a table: how many bits it has, and what they make.
pub open spec fn code(t: Codes, symbol: u8) -> (int, int) {
    jpeg::canonical_code(t.counts, t.values.index_of(symbol))
}

/// Whether a table is one: a value to each code.
pub open spec fn table(t: Codes) -> bool {
    t.counts.len() == 16 && jpeg::codes_up_to(t.counts, 16) == t.values.len()
}

/// Where a reader stands after a symbol and the bits of a coefficient.
pub open spec fn past_one(data: Seq<u8>, s: Bits, t: Codes, symbol: u8, c: int) -> Bits {
    jpeg::bits_of(
        data,
        jpeg::bits_of(data, s, code(t, symbol).0 as nat).0,
        width(size_of(c)),
    ).0
}

/// Whether a symbol stands next in the stream, in the code that a table gives it,
/// and the bits of a coefficient behind it.
pub open spec fn one_written(data: Seq<u8>, s: Bits, t: Codes, symbol: u8, c: int) -> bool {
    &&& t.values.contains(symbol)
    &&& jpeg::bits_of(data, s, code(t, symbol).0 as nat).1 == code(t, symbol).1
    &&& jpeg::bits_of(
        data,
        jpeg::bits_of(data, s, code(t, symbol).0 as nat).0,
        width(size_of(c)),
    ).1 == magnitude(c)
}

/// Where a reader stands after symbols with their coefficients.
pub open spec fn past(data: Seq<u8>, s: Bits, t: Codes, items: Seq<(u8, int)>) -> Bits
    decreases items.len(),
{
    if items.len() == 0 {
        s
    } else {
        past(data, past_one(data, s, t, items[0].0, items[0].1), t, items.skip(1))
    }
}

/// Whether symbols with their coefficients stand next in the stream, one after
/// the other, in the codes of a table.
pub open spec fn written(data: Seq<u8>, s: Bits, t: Codes, items: Seq<(u8, int)>) -> bool
    decreases items.len(),
{
    items.len() == 0 || (one_written(data, s, t, items[0].0, items[0].1) && written(
        data,
        past_one(data, s, t, items[0].0, items[0].1),
        t,
        items.skip(1),
    ))
}

proof fn lemma_symbol_is_read(data: Seq<u8>, s: Bits, t: Codes, symbol: u8, c: int)
    requires
        table(t),
        one_written(data, s, t, symbol, c),
    ensures
        ({
            let s1 = jpeg::bits_of(data, s, code(t, symbol).0 as nat).0;
            &&& jpeg::huffman_of(data, s, t) == (s1, Ok::<u8, Seq<char>>(symbol))
            &&& jpeg::bits_of(data, s1, width(size_of(c))) == (
                past_one(data, s, t, symbol, c),
                magnitude(c),
            )
        }),
{
    let k = t.values.index_of(symbol);
    assert(0 <= k < t.values.len() && t.values[k] == symbol);
    jpeg::lemma_codes_are_read(data, s, t, k);
}

// ---------------------------------------------------------------------------
// Blocks
// ---------------------------------------------------------------------------

/// How the coefficients of a block from position `k` on are coded, when `run`
/// zeroes stand before it uncoded: each coefficient that is not zero with the
/// number of zeroes before it and its width; sixteen zeroes, where so many are
/// before one, by a symbol of their own; and the zeroes at the end by one symbol
/// for all.
pub open spec fn coded(coefs: Seq<int>, k: int, run: nat) -> Seq<(u8, int)>
    decreases 64 - k, run,
{
    if k >= 64 {
        if run > 0 {
            seq![(0u8, 0int)]
        } else {
            seq![]
        }
    } else if coefs[k] == 0 {
        coded(coefs, k + 1, run + 1)
    } else if run >= 16 {
        seq![(0xF0u8, 0int)] + coded(coefs, k, (run - 16) as nat)
    } else {
        seq![((16 * run + width(size_of(coefs[k]))) as u8, coefs[k])] + coded(coefs, k + 1, 0)
    }
}

/// Whether coefficients are those of a block: sixty-four, of fifteen bits at most,
/// and the first no further than that from the one before.
pub open spec fn block(coefs: Seq<int>, pred: int) -> bool {
    &&& coefs.len() == 64
    &&& forall|i: int| 0 <= i < 64 ==> -32767 <= #[trigger] coefs[i] <= 32767
    &&& -32767 <= coefs[0] - pred <= 32767
}

/// How far the first coefficient is from the one of the block before, as it is
/// coded.
pub open spec fn step_coded(coefs: Seq<int>, pred: int) -> Seq<(u8, int)> {
    seq![(width(size_of(coefs[0] - pred)) as u8, coefs[0] - pred)]
}

/// Whether a block stands next in the stream: its first coefficient in the codes
/// of one table, the others in those of another.
pub open spec fn block_written(
    data: Seq<u8>,
    s: Bits,
    dc: Codes,
    ac: Codes,
    coefs: Seq<int>,
    pred: int,
) -> bool {
    &&& block(coefs, pred)
    &&& written(data, s, dc, step_coded(coefs, pred))
    &&& written(data, past(data, s, dc, step_coded(coefs, pred)), ac, coded(coefs, 1, 0))
}

/// Where a reader stands after a block.
pub open spec fn past_block(
    data: Seq<u8>,
    s: Bits,
    dc: Codes,
    ac: Codes,
    coefs: Seq<int>,
    pred: int,
) -> Bits {
    past(data, past(data, s, dc, step_coded(coefs, pred)), ac, coded(coefs, 1, 0))
}

/// Where on the zigzag the coefficient of a row and a column stands: along the
/// diagonals from the corner, every other one from the bottom up.
pub open spec fn zigzag_place(row: int, column: int) -> int {
    let d = row + column;
    if d < 8 {
        d * (d + 1) / 2 + (if d % 2 == 0 {
            column
        } else {
            row
        })
    } else {
        64 - (15 - d) * (16 - d) / 2 + (if d % 2 == 0 {
            column - (d - 7)
        } else {
            row - (d - 7)
        })
    }
}

/// What coefficients come to at their places in the block, row by row, once each
/// is multiplied by its step.
pub open spec fn restored(coefs: Seq<int>, quant: Seq<u16>) -> Seq<i32> {
    Seq::new(
        64,
        |i: int|
            (coefs[zigzag_place(i / 8, i % 8)] * quant[zigzag_place(i / 8, i % 8)]) as i32,
    )
}

/// What the block holds once the coefficients before position `k` are in it.
spec fn restored_up_to(coefs: Seq<int>, quant: Seq<u16>, k: int) -> Seq<i32> {
    Seq::new(
        64,
        |i: int|
            if zigzag_place(i / 8, i % 8) < k {
                restored(coefs, quant)[i]
            } else {
                0i32
            },
    )
}

/// The order in which the coefficients are stored is the zigzag, and every place
/// of the block is on it once.
pub proof fn lemma_the_zigzag()
    ensures
        forall|i: int| 0 <= i < 64 ==> 0 <= #[trigger] jpeg::ZIGZAG@[i] < 64,
        forall|i: int|
            0 <= i < 64 ==> zigzag_place(
                (#[trigger] jpeg::ZIGZAG@[i]) as int / 8,
                jpeg::ZIGZAG@[i] as int % 8,
            ) == i,
        forall|n: int|
            0 <= n < 64 ==> 0 <= #[trigger] zigzag_place(n / 8, n % 8) < 64
                && jpeg::ZIGZAG@[zigzag_place(n / 8, n % 8)] == n,
{
    assert(jpeg::ZIGZAG@[0] == 0 && zigzag_place(0, 0) == 0);
    assert(jpeg::ZIGZAG@[1] == 1 && zigzag_place(0, 1) == 1);
    assert(jpeg::ZIGZAG@[2] == 8 && zigzag_place(1, 0) == 2);
    assert(jpeg::ZIGZAG@[3] == 16 && zigzag_place(2, 0) == 3);
    assert(jpeg::ZIGZAG@[4] == 9 && zigzag_place(1, 1) == 4);
    assert(jpeg::ZIGZAG@[5] == 2 && zigzag_place(0, 2) == 5);
    assert(jpeg::ZIGZAG@[6] == 3 && zigzag_place(0, 3) == 6);
    assert(jpeg::ZIGZAG@[7] == 10 && zigzag_place(1, 2) == 7);
    assert(jpeg::ZIGZAG@[8] == 17 && zigzag_place(2, 1) == 8);
    assert(jpeg::ZIGZAG@[9] == 24 && zigzag_place(3, 0) == 9);
    assert(jpeg::ZIGZAG@[10] == 32 && zigzag_place(4, 0) == 10);
    assert(jpeg::ZIGZAG@[11] == 25 && zigzag_place(3, 1) == 11);
    assert(jpeg::ZIGZAG@[12] == 18 && zigzag_place(2, 2) == 12);
    assert(jpeg::ZIGZAG@[13] == 11 && zigzag_place(1, 3) == 13);
    assert(jpeg::ZIGZAG@[14] == 4 && zigzag_place(0, 4) == 14);
    assert(jpeg::ZIGZAG@[15] == 5 && zigzag_place(0, 5) == 15);
    assert(jpeg::ZIGZAG@[16] == 12 && zigzag_place(1, 4) == 16);
    assert(jpeg::ZIGZAG@[17] == 19 && zigzag_place(2, 3) == 17);
    assert(jpeg::ZIGZAG@[18] == 26 && zigzag_place(3, 2) == 18);
    assert(jpeg::ZIGZAG@[19] == 33 && zigzag_place(4, 1) == 19);
    assert(jpeg::ZIGZAG@[20] == 40 && zigzag_place(5, 0) == 20);
    assert(jpeg::ZIGZAG@[21] == 48 && zigzag_place(6, 0) == 21);
    assert(jpeg::ZIGZAG@[22] == 41 && zigzag_place(5, 1) == 22);
    assert(jpeg::ZIGZAG@[23] == 34 && zigzag_place(4, 2) == 23);
    assert(jpeg::ZIGZAG@[24] == 27 && zigzag_place(3, 3) == 24);
    assert(jpeg::ZIGZAG@[25] == 20 && zigzag_place(2, 4) == 25);
    assert(jpeg::ZIGZAG@[26] == 13 && zigzag_place(1, 5) == 26);
    assert(jpeg::ZIGZAG@[27] == 6 && zigzag_place(0, 6) == 27);
    assert(jpeg::ZIGZAG@[28] == 7 && zigzag_place(0, 7) == 28);
    assert(jpeg::ZIGZAG@[29] == 14 && zigzag_place(1, 6) == 29);
    assert(jpeg::ZIGZAG@[30] == 21 && zigzag_place(2, 5) == 30);
    assert(jpeg::ZIGZAG@[31] == 28 && zigzag_place(3, 4) == 31);
    assert(jpeg::ZIGZAG@[32] == 35 && zigzag_place(4, 3) == 32);
    assert(jpeg::ZIGZAG@[33] == 42 && zigzag_place(5, 2) == 33);
    assert(jpeg::ZIGZAG@[34] == 49 && zigzag_place(6, 1) == 34);
    assert(jpeg::ZIGZAG@[35] == 56 && zigzag_place(7, 0) == 35);
    assert(jpeg::ZIGZAG@[36] == 57 && zigzag_place(7, 1) == 36);
    assert(jpeg::ZIGZAG@[37] == 50 && zigzag_place(6, 2) == 37);
    assert(jpeg::ZIGZAG@[38] == 43 && zigzag_place(5, 3) == 38);
    assert(jpeg::ZIGZAG@[39] == 36 && zigzag_place(4, 4) == 39);
    assert(jpeg::ZIGZAG@[40] == 29 && zigzag_place(3, 5) == 40);
    assert(jpeg::ZIGZAG@[41] == 22 && zigzag_place(2, 6) == 41);
    assert(jpeg::ZIGZAG@[42] == 15 && zigzag_place(1, 7) == 42);
    assert(jpeg::ZIGZAG@[43] == 23 && zigzag_place(2, 7) == 43);
    assert(jpeg::ZIGZAG@[44] == 30 && zigzag_place(3, 6) == 44);
    assert(jpeg::ZIGZAG@[45] == 37 && zigzag_place(4, 5) == 45);
    assert(jpeg::ZIGZAG@[46] == 44 && zigzag_place(5, 4) == 46);
    assert(jpeg::ZIGZAG@[47] == 51 && zigzag_place(6, 3) == 47);
    assert(jpeg::ZIGZAG@[48] == 58 && zigzag_place(7, 2) == 48);
    assert(jpeg::ZIGZAG@[49] == 59 && zigzag_place(7, 3) == 49);
    assert(jpeg::ZIGZAG@[50] == 52 && zigzag_place(6, 4) == 50);
    assert(jpeg::ZIGZAG@[51] == 45 && zigzag_place(5, 5) == 51);
    assert(jpeg::ZIGZAG@[52] == 38 && zigzag_place(4, 6) == 52);
    assert(jpeg::ZIGZAG@[53] == 31 && zigzag_place(3, 7) == 53);
    assert(jpeg::ZIGZAG@[54] == 39 && zigzag_place(4, 7) == 54);
    assert(jpeg::ZIGZAG@[55] == 46 && zigzag_place(5, 6) == 55);
    assert(jpeg::ZIGZAG@[56] == 53 && zigzag_place(6, 5) == 56);
    assert(jpeg::ZIGZAG@[57] == 60 && zigzag_place(7, 4) == 57);
    assert(jpeg::ZIGZAG@[58] == 61 && zigzag_place(7, 5) == 58);
    assert(jpeg::ZIGZAG@[59] == 54 && zigzag_place(6, 6) == 59);
    assert(jpeg::ZIGZAG@[60] == 47 && zigzag_place(5, 7) == 60);
    assert(jpeg::ZIGZAG@[61] == 55 && zigzag_place(6, 7) == 61);
    assert(jpeg::ZIGZAG@[62] == 62 && zigzag_place(7, 6) == 62);
    assert(jpeg::ZIGZAG@[63] == 63 && zigzag_place(7, 7) == 63);
}

proof fn lemma_a_coefficient_is_placed(coefs: Seq<int>, quant: Seq<u16>, k: int)
    requires
        coefs.len() == 64,
        quant.len() == 64,
        0 <= k < 64,
    ensures
        restored_up_to(coefs, quant, k).update(
            jpeg::ZIGZAG@[k] as int,
            (coefs[k] * quant[k]) as i32,
        ) == restored_up_to(coefs, quant, k + 1),
{
    lemma_the_zigzag();
    let z = jpeg::ZIGZAG@[k] as int;
    let before = restored_up_to(coefs, quant, k);
    let after = restored_up_to(coefs, quant, k + 1);
    assert forall|i: int| 0 <= i < 64 implies #[trigger] before.update(
        z,
        (coefs[k] * quant[k]) as i32,
    )[i] == after[i] by {
        let p = zigzag_place(i / 8, i % 8);
        assert(jpeg::ZIGZAG@[p] == i);
        if i != z {
            assert(p != k);
        } else {
            assert(p == k);
        }
    }
    assert(before.update(z, (coefs[k] * quant[k]) as i32) =~= after);
}

/// Zeroes leave the block as it is.
proof fn lemma_zeroes_are_skipped(coefs: Seq<int>, quant: Seq<u16>, k: int, to: int)
    requires
        coefs.len() == 64,
        quant.len() == 64,
        0 <= k <= to <= 64,
        forall|i: int| k <= i < to ==> #[trigger] coefs[i] == 0,
    ensures
        restored_up_to(coefs, quant, k) == restored_up_to(coefs, quant, to),
{
    let a = restored_up_to(coefs, quant, k);
    let b = restored_up_to(coefs, quant, to);
    lemma_the_zigzag();
    assert forall|i: int| 0 <= i < 64 implies #[trigger] a[i] == b[i] by {
        let p = zigzag_place(i / 8, i % 8);
        if k <= p < to {
            assert(coefs[p] == 0);
            assert(coefs[p] * quant[p] == 0) by (nonlinear_arith)
                requires
                    coefs[p] == 0,
            ;
        }
    }
    assert(a =~= b);
}

proof fn lemma_run_symbol(run: nat, w: nat)
    requires
        run < 16,
        w < 16,
    ensures
        ((16 * run + w) as u8) % 16 == w,
        ((16 * run + w) as u8) / 16 == run,
{
}

/// Coefficients that stand in the stream are read as they are.
proof fn lemma_coefficients_are_read(
    data: Seq<u8>,
    s: Bits,
    t: Codes,
    quant: Seq<u16>,
    coefs: Seq<int>,
    k: int,
    run: nat,
)
    requires
        table(t),
        quant.len() == 64,
        coefs.len() == 64,
        forall|i: int| 0 <= i < 64 ==> -32767 <= #[trigger] coefs[i] <= 32767,
        1 <= k - run <= k <= 64,
        forall|i: int| k - run <= i < k ==> #[trigger] coefs[i] == 0,
        written(data, s, t, coded(coefs, k, run)),
    ensures
        jpeg::ac_of(data, s, t, quant, k - run, restored_up_to(coefs, quant, k - run)) == Ok::<
            (Bits, Seq<i32>),
            Seq<char>,
        >((past(data, s, t, coded(coefs, k, run)), restored_up_to(coefs, quant, 64))),
    decreases 64 - k, run,
{
    let items = coded(coefs, k, run);
    let p = k - run;
    if k >= 64 {
        if run > 0 {
            assert(items =~= seq![(0u8, 0int)]);
            lemma_symbol_is_read(data, s, t, 0u8, 0);
            assert(items.skip(1) =~= seq![]);
            assert(width(size_of(0)) == 0);
            lemma_zeroes_are_skipped(coefs, quant, p, 64);
            reveal_with_fuel(past, 2);
            reveal_with_fuel(jpeg::ac_of, 2);
        }
    } else if coefs[k] == 0 {
        lemma_coefficients_are_read(data, s, t, quant, coefs, k + 1, run + 1);
    } else if run >= 16 {
        let rest = coded(coefs, k, (run - 16) as nat);
        assert(items[0] == (0xF0u8, 0int));
        assert(items.skip(1) =~= rest);
        lemma_symbol_is_read(data, s, t, 0xF0u8, 0);
        assert(width(size_of(0)) == 0);
        let s1 = past_one(data, s, t, 0xF0u8, 0);
        lemma_coefficients_are_read(data, s1, t, quant, coefs, k, (run - 16) as nat);
        lemma_zeroes_are_skipped(coefs, quant, p, p + 16);
        assert(0xF0u8 % 16 == 0 && 0xF0u8 / 16 == 15);
    } else {
        let c = coefs[k];
        let w = width(size_of(c));
        lemma_width_small(size_of(c));
        lemma_run_symbol(run, w);
        let symbol = (16 * run + w) as u8;
        let rest = coded(coefs, k + 1, 0);
        assert(items[0] == (symbol, c));
        assert(items.skip(1) =~= rest);
        lemma_symbol_is_read(data, s, t, symbol, c);
        lemma_a_magnitude_is_read(c);
        let s2 = past_one(data, s, t, symbol, c);
        lemma_coefficients_are_read(data, s2, t, quant, coefs, k + 1, 0);
        lemma_zeroes_are_skipped(coefs, quant, p, k);
        lemma_a_coefficient_is_placed(coefs, quant, k);
    }
}

/// A block decodes to its coefficients, each at its place and multiplied by its
/// step: the first was written with the codes of one table, the others with
/// those of the other.
pub proof fn lemma_a_block_is_read(
    data: Seq<u8>,
    s: Bits,
    dc: Codes,
    ac: Codes,
    quant: Seq<u16>,
    coefs: Seq<int>,
    pred: i32,
)
    requires
        table(dc),
        table(ac),
        quant.len() == 64,
        block_written(data, s, dc, ac, coefs, pred as int),
    ensures
        jpeg::block_of(data, s, dc, ac, quant, pred) == Ok::<(Bits, i32, Seq<i32>), Seq<char>>(
            (
                past_block(data, s, dc, ac, coefs, pred as int),
                coefs[0] as i32,
                restored(coefs, quant),
            ),
        ),
{
    let d = coefs[0] - pred;
    let w = width(size_of(d));
    lemma_width_small(size_of(d));
    let symbol = w as u8;
    let first = step_coded(coefs, pred as int);
    assert(first.skip(1) =~= seq![]);
    reveal_with_fuel(past, 2);
    lemma_symbol_is_read(data, s, dc, symbol, d);
    lemma_a_magnitude_is_read(d);
    let s1 = past(data, s, dc, first);
    assert(s1 == past_one(data, s, dc, symbol, d));
    lemma_coefficients_are_read(data, s1, ac, quant, coefs, 1, 0);
    assert(-32767 <= coefs[0] <= 32767);
    let q = quant[0] as int;
    let c = coefs[0];
    assert(-2147483648 <= c * q <= 2147483647) by (nonlinear_arith)
        requires
            -32767 <= c <= 32767,
            0 <= q <= 65535,
    ;
    lemma_the_zigzag();
    assert(restored_up_to(coefs, quant, 0) =~= jpeg::no_block()) by {
        assert forall|i: int| 0 <= i < 64 implies restored_up_to(coefs, quant, 0)[i]
            == jpeg::no_block()[i] by {
            assert(zigzag_place(i / 8, i % 8) >= 0);
        }
    }
    lemma_a_coefficient_is_placed(coefs, quant, 0);
    assert(jpeg::ZIGZAG@[0] == 0);
    assert(restored_up_to(coefs, quant, 64) =~= restored(coefs, quant)) by {
        assert forall|i: int| 0 <= i < 64 implies restored_up_to(coefs, quant, 64)[i] == restored(
            coefs,
            quant,
        )[i] by {
            assert(zigzag_place(i / 8, i % 8) < 64);
        }
    }
}

// ---------------------------------------------------------------------------
// Channels and units
// ---------------------------------------------------------------------------

/// Whether blocks of one channel stand next in the stream.
pub open spec fn blocks_written(
    data: Seq<u8>,
    s: Bits,
    dc: Codes,
    ac: Codes,
    blocks: Seq<Seq<int>>,
    pred: int,
) -> bool
    decreases blocks.len(),
{
    blocks.len() == 0 || (block_written(data, s, dc, ac, blocks[0], pred) && blocks_written(
        data,
        past_block(data, s, dc, ac, blocks[0], pred),
        dc,
        ac,
        blocks.skip(1),
        blocks[0][0],
    ))
}

/// Where a reader stands after them.
pub open spec fn past_blocks(
    data: Seq<u8>,
    s: Bits,
    dc: Codes,
    ac: Codes,
    blocks: Seq<Seq<int>>,
    pred: int,
) -> Bits
    decreases blocks.len(),
{
    if blocks.len() == 0 {
        s
    } else {
        past_blocks(
            data,
            past_block(data, s, dc, ac, blocks[0], pred),
            dc,
            ac,
            blocks.skip(1),
            blocks[0][0],
        )
    }
}

/// The samples of blocks, one block after the other.
pub open spec fn samples_of(blocks: Seq<Seq<int>>, quant: Seq<u16>) -> Seq<u8>
    decreases blocks.len(),
{
    if blocks.len() == 0 {
        seq![]
    } else {
        jpeg::transformed(restored(blocks[0], quant)) + samples_of(blocks.skip(1), quant)
    }
}

/// The first coefficient of the last block, or what it was before.
pub open spec fn last_of(blocks: Seq<Seq<int>>, pred: int) -> int {
    if blocks.len() == 0 {
        pred
    } else {
        blocks.last()[0]
    }
}

/// Whether a header has all its tables.
pub open spec fn tabled(head: Header) -> bool {
    &&& head.dc.len() == 4
    &&& head.ac.len() == 4
    &&& head.quant.len() == 4
    &&& forall|i: int| 0 <= i < head.components.len() ==> (#[trigger] head.components[i]).wf()
    &&& forall|i: int| 0 <= i < 4 ==> table(#[trigger] head.dc[i])
    &&& forall|i: int| 0 <= i < 4 ==> table(#[trigger] head.ac[i])
    &&& forall|i: int| 0 <= i < 4 ==> (#[trigger] head.quant[i]).len() == 64
}

/// The blocks of a channel decode to their samples where they were written with
/// the two tables whose numbers the scan header gave that channel.
pub proof fn lemma_a_channel_is_read_with_its_own_tables(
    data: Seq<u8>,
    head: Header,
    scan: Scan,
    c: int,
    blocks: Seq<Seq<int>>,
)
    requires
        tabled(head),
        0 <= c < head.components.len(),
        scan.preds.len() == head.components.len(),
        scan.tiles.len() == head.components.len(),
        blocks_written(
            data,
            scan.bits,
            head.dc[head.components[c].td as int],
            head.ac[head.components[c].ta as int],
            blocks,
            scan.preds[c] as int,
        ),
    ensures
        jpeg::blocks_of(data, head, scan, c, blocks.len()) == Ok::<Scan, Seq<char>>(
            Scan {
                bits: past_blocks(
                    data,
                    scan.bits,
                    head.dc[head.components[c].td as int],
                    head.ac[head.components[c].ta as int],
                    blocks,
                    scan.preds[c] as int,
                ),
                preds: scan.preds.update(c, last_of(blocks, scan.preds[c] as int) as i32),
                tiles: scan.tiles.update(
                    c,
                    scan.tiles[c] + samples_of(
                        blocks,
                        head.quant[head.components[c].tq as int],
                    ),
                ),
            },
        ),
    decreases blocks.len(),
{
    let k = head.components[c];
    let dc = head.dc[k.td as int];
    let ac = head.ac[k.ta as int];
    let quant = head.quant[k.tq as int];
    assert(k.wf());
    if blocks.len() == 0 {
        assert(scan.preds.update(c, scan.preds[c]) =~= scan.preds);
        assert(scan.tiles[c] + Seq::<u8>::empty() =~= scan.tiles[c]);
        assert(scan.tiles.update(c, scan.tiles[c]) =~= scan.tiles);
    } else {
        assert(table(dc) && table(ac) && quant.len() == 64);
        lemma_a_block_is_read(data, scan.bits, dc, ac, quant, blocks[0], scan.preds[c]);
        assert(-32767 <= blocks[0][0] <= 32767);
        let block = restored(blocks[0], quant);
        let next = Scan {
            bits: past_block(data, scan.bits, dc, ac, blocks[0], scan.preds[c] as int),
            preds: scan.preds.update(c, blocks[0][0] as i32),
            tiles: scan.tiles.update(c, scan.tiles[c] + jpeg::transformed(block)),
        };
        let rest = blocks.skip(1);
        lemma_a_channel_is_read_with_its_own_tables(data, head, next, c, rest);
        assert(scan.tiles[c] + jpeg::transformed(block) + samples_of(rest, quant)
            =~= scan.tiles[c] + samples_of(blocks, quant));
        let done = jpeg::blocks_of(data, head, next, c, rest.len())->Ok_0;
        if rest.len() > 0 {
            assert(rest.last() == blocks.last());
        } else {
            assert(blocks.last() == blocks[0]);
        }
        assert(done.preds =~= scan.preds.update(
            c,
            last_of(blocks, scan.preds[c] as int) as i32,
        ));
        assert(done.tiles =~= scan.tiles.update(c, scan.tiles[c] + samples_of(blocks, quant)));
        assert(jpeg::blocks_of(data, head, scan, c, blocks.len()) == jpeg::blocks_of(
            data,
            head,
            next,
            c,
            rest.len(),
        ));
    }
}

/// Whether an interleaved unit stands next in the stream, from channel `c` on:
/// of each channel its blocks, in the tables that the channel was given.
pub open spec fn unit_written(
    data: Seq<u8>,
    s: Bits,
    head: Header,
    unit: Seq<Seq<Seq<int>>>,
    preds: Seq<int>,
    c: int,
) -> bool
    decreases head.components.len() - c,
{
    c >= head.components.len() || {
        let k = head.components[c];
        &&& unit[c].len() == k.h * k.v
        &&& blocks_written(
            data,
            s,
            head.dc[k.td as int],
            head.ac[k.ta as int],
            unit[c],
            preds[c],
        )
        &&& unit_written(
            data,
            past_blocks(
                data,
                s,
                head.dc[k.td as int],
                head.ac[k.ta as int],
                unit[c],
                preds[c],
            ),
            head,
            unit,
            preds,
            c + 1,
        )
    }
}

/// Where a reader stands after it.
pub open spec fn past_unit(
    data: Seq<u8>,
    s: Bits,
    head: Header,
    unit: Seq<Seq<Seq<int>>>,
    preds: Seq<int>,
    c: int,
) -> Bits
    decreases head.components.len() - c,
{
    if c >= head.components.len() {
        s
    } else {
        let k = head.components[c];
        past_unit(
            data,
            past_blocks(
                data,
                s,
                head.dc[k.td as int],
                head.ac[k.ta as int],
                unit[c],
                preds[c],
            ),
            head,
            unit,
            preds,
            c + 1,
        )
    }
}

/// The first coefficients that the next unit starts from.
pub open spec fn preds_after(unit: Seq<Seq<Seq<int>>>, preds: Seq<int>) -> Seq<int> {
    Seq::new(preds.len(), |c: int| last_of(unit[c], preds[c]))
}

proof fn lemma_unit_is_read(
    data: Seq<u8>,
    head: Header,
    start: Scan,
    scan: Scan,
    unit: Seq<Seq<Seq<int>>>,
    preds: Seq<int>,
    c: int,
)
    requires
        tabled(head),
        0 <= c <= head.components.len(),
        unit.len() == head.components.len(),
        preds.len() == head.components.len(),
        start.preds.len() == head.components.len(),
        start.tiles.len() == head.components.len(),
        scan.preds.len() == head.components.len(),
        scan.tiles.len() == head.components.len(),
        forall|i: int| 0 <= i < preds.len() ==> #[trigger] preds[i] == start.preds[i],
        forall|i: int|
            c <= i < head.components.len() ==> #[trigger] scan.preds[i] == start.preds[i],
        forall|i: int|
            c <= i < head.components.len() ==> #[trigger] scan.tiles[i] == start.tiles[i],
        forall|i: int|
            0 <= i < c ==> #[trigger] scan.preds[i] == last_of(unit[i], preds[i]) as i32,
        forall|i: int|
            0 <= i < c ==> #[trigger] scan.tiles[i] == start.tiles[i] + samples_of(
                unit[i],
                head.quant[head.components[i].tq as int],
            ),
        unit_written(data, scan.bits, head, unit, preds, c),
    ensures
        ({
            let r = jpeg::unit_of(data, head, scan, c);
            &&& r is Ok
            &&& r->Ok_0.bits == past_unit(data, scan.bits, head, unit, preds, c)
            &&& r->Ok_0.preds.len() == head.components.len()
            &&& r->Ok_0.tiles.len() == head.components.len()
            &&& forall|i: int|
                0 <= i < head.components.len() ==> #[trigger] r->Ok_0.preds[i] == last_of(
                    unit[i],
                    preds[i],
                ) as i32
            &&& forall|i: int|
                0 <= i < head.components.len() ==> #[trigger] r->Ok_0.tiles[i] == start.tiles[i]
                    + samples_of(unit[i], head.quant[head.components[i].tq as int])
        }),
    decreases head.components.len() - c,
{
    if c < head.components.len() {
        let k = head.components[c];
        assert(scan.preds[c] == start.preds[c]);
        assert(preds[c] == start.preds[c]);
        lemma_a_channel_is_read_with_its_own_tables(data, head, scan, c, unit[c]);
        let next = jpeg::blocks_of(data, head, scan, c, unit[c].len())->Ok_0;
        assert(unit[c].len() == (k.h * k.v) as nat);
        lemma_unit_is_read(data, head, start, next, unit, preds, c + 1);
    }
}

/// An interleaved unit decodes to the samples of every channel, each written with
/// the tables that the scan header gave it and multiplied by its own steps.
pub proof fn lemma_a_unit_is_read(
    data: Seq<u8>,
    head: Header,
    scan: Scan,
    unit: Seq<Seq<Seq<int>>>,
    preds: Seq<int>,
)
    requires
        tabled(head),
        unit.len() == head.components.len(),
        preds.len() == head.components.len(),
        scan.preds.len() == head.components.len(),
        scan.tiles.len() == head.components.len(),
        forall|i: int| 0 <= i < preds.len() ==> #[trigger] preds[i] == scan.preds[i],
        unit_written(data, scan.bits, head, unit, preds, 0),
    ensures
        ({
            let r = jpeg::unit_of(data, head, scan, 0);
            &&& r is Ok
            &&& r->Ok_0.bits == past_unit(data, scan.bits, head, unit, preds, 0)
            &&& r->Ok_0.preds.len() == head.components.len()
            &&& r->Ok_0.tiles.len() == head.components.len()
            &&& forall|i: int|
                0 <= i < head.components.len() ==> #[trigger] r->Ok_0.preds[i] == last_of(
                    unit[i],
                    preds[i],
                ) as i32
            &&& forall|i: int|
                0 <= i < head.components.len() ==> #[trigger] r->Ok_0.tiles[i] == scan.tiles[i]
                    + samples_of(unit[i], head.quant[head.components[i].tq as int])
        }),
{
    lemma_unit_is_read(data, head, scan, scan, unit, preds, 0);
}

/// Two headers whose channels are the same, and have the same tables under the
/// numbers they were given, decode alike, whatever other tables there are.
pub proof fn lemma_only_the_assigned_tables_matter(
    data: Seq<u8>,
    head: Header,
    other: Header,
    scan: Scan,
    c: int,
    left: nat,
)
    requires
        0 <= c < head.components.len(),
        head.components == other.components,
        head.dc[head.components[c].td as int] == other.dc[head.components[c].td as int],
        head.ac[head.components[c].ta as int] == other.ac[head.components[c].ta as int],
        head.quant[head.components[c].tq as int] == other.quant[head.components[c].tq as int],
    ensures
        jpeg::blocks_of(data, head, scan, c, left) == jpeg::blocks_of(data, other, scan, c, left),
    decreases left,
{
    if left > 0 {
        let k = head.components[c];
        match jpeg::block_of(
            data,
            scan.bits,
            head.dc[k.td as int],
            head.ac[k.ta as int],
            head.quant[k.tq as int],
            scan.preds[c],
        ) {
            Err(e) => {},
            Ok((bits, pred, block)) => {
                let next = Scan {
                    bits,
                    preds: scan.preds.update(c, pred),
                    tiles: scan.tiles.update(c, scan.tiles[c] + jpeg::transformed(block)),
                };
                lemma_only_the_assigned_tables_matter(
                    data,
                    head,
                    other,
                    next,
                    c,
                    (left - 1) as nat,
                );
            },
        }
    }
}

/// Whether units stand one after the other in the stream.
pub open spec fn units_written(
    data: Seq<u8>,
    s: Bits,
    head: Header,
    units: Seq<Seq<Seq<Seq<int>>>>,
    preds: Seq<int>,
) -> bool
    decreases units.len(),
{
    units.len() == 0 || {
        &&& units[0].len() == head.components.len()
        &&& unit_written(data, s, head, units[0], preds, 0)
        &&& units_written(
            data,
            past_unit(data, s, head, units[0], preds, 0),
            head,
            units.skip(1),
            preds_after(units[0], preds),
        )
    }
}

/// The samples of one channel of all the units, in their order.
pub open spec fn channel_samples(
    units: Seq<Seq<Seq<Seq<int>>>>,
    c: int,
    quant: Seq<u16>,
) -> Seq<u8>
    decreases units.len(),
{
    if units.len() == 0 {
        seq![]
    } else {
        samples_of(units[0][c], quant) + channel_samples(units.skip(1), c, quant)
    }
}

/// Whether the first coefficients are at hand as the reader holds them.
spec fn held(preds: Seq<int>, scan: Scan) -> bool {
    &&& preds.len() == scan.preds.len()
    &&& forall|i: int| 0 <= i < preds.len() ==> #[trigger] preds[i] == scan.preds[i]
}

proof fn lemma_last_fits(
    data: Seq<u8>,
    s: Bits,
    dc: Codes,
    ac: Codes,
    blocks: Seq<Seq<int>>,
    pred: i32,
)
    requires
        blocks_written(data, s, dc, ac, blocks, pred as int),
    ensures
        last_of(blocks, pred as int) as i32 == last_of(blocks, pred as int),
    decreases blocks.len(),
{
    if blocks.len() > 0 {
        assert(-32767 <= blocks[0][0] <= 32767);
        let rest = blocks.skip(1);
        lemma_last_fits(
            data,
            past_block(data, s, dc, ac, blocks[0], pred as int),
            dc,
            ac,
            rest,
            blocks[0][0] as i32,
        );
        if rest.len() > 0 {
            assert(rest.last() == blocks.last());
        } else {
            assert(blocks.last() == blocks[0]);
        }
    }
}

proof fn lemma_preds_fit(
    data: Seq<u8>,
    s: Bits,
    head: Header,
    unit: Seq<Seq<Seq<int>>>,
    scan: Scan,
    preds: Seq<int>,
    c: int,
)
    requires
        held(preds, scan),
        preds.len() == head.components.len(),
        0 <= c <= head.components.len(),
        unit_written(data, s, head, unit, preds, c),
    ensures
        forall|i: int|
            c <= i < preds.len() ==> #[trigger] last_of(unit[i], preds[i]) as i32 == last_of(
                unit[i],
                preds[i],
            ),
    decreases head.components.len() - c,
{
    if c < head.components.len() {
        let k = head.components[c];
        assert(preds[c] == scan.preds[c]);
        lemma_last_fits(
            data,
            s,
            head.dc[k.td as int],
            head.ac[k.ta as int],
            unit[c],
            scan.preds[c],
        );
        lemma_preds_fit(
            data,
            past_blocks(
                data,
                s,
                head.dc[k.td as int],
                head.ac[k.ta as int],
                unit[c],
                preds[c],
            ),
            head,
            unit,
            scan,
            preds,
            c + 1,
        );
    }
}

/// Units that stand one after the other decode to the samples of every channel.
pub proof fn lemma_units_are_read(
    data: Seq<u8>,
    head: Header,
    scan: Scan,
    units: Seq<Seq<Seq<Seq<int>>>>,
    preds: Seq<int>,
    since: int,
)
    requires
        tabled(head),
        head.restart == 0,
        preds.len() == head.components.len(),
        scan.preds.len() == head.components.len(),
        scan.tiles.len() == head.components.len(),
        forall|i: int| 0 <= i < preds.len() ==> #[trigger] preds[i] == scan.preds[i],
        units_written(data, scan.bits, head, units, preds),
    ensures
        ({
            let r = jpeg::units_of(data, head, scan, since, units.len());
            &&& r is Ok
            &&& r->Ok_0.tiles.len() == head.components.len()
            &&& forall|c: int|
                0 <= c < head.components.len() ==> #[trigger] r->Ok_0.tiles[c] == scan.tiles[c]
                    + channel_samples(units, c, head.quant[head.components[c].tq as int])
        }),
    decreases units.len(),
{
    if units.len() == 0 {
        assert forall|c: int| 0 <= c < head.components.len() implies #[trigger] scan.tiles[c]
            == scan.tiles[c] + channel_samples(
            units,
            c,
            head.quant[head.components[c].tq as int],
        ) by {
            assert(scan.tiles[c] + Seq::<u8>::empty() =~= scan.tiles[c]);
        }
    } else {
        let unit = units[0];
        let rest = units.skip(1);
        lemma_a_unit_is_read(data, head, scan, unit, preds);
        lemma_preds_fit(data, scan.bits, head, unit, scan, preds, 0);
        let next = jpeg::unit_of(data, head, scan, 0)->Ok_0;
        let after = preds_after(unit, preds);
        assert forall|i: int| 0 <= i < after.len() implies #[trigger] after[i] == next.preds[i] by {
            assert(next.preds[i] == last_of(unit[i], preds[i]) as i32);
        }
        lemma_units_are_read(data, head, next, rest, after, since + 1);
        let done = jpeg::units_of(data, head, next, since + 1, rest.len())->Ok_0;
        assert forall|c: int| 0 <= c < head.components.len() implies #[trigger] done.tiles[c]
            == scan.tiles[c] + channel_samples(
            units,
            c,
            head.quant[head.components[c].tq as int],
        ) by {
            let quant = head.quant[head.components[c].tq as int];
            assert(next.tiles[c] == scan.tiles[c] + samples_of(unit[c], quant));
            assert(scan.tiles[c] + samples_of(unit[c], quant) + channel_samples(rest, c, quant)
                =~= scan.tiles[c] + (samples_of(unit[c], quant) + channel_samples(
                rest,
                c,
                quant,
            )));
        }
    }
}

/// A whole picture, encoded unit by unit with each channel's own tables, decodes
/// to its samples: of every channel those of its blocks, in the order of the
/// units.
pub proof fn lemma_a_picture_is_read(data: Seq<u8>, head: Header, units: Seq<Seq<Seq<Seq<int>>>>)
    requires
        tabled(head),
        head.restart == 0,
        head.width > 0,
        head.height > 0,
        units.len() == jpeg::covering(head.width, 8 * jpeg::largest_h(head.components))
            * jpeg::covering(head.height, 8 * jpeg::largest_v(head.components)),
        units_written(
            data,
            jpeg::fresh(),
            head,
            units,
            Seq::new(head.components.len(), |c: int| 0int),
        ),
    ensures
        ({
            let r = jpeg::raster_of(data, head);
            &&& r is Ok
            &&& r->Ok_0.width == head.width
            &&& r->Ok_0.height == head.height
            &&& r->Ok_0.components == head.components
            &&& r->Ok_0.across == jpeg::covering(
                head.width,
                8 * jpeg::largest_h(head.components),
            )
            &&& r->Ok_0.tiles.len() == head.components.len()
            &&& forall|c: int|
                0 <= c < head.components.len() ==> #[trigger] r->Ok_0.tiles[c] == channel_samples(
                    units,
                    c,
                    head.quant[head.components[c].tq as int],
                )
        }),
{
    let scan = jpeg::no_scan(head.components.len());
    let preds = Seq::new(head.components.len(), |c: int| 0int);
    lemma_units_are_read(data, head, scan, units, preds, 0);
    let done = jpeg::units_of(data, head, scan, 0, units.len())->Ok_0;
    assert forall|c: int| 0 <= c < head.components.len() implies #[trigger] done.tiles[c]
        == channel_samples(units, c, head.quant[head.components[c].tq as int]) by {
        let all = channel_samples(units, c, head.quant[head.components[c].tq as int]);
        assert(scan.tiles[c] =~= Seq::<u8>::empty());
        assert(Seq::<u8>::empty() + all =~= all);
    }
}

/// Units cover the picture, and none is there for nothing.
pub proof fn lemma_units_cover(length: int, size: int)
    requires
        length > 0,
        size > 0,
    ensures
        jpeg::covering(length, size) * size >= length,
        (jpeg::covering(length, size) - 1) * size < length,
{
    let n = (length + size - 1) / size;
    assert(n * size <= length + size - 1 < (n + 1) * size) by (nonlinear_arith)
        requires
            size > 0,
            n == (length + size - 1) / size,
    ;
    assert((n + 1) * size == n * size + size) by (nonlinear_arith);
    assert((n - 1) * size == n * size - size) by (nonlinear_arith);
}

/// The largest sampling factors are those of some channel, and no channel has
/// larger ones.
pub proof fn lemma_largest_factors(c: Seq<Component>)
    requires
        c.len() > 0,
        forall|i: int| 0 <= i < c.len() ==> (#[trigger] c[i]).h >= 1 && c[i].v >= 1,
    ensures
        forall|i: int|
            0 <= i < c.len() ==> (#[trigger] c[i]).h <= jpeg::largest_h(c) && c[i].v
                <= jpeg::largest_v(c),
        exists|i: int| 0 <= i < c.len() && (#[trigger] c[i]).h == jpeg::largest_h(c),
        exists|i: int| 0 <= i < c.len() && (#[trigger] c[i]).v == jpeg::largest_v(c),
    decreases c.len(),
{
    let head = c.drop_last();
    let n = c.len() - 1;
    assert(c[n] == c.last());
    if head.len() > 0 {
        assert forall|i: int| 0 <= i < head.len() implies (#[trigger] head[i]).h >= 1 && head[i].v
            >= 1 by {
            assert(c[i].h >= 1);
        }
        lemma_largest_factors(head);
        let a = choose|i: int| 0 <= i < head.len() && (#[trigger] head[i]).h == jpeg::largest_h(
            head,
        );
        let b = choose|i: int| 0 <= i < head.len() && (#[trigger] head[i]).v == jpeg::largest_v(
            head,
        );
        assert(c[a] == head[a]);
        assert(c[b] == head[b]);
        assert forall|i: int| 0 <= i < c.len() implies (#[trigger] c[i]).h <= jpeg::largest_h(c)
            && c[i].v <= jpeg::largest_v(c) by {
            if i < n {
                assert(c[i] == head[i]);
            }
        }
    } else {
        assert(c[0].h >= 1);
    }
}

proof fn lemma_parts(q: int, n: int, r: int)
    requires
        n > 0,
        0 <= r < n,
    ensures
        (q * n + r) / n == q,
        (q * n + r) % n == r,
{
    vstd::arithmetic::div_mod::lemma_fundamental_div_mod_converse(q * n + r, n, q, r);
}

/// A sample stands where its unit, its block within the unit and its place within
/// the block say: units go row by row, and so do the blocks of a unit and the
/// samples of a block.
pub proof fn lemma_where_a_sample_stands(
    k: Component,
    across: int,
    ux: int,
    uy: int,
    bx: int,
    by: int,
    x: int,
    y: int,
)
    requires
        k.wf(),
        0 <= ux < across,
        0 <= uy,
        0 <= bx < k.h,
        0 <= by < k.v,
        0 <= x < 8,
        0 <= y < 8,
    ensures
        jpeg::tile_offset(
            k,
            across,
            (ux * k.h + bx) * 8 + x,
            (uy * k.v + by) * 8 + y,
        ) == ((uy * across + ux) * (k.h * k.v) + by * k.h + bx) * 64 + y * 8 + x,
{
    lemma_parts(ux * k.h + bx, 8, x);
    lemma_parts(uy * k.v + by, 8, y);
    lemma_parts(ux, k.h as int, bx);
    lemma_parts(uy, k.v as int, by);
    let unit = uy * across + ux;
    assert(unit * (k.h * k.v) + (by * k.h + bx) == unit * (k.h * k.v) + by * k.h + bx);
}

/// A channel that is sampled as finely as any has a sample to each pixel; one that
/// is half as fine across, or down, has one to every two.
pub proof fn lemma_samples_under_pixels(r: jpeg::Raster, c: int, x: int, y: int)
    requires
        0 <= c < r.components.len(),
        r.components[c].wf(),
        0 <= x,
        0 <= y,
    ensures
        r.components[c].h == r.hmax && r.components[c].v == r.vmax ==> jpeg::sample_under(
            r,
            c,
            x,
            y,
        ) == r.tiles[c][jpeg::tile_offset(r.components[c], r.across, x, y)],
        2 * r.components[c].h == r.hmax && 2 * r.components[c].v == r.vmax ==> jpeg::sample_under(
            r,
            c,
            x,
            y,
        ) == r.tiles[c][jpeg::tile_offset(r.components[c], r.across, x / 2, y / 2)],
        2 * r.components[c].h == r.hmax && r.components[c].v == r.vmax ==> jpeg::sample_under(
            r,
            c,
            x,
            y,
        ) == r.tiles[c][jpeg::tile_offset(r.components[c], r.across, x / 2, y)],
{
    let h = r.components[c].h as int;
    let v = r.components[c].v as int;
    assert(x * h / h == x) by (nonlinear_arith)
        requires
            h > 0,
    ;
    assert(y * v / v == y) by (nonlinear_arith)
        requires
            v > 0,
    ;
    lemma_half(x, h);
    lemma_half(y, v);
}

proof fn lemma_half(x: int, h: int)
    requires
        h > 0,
        0 <= x,
    ensures
        x * h / (2 * h) == x / 2,
{
    let q = x / 2;
    let r = x % 2;
    assert(x * h == q * (2 * h) + r * h) by (nonlinear_arith)
        requires
            x == 2 * q + r,
    ;
    assert(0 <= r * h < 2 * h) by (nonlinear_arith)
        requires
            0 <= r < 2,
            h > 0,
    ;
    lemma_parts(q, 2 * h, r * h);
}

// ---------------------------------------------------------------------------
// Bits
// ---------------------------------------------------------------------------

/// The bits of a byte are read from the most significant down, eight of them make
/// the byte again, and a full byte is one byte of the file, or two where the
/// second only marks the first as meant.
pub proof fn lemma_bytes_are_read_from_the_top(data: Seq<u8>, s: Bits)
    requires
        s.remaining == 0,
        0 <= s.pos < data.len(),
        data[s.pos] != 0xFF || s.pos + 1 < data.len() && data[s.pos + 1] == 0,
    ensures
        jpeg::bits_of(data, s, 8).1 == data[s.pos],
        jpeg::bits_of(data, s, 8).0 == (Bits {
            pos: if data[s.pos] == 0xFF {
                s.pos + 2
            } else {
                s.pos + 1
            },
            current: data[s.pos] as u32,
            remaining: 0,
            finished: s.finished,
        }),
        jpeg::bits_of(data, s, 1).1 == data[s.pos] / 128,
        jpeg::bits_of(data, s, 4).1 == data[s.pos] / 16,
{
    reveal_with_fuel(jpeg::bits_of, 9);
    let b = data[s.pos] as u32;
    assert((b >> 7) & 1 == b / 128 && 8 * ((b >> 7) & 1) + 4 * ((b >> 6) & 1) + 2 * ((b >> 5) & 1)
        + ((b >> 4) & 1) == b / 16 && 128 * ((b >> 7) & 1) + 64 * ((b >> 6) & 1) + 32 * ((b >> 5)
        & 1) + 16 * ((b >> 4) & 1) + 8 * ((b >> 3) & 1) + 4 * ((b >> 2) & 1) + 2 * ((b >> 1) & 1)
        + ((b >> 0) & 1) == b) by (bit_vector)
        requires
            b < 256,
    ;
}

/// Reading some bits and then more is reading them all: the first count for more.
pub proof fn lemma_bits_follow_each_other(data: Seq<u8>, s: Bits, m: nat, n: nat)
    ensures
        jpeg::bits_of(data, s, m + n).0 == jpeg::bits_of(
            data,
            jpeg::bits_of(data, s, m).0,
            n,
        ).0,
        jpeg::bits_of(data, s, m + n).1 == jpeg::bits_of(data, s, m).1 * double::p2(n)
            + jpeg::bits_of(data, jpeg::bits_of(data, s, m).0, n).1,
    decreases n,
{
    let v = jpeg::bits_of(data, s, m).1;
    if n > 0 {
        lemma_bits_follow_each_other(data, s, m, (n - 1) as nat);
        let p = double::p2((n - 1) as nat) as int;
        assert(double::p2(n) == 2 * p);
        assert(v * (2 * p) == 2 * (v * p)) by (nonlinear_arith);
        assert(m + n - 1 == m + (n - 1) as nat);
    } else {
        assert(double::p2(0) == 1);
        assert(v * 1 == v);
    }
}

// ---------------------------------------------------------------------------
// Samples
// ---------------------------------------------------------------------------

proof fn lemma_single_zero()
    ensures
        jpeg::single(0) == 0,
{
    assert(jpeg::grain(0) == 1);
    assert(0nat / 1 == 0 && 0nat % 1 == 0);
}

proof fn lemma_empty_row(block: Seq<i32>, v: int, x: int, u: int)
    requires
        0 <= v < 8,
        0 <= u <= 8,
        forall|i: int| 0 <= i < 8 ==> #[trigger] block[v * 8 + i] == 0,
    ensures
        jpeg::row_sum(block, v, x, u) == 0,
    decreases u,
{
    if u > 0 {
        lemma_empty_row(block, v, x, u - 1);
        assert(block[v * 8 + (u - 1)] == 0);
        assert(v * 8 + u - 1 == v * 8 + (u - 1));
    }
}

proof fn lemma_even_columns(block: Seq<i32>, x: int, y: int, z: int, v: int)
    requires
        0 <= y < 8,
        0 <= z < 8,
        0 <= v <= 8,
        forall|w: int, i: int|
            1 <= w < 8 && 0 <= i < 8 ==> #[trigger] block[w * 8 + i] == 0,
    ensures
        jpeg::column_sum(block, x, y, v) == jpeg::column_sum(block, x, z, v),
    decreases v,
{
    lemma_single_zero();
    if v > 0 {
        lemma_even_columns(block, x, y, z, v - 1);
        if v - 1 > 0 {
            assert forall|i: int| 0 <= i < 8 implies #[trigger] block[(v - 1) * 8 + i] == 0 by {}
            lemma_empty_row(block, v - 1, x, 8);
            assert(0 * jpeg::cosine(v - 1, y) == 0);
            assert(0 * jpeg::cosine(v - 1, z) == 0);
        } else {
            lemma_level_wave(y, z);
        }
    }
}

proof fn lemma_level_wave(y: int, z: int)
    requires
        0 <= y < 8,
        0 <= z < 8,
    ensures
        jpeg::cosine(0, y) == jpeg::cosine(0, z),
{
    assert(jpeg::COSINES@[0] == 47453132);
    assert(jpeg::COSINES@[1] == 47453132);
    assert(jpeg::COSINES@[2] == 47453132);
    assert(jpeg::COSINES@[3] == 47453132);
    assert(jpeg::COSINES@[4] == 47453132);
    assert(jpeg::COSINES@[5] == 47453132);
    assert(jpeg::COSINES@[6] == 47453132);
    assert(jpeg::COSINES@[7] == 47453132);
}

/// A block whose coefficients stand in its first row alone changes from column to
/// column only: every row of its samples is the same.
pub proof fn lemma_a_first_row_varies_across(block: Seq<i32>, x: int, y: int, z: int)
    requires
        block.len() == 64,
        0 <= x < 8,
        0 <= y < 8,
        0 <= z < 8,
        forall|w: int, i: int|
            1 <= w < 8 && 0 <= i < 8 ==> #[trigger] block[w * 8 + i] == 0,
    ensures
        jpeg::transformed(block)[y * 8 + x] == jpeg::transformed(block)[z * 8 + x],
{
    lemma_parts(y, 8, x);
    lemma_parts(z, 8, x);
    lemma_even_columns(block, x, y, z, 8);
}

proof fn lemma_even_rows(block: Seq<i32>, v: int, x: int, z: int, u: int)
    requires
        0 <= x < 8,
        0 <= z < 8,
        0 <= v < 8,
        0 <= u <= 8,
        forall|w: int, i: int|
            0 <= w < 8 && 1 <= i < 8 ==> #[trigger] block[w * 8 + i] == 0,
    ensures
        jpeg::row_sum(block, v, x, u) == jpeg::row_sum(block, v, z, u),
    decreases u,
{
    if u > 0 {
        lemma_even_rows(block, v, x, z, u - 1);
        assert(v * 8 + u - 1 == v * 8 + (u - 1));
        if u - 1 > 0 {
            assert(block[v * 8 + (u - 1)] == 0);
        } else {
            lemma_level_wave(x, z);
        }
    }
}

proof fn lemma_columns_alike(block: Seq<i32>, x: int, z: int, y: int, v: int)
    requires
        0 <= x < 8,
        0 <= z < 8,
        0 <= v <= 8,
        forall|w: int, i: int|
            0 <= w < 8 && 1 <= i < 8 ==> #[trigger] block[w * 8 + i] == 0,
    ensures
        jpeg::column_sum(block, x, y, v) == jpeg::column_sum(block, z, y, v),
    decreases v,
{
    if v > 0 {
        lemma_columns_alike(block, x, z, y, v - 1);
        lemma_even_rows(block, v - 1, x, z, 8);
    }
}

/// A block whose coefficients stand in its first column alone changes from row to
/// row only: every column of its samples is the same.
pub proof fn lemma_a_first_column_varies_down(block: Seq<i32>, x: int, z: int, y: int)
    requires
        block.len() == 64,
        0 <= x < 8,
        0 <= y < 8,
        0 <= z < 8,
        forall|w: int, i: int|
            0 <= w < 8 && 1 <= i < 8 ==> #[trigger] block[w * 8 + i] == 0,
    ensures
        jpeg::transformed(block)[y * 8 + x] == jpeg::transformed(block)[y * 8 + z],
{
    lemma_parts(y, 8, x);
    lemma_parts(y, 8, z);
    lemma_columns_alike(block, x, z, y, 8);
}

/// Of the two colour differences, the first says nothing of red and the second
/// nothing of blue.
pub proof fn lemma_what_the_differences_say(y: u8, cb: u8, cr: u8, other: u8)
    ensures
        jpeg::converted(y, cb, cr).0 == jpeg::converted(y, other, cr).0,
        jpeg::converted(y, cb, cr).2 == jpeg::converted(y, cb, other).2,
{
}

proof fn lemma_exact(n: nat, k: nat)
    requires
        n < 256,
        k <= 25,
    ensures
        jpeg::nearest((n * double::p2(k)) as nat) == n * double::p2(k),
{
    let x = (n * double::p2(k)) as nat;
    lemma_grain_divides(n, k);
    let g = jpeg::grain(x);
    assert(x % g == 0);
    assert((x / g) * g == x) by (nonlinear_arith)
        requires
            g > 0,
            x % g == 0,
    ;
}

proof fn lemma_grain_divides(n: nat, k: nat)
    requires
        n < 256,
        k <= 25,
    ensures
        jpeg::grain((n * double::p2(k)) as nat) > 0,
        ((n * double::p2(k)) as nat) % jpeg::grain((n * double::p2(k)) as nat) == 0,
    decreases k,
{
    let x = (n * double::p2(k)) as nat;
    reveal_with_fuel(double::p2, 27);
    if x < 0x100_0000 {
        assert(jpeg::grain(x) == 1);
    } else if k == 0 {
        assert(double::p2(0) == 1);
        assert(n * 1 == n);
    } else {
        lemma_grain_divides(n, (k - 1) as nat);
        let h = (n * double::p2((k - 1) as nat)) as nat;
        assert(x == 2 * h) by (nonlinear_arith)
            requires
                x == n * double::p2(k),
                h == n * double::p2((k - 1) as nat),
                double::p2(k) == 2 * double::p2((k - 1) as nat),
        ;
        assert(x / 2 == h);
        let g = jpeg::grain(h);
        assert(jpeg::grain(x) == 2 * g);
        let q = (h / g) as int;
        vstd::arithmetic::div_mod::lemma_fundamental_div_mod(h as int, g as int);
        assert(2 * h == q * (2 * g)) by (nonlinear_arith)
            requires
                h == g * q + 0,
        ;
        lemma_parts(q, 2 * g as int, 0);
    }
}

/// Without colour differences a pixel is grey, as bright as its first sample.
pub proof fn lemma_no_difference_is_grey(y: u8)
    ensures
        jpeg::converted(y, 128, 128) == (y, y, y),
{
    lemma_single_zero();
    reveal_with_fuel(double::p2, 27);
    assert(double::p2(25) == 0x200_0000);
    lemma_exact(y as nat, 25);
    let l = y * jpeg::FINE;
    assert(jpeg::single(l) == l);
    assert(l / (jpeg::FINE as int) == y);
}

} // verus!
