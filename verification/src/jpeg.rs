//! A baseline JPEG decoder.
//!
//! Cover art arrives as JPEG, and two of the three ways of drawing it need
//! actual pixels: the half-block fallback obviously, and kitty's protocol
//! because sending raw RGB avoids re-encoding a PNG only for the terminal to
//! decode it again. iTerm2 is the exception, as it takes the file as-is.
//!
//! Scope is deliberately narrow: baseline sequential DCT, Huffman coded, one
//! or three components. Progressive and arithmetic-coded files are refused by
//! name rather than half-decoded, and the caller falls back to showing no
//! picture, which is a much better outcome than a mangled one.
//!
//! Every length, index and table id read from the file is checked before use:
//! every file ends in a picture or in an error.
//!
//! The transform and the colour conversion are those of single-precision
//! arithmetic. Every value in them is a whole number of small binary fractions,
//! so it is held as that whole number, and each product and sum is rounded to
//! the 24 significant bits that single precision keeps.

use vstd::prelude::*;
use vstd::slice::slice_subrange;
use vstd::string::*;

use crate::bytes::copied;
use crate::double;
use crate::error::Error;
use crate::graphics;
use crate::graphics::{Image, Rgb};
use crate::text;
use crate::text::{dec, hex_digit};

verus! {

/// The largest picture worth decoding for a thumbnail. Anything bigger is a
/// waste of time at best and a memory bomb at worst.
pub const MAX_DIMENSION: usize = 4096;

pub const MAX_PIXELS: usize = 16_000_000;

// ---------------------------------------------------------------------------
// Signatures
// ---------------------------------------------------------------------------

pub open spec fn jpeg_signature(data: Seq<u8>) -> bool {
    data.len() >= 3 && data[0] == 0xFF && data[1] == 0xD8 && data[2] == 0xFF
}

/// True when the bytes start with a JPEG signature.
pub fn is_jpeg(data: &[u8]) -> (r: bool)
    ensures
        r == jpeg_signature(data@),
{
    data.len() >= 3 && data[0] == 0xFF && data[1] == 0xD8 && data[2] == 0xFF
}

pub open spec fn png_signature(data: Seq<u8>) -> bool {
    data.len() >= 8 && data[0] == 0x89 && data[1] == 0x50 && data[2] == 0x4E && data[3] == 0x47
        && data[4] == 0x0D && data[5] == 0x0A && data[6] == 0x1A && data[7] == 0x0A
}

/// True when the bytes start with a PNG signature.
pub fn is_png(data: &[u8]) -> (r: bool)
    ensures
        r == png_signature(data@),
{
    data.len() >= 8 && data[0] == 0x89 && data[1] == 0x50 && data[2] == 0x4E && data[3] == 0x47
        && data[4] == 0x0D && data[5] == 0x0A && data[6] == 0x1A && data[7] == 0x0A
}

// ---------------------------------------------------------------------------
// Bits
// ---------------------------------------------------------------------------

/// Where a reader of single bits stands: the next byte, the byte at hand, how
/// many of its bits are left, and whether the stream has run out.
pub struct Bits {
    pub pos: int,
    pub current: u32,
    pub remaining: u32,
    pub finished: bool,
}

/// True when a byte ends the entropy-coded data: a marker rather than a literal
/// 0xFF, which is followed by a stuffed zero.
pub open spec fn ends_stream(data: Seq<u8>, pos: int) -> bool {
    pos >= data.len() || (data[pos] == 0xFF && !(pos + 1 < data.len() && data[pos + 1] == 0))
}

/// The next bit, and where the reader stands after it. Once the stream runs
/// into a marker or off the end it feeds zero bits, so that a truncated image
/// decodes to a grey tail rather than an error: half a cover is still a cover.
pub open spec fn bit_of(data: Seq<u8>, s: Bits) -> (Bits, u32) {
    if s.remaining > 0 {
        let left = (s.remaining - 1) as u32;
        (Bits { remaining: left, ..s }, (s.current >> left) & 1)
    } else if ends_stream(data, s.pos) {
        (Bits { finished: true, ..s }, 0)
    } else {
        let byte = data[s.pos] as u32;
        let next = if byte == 0xFF {
            s.pos + 2
        } else {
            s.pos + 1
        };
        (Bits { pos: next, current: byte, remaining: 7, ..s }, (byte >> 7) & 1)
    }
}

/// `n` bits as a number, most significant first.
pub open spec fn bits_of(data: Seq<u8>, s: Bits, n: nat) -> (Bits, int)
    decreases n,
{
    if n == 0 {
        (s, 0)
    } else {
        let (s1, v) = bits_of(data, s, (n - 1) as nat);
        let (s2, b) = bit_of(data, s1);
        (s2, 2 * v + b)
    }
}

/// A canonical Huffman table: how many codes there are of each length from one
/// bit to sixteen, and the values they stand for, in the order of the codes.
pub struct Codes {
    pub counts: Seq<u8>,
    pub values: Seq<u8>,
}

pub const OUTSIDE_TABLE: &'static str = "a Huffman code points outside its table";

pub const NO_CODE: &'static str = "no Huffman code matches the bits in the stream";

/// Read on for a Huffman code of more than `length` bits, when the bits so far
/// make `code`, the first code with one bit more is `least`, and `first` codes
/// are shorter than that.
pub open spec fn hunt(
    data: Seq<u8>,
    s: Bits,
    t: Codes,
    length: int,
    code: int,
    least: int,
    first: int,
) -> (Bits, Result<u8, Seq<char>>)
    decreases 16 - length,
{
    if length >= 16 {
        // A stream that has run out feeds zeroes forever.
        if s.finished {
            (s, Ok(0u8))
        } else {
            (s, Err(NO_CODE@))
        }
    } else {
        let (s1, b) = bit_of(data, s);
        let c = 2 * code + b;
        let n = t.counts[length] as int;
        if least <= c < least + n {
            let i = first + (c - least);
            if i < t.values.len() {
                (s1, Ok(t.values[i]))
            } else {
                (s1, Err(OUTSIDE_TABLE@))
            }
        } else {
            hunt(data, s1, t, length + 1, c, 2 * (least + n), first + n)
        }
    }
}

/// One Huffman-coded value.
pub open spec fn huffman_of(data: Seq<u8>, s: Bits, t: Codes) -> (Bits, Result<u8, Seq<char>>) {
    hunt(data, s, t, 0, 0, 0, 0)
}

/// The first restart marker at or after a position.
pub open spec fn restart_at(data: Seq<u8>, pos: int) -> Option<int>
    decreases data.len() - pos,
{
    if pos + 1 >= data.len() {
        None
    } else if data[pos] == 0xFF && 0xD0 <= data[pos + 1] <= 0xD7 {
        Some(pos)
    } else {
        restart_at(data, pos + 1)
    }
}

/// Where the reader stands after stepping over a restart marker.
pub open spec fn restarted(data: Seq<u8>, s: Bits) -> Bits {
    match restart_at(data, s.pos) {
        Some(p) => Bits { pos: p + 2, current: s.current, remaining: 0, finished: false },
        None => Bits {
            pos: if s.pos + 1 < data.len() {
                data.len() - 1
            } else {
                s.pos
            },
            current: s.current,
            remaining: 0,
            finished: true,
        },
    }
}

/// A canonical Huffman table.
#[derive(Debug)]
pub struct HuffTable {
    /// How many codes there are of each length.
    pub counts: Vec<u8>,
    pub values: Vec<u8>,
}

impl View for HuffTable {
    type V = Codes;

    open spec fn view(&self) -> Codes {
        Codes { counts: self.counts@, values: self.values@ }
    }
}

impl HuffTable {
    pub open spec fn wf(self) -> bool {
        self.counts@.len() == 16
    }

    /// Build from the counts-and-values form stored in a DHT segment.
    pub fn build(counts: Vec<u8>, values: Vec<u8>) -> (r: Self)
        requires
            counts@.len() == 16,
        ensures
            r.wf(),
            r@ == (Codes { counts: counts@, values: values@ }),
    {
        HuffTable { counts, values }
    }
}

/// How many codes have at most `length` bits.
pub open spec fn codes_up_to(counts: Seq<u8>, length: int) -> int
    decreases length,
{
    if length <= 0 {
        0
    } else {
        codes_up_to(counts, length - 1) + counts[length - 1]
    }
}

/// The first code of `length + 1` bits: the one that follows the last code of
/// `length` bits, with a zero behind it.
pub open spec fn first_code(counts: Seq<u8>, length: int) -> int
    decreases length,
{
    if length <= 0 {
        0
    } else {
        2 * (first_code(counts, length - 1) + counts[length - 1])
    }
}

/// The canonical code of the `k`-th value, among those of more than `length`
/// bits: how many bits it has, and what they make.
pub open spec fn code_beyond(counts: Seq<u8>, k: int, length: int) -> (int, int)
    decreases 16 - length,
{
    if length >= 16 || k < codes_up_to(counts, length + 1) {
        (length + 1, first_code(counts, length) + (k - codes_up_to(counts, length)))
    } else {
        code_beyond(counts, k, length + 1)
    }
}

/// The canonical code of the `k`-th value.
pub open spec fn canonical_code(counts: Seq<u8>, k: int) -> (int, int) {
    code_beyond(counts, k, 0)
}

/// How much of all the codes of sixteen bits those of at most `length` bits
/// take up.
pub open spec fn taken_up(counts: Seq<u8>, length: int) -> int
    decreases length,
{
    if length <= 0 {
        0
    } else {
        taken_up(counts, length - 1) + counts[length - 1] * double::p2((16 - length) as nat)
    }
}

/// Whether the lengths leave no code that is the beginning of another.
pub open spec fn prefix_free(counts: Seq<u8>) -> bool {
    taken_up(counts, 16) <= 65536
}

/// Where the code of a value is found.
proof fn lemma_code_beyond(counts: Seq<u8>, k: int, length: int)
    requires
        counts.len() == 16,
        0 <= length <= 15,
        codes_up_to(counts, length) <= k < codes_up_to(counts, 16),
    ensures
        ({
            let (n, v) = code_beyond(counts, k, length);
            &&& length < n <= 16
            &&& codes_up_to(counts, n - 1) <= k < codes_up_to(counts, n)
            &&& v == first_code(counts, n - 1) + (k - codes_up_to(counts, n - 1))
        }),
    decreases 16 - length,
{
    if k >= codes_up_to(counts, length + 1) {
        lemma_code_beyond(counts, k, length + 1);
    }
}

/// Bits that make less than the codes of their length begin no longer code.
proof fn lemma_short_of_the_codes(data: Seq<u8>, s: Bits, counts: Seq<u8>, j: int, l: int)
    requires
        counts.len() == 16,
        0 <= j < l < 16,
        bits_of(data, s, (j + 1) as nat).1 < first_code(counts, j) + counts[j],
    ensures
        bits_of(data, s, (l + 1) as nat).1 < first_code(counts, l),
    decreases l - j,
{
    if j + 1 < l {
        lemma_short_of_the_codes(data, s, counts, j, l - 1);
    }
    lemma_one_bit(data, bits_of(data, s, l as nat).0);
    assert(bits_of(data, s, l as nat).1 < first_code(counts, l - 1) + counts[l - 1]);
}

proof fn lemma_one_bit(data: Seq<u8>, s: Bits)
    ensures
        bit_of(data, s).1 <= 1,
{
    let c = s.current;
    let left = (s.remaining - 1) as u32;
    assert((c >> left) & 1 <= 1) by (bit_vector);
    let byte = data[s.pos] as u32;
    assert((byte >> 7) & 1 <= 1) by (bit_vector);
}

/// Reading goes on until as many bits are read as the code has.
proof fn lemma_hunt(data: Seq<u8>, s: Bits, t: Codes, j: int, k: int)
    requires
        t.counts.len() == 16,
        0 <= k < codes_up_to(t.counts, 16),
        k < t.values.len(),
        0 <= j < canonical_code(t.counts, k).0,
        bits_of(data, s, canonical_code(t.counts, k).0 as nat).1 == canonical_code(t.counts, k).1,
    ensures
        hunt(
            data,
            bits_of(data, s, j as nat).0,
            t,
            j,
            bits_of(data, s, j as nat).1,
            first_code(t.counts, j),
            codes_up_to(t.counts, j),
        ) == (
            bits_of(data, s, canonical_code(t.counts, k).0 as nat).0,
            Ok::<u8, Seq<char>>(t.values[k]),
        ),
    decreases 16 - j,
{
    let (n, v) = canonical_code(t.counts, k);
    lemma_code_beyond(t.counts, k, 0);
    let c = bits_of(data, s, (j + 1) as nat).1;
    if j + 1 < n {
        if c < first_code(t.counts, j) + t.counts[j] {
            lemma_short_of_the_codes(data, s, t.counts, j, n - 1);
        }
        lemma_hunt(data, s, t, j + 1, k);
    }
}

/// A table reads every code it was made of: where the bits that are left begin
/// with the canonical code of the `k`-th value, the reader takes that code and
/// nothing more, and gives that value.
pub proof fn lemma_codes_are_read(data: Seq<u8>, s: Bits, t: Codes, k: int)
    requires
        t.counts.len() == 16,
        codes_up_to(t.counts, 16) == t.values.len(),
        0 <= k < t.values.len(),
        bits_of(data, s, canonical_code(t.counts, k).0 as nat).1 == canonical_code(t.counts, k).1,
    ensures
        huffman_of(data, s, t) == (
            bits_of(data, s, canonical_code(t.counts, k).0 as nat).0,
            Ok::<u8, Seq<char>>(t.values[k]),
        ),
{
    lemma_code_beyond(t.counts, k, 0);
    lemma_hunt(data, s, t, 0, k);
}

proof fn lemma_taken_up(counts: Seq<u8>, length: int)
    requires
        counts.len() == 16,
        0 < length <= 16,
    ensures
        (first_code(counts, length - 1) + counts[length - 1]) * double::p2((16 - length) as nat)
            == taken_up(counts, length),
        taken_up(counts, length) <= taken_up(counts, 16),
    decreases length,
{
    lemma_taken_up_grows(counts, length);
    let p = double::p2((16 - length) as nat) as int;
    let n = counts[length - 1] as int;
    if length > 1 {
        lemma_taken_up(counts, length - 1);
        let before = first_code(counts, length - 2) + counts[length - 2];
        assert(double::p2((17 - length) as nat) == 2 * p);
        assert((2 * before + n) * p == before * (2 * p) + n * p) by (nonlinear_arith);
    } else {
        assert((0 + n) * p == n * p) by (nonlinear_arith);
        assert(taken_up(counts, 0) == 0);
    }
}

proof fn lemma_taken_up_grows(counts: Seq<u8>, length: int)
    requires
        counts.len() == 16,
        0 <= length <= 16,
    ensures
        taken_up(counts, length) <= taken_up(counts, 16),
    decreases 16 - length,
{
    if length < 16 {
        lemma_taken_up_grows(counts, length + 1);
        let n = counts[length] as int;
        let p = double::p2((15 - length) as nat) as int;
        assert(n * p >= 0) by (nonlinear_arith)
            requires
                n >= 0,
                p >= 0,
        ;
    }
}

/// In a table whose lengths leave no code that is the beginning of another,
/// every code fits the bits it has.
pub proof fn lemma_codes_fit_their_bits(counts: Seq<u8>, k: int)
    requires
        counts.len() == 16,
        prefix_free(counts),
        0 <= k < codes_up_to(counts, 16),
    ensures
        ({
            let (n, v) = canonical_code(counts, k);
            &&& 1 <= n <= 16
            &&& 0 <= v < double::p2(n as nat)
        }),
{
    lemma_code_beyond(counts, k, 0);
    let (n, v) = canonical_code(counts, k);
    lemma_taken_up(counts, n);
    lemma_first_code(counts, n - 1);
    let p = double::p2((16 - n) as nat) as int;
    let q = double::p2(n as nat) as int;
    let top = first_code(counts, n - 1) + counts[n - 1];
    lemma_p2_split(n);
    assert(p > 0) by {
        lemma_p2_16((16 - n) as nat);
    }
    assert(top <= q) by (nonlinear_arith)
        requires
            top * p <= 65536,
            p * q == 65536,
            p > 0,
    ;
}

proof fn lemma_first_code(counts: Seq<u8>, length: int)
    requires
        counts.len() == 16,
        0 <= length < 16,
    ensures
        first_code(counts, length) >= 0,
    decreases length,
{
    if length > 0 {
        lemma_first_code(counts, length - 1);
    }
}

proof fn lemma_p2_split(n: int)
    requires
        0 <= n <= 16,
    ensures
        double::p2((16 - n) as nat) * double::p2(n as nat) == 65536,
    decreases n,
{
    if n > 0 {
        lemma_p2_split(n - 1);
        let p = double::p2((16 - n) as nat) as int;
        let q = double::p2((n - 1) as nat) as int;
        assert(double::p2((17 - n) as nat) == 2 * p);
        assert((2 * p) * q == p * (2 * q)) by (nonlinear_arith);
    } else {
        reveal_with_fuel(double::p2, 18);
        assert(double::p2(16) == 65536);
        assert(65536 * 1 == 65536);
    }
}

/// A table that no segment has defined: its one code stands for nothing.
pub open spec fn undefined_codes() -> Codes {
    Codes { counts: Seq::new(16, |i: int| if i == 0 { 1u8 } else { 0u8 }), values: seq![] }
}

impl Default for HuffTable {
    fn default() -> (r: Self)
        ensures
            r.wf(),
            r@ == undefined_codes(),
    {
        let counts: Vec<u8> = vec![1, 0, 0, 0, 0, 0, 0, 0, 0, 0, 0, 0, 0, 0, 0, 0];
        let values: Vec<u8> = Vec::new();
        assert(counts@ =~= undefined_codes().counts);
        assert(values@ =~= undefined_codes().values);
        HuffTable { counts, values }
    }
}

/// Reads single bits out of an entropy-coded segment.
#[derive(Debug)]
pub struct BitReader<'a> {
    pub data: &'a [u8],
    pub pos: usize,
    pub current: u32,
    pub remaining: u32,
    /// Set once the stream runs into a marker or off the end.
    pub finished: bool,
}

impl<'a> View for BitReader<'a> {
    type V = Bits;

    open spec fn view(&self) -> Bits {
        Bits {
            pos: self.pos as int,
            current: self.current,
            remaining: self.remaining,
            finished: self.finished,
        }
    }
}

/// Where a reader stands before its first bit.
pub open spec fn fresh() -> Bits {
    Bits { pos: 0, current: 0, remaining: 0, finished: false }
}

impl<'a> BitReader<'a> {
    pub open spec fn wf(self) -> bool {
        self.pos <= self.data@.len() && self.remaining <= 8
    }

    pub fn new(data: &'a [u8]) -> (r: Self)
        ensures
            r.wf(),
            r.data@ == data@,
            r@ == fresh(),
    {
        BitReader { data, pos: 0, current: 0, remaining: 0, finished: false }
    }

    pub fn bit(&mut self) -> (r: u32)
        requires
            old(self).wf(),
        ensures
            final(self).wf(),
            final(self).data@ == old(self).data@,
            (final(self)@, r) == bit_of(old(self).data@, old(self)@),
            r <= 1,
    {
        let n: usize = self.data.len();
        if self.remaining == 0 {
            if self.pos >= n {
                self.finished = true;
                return 0;
            }
            let byte: u8 = self.data[self.pos];
            if byte == 0xFF {
                // A stuffed zero means a literal 0xFF byte; any other marker
                // ends the entropy-coded data.
                if n - self.pos > 1 && self.data[self.pos + 1] == 0x00 {
                    self.pos += 2;
                } else {
                    self.finished = true;
                    return 0;
                }
            } else {
                self.pos += 1;
            }
            self.current = byte as u32;
            self.remaining = 8;
        }
        self.remaining -= 1;
        let c = self.current;
        let k = self.remaining;
        assert((c >> k) & 1 <= 1) by (bit_vector);
        (c >> k) & 1
    }

    /// Read `count` bits as an unsigned value.
    pub fn receive(&mut self, count: usize) -> (r: i32)
        requires
            old(self).wf(),
        ensures
            final(self).wf(),
            final(self).data@ == old(self).data@,
            (final(self)@, r as int) == bits_of(
                old(self).data@,
                old(self)@,
                (if count < 16 {
                    count
                } else {
                    16
                }) as nat,
            ),
            0 <= r < double::p2(
                (if count < 16 {
                    count
                } else {
                    16
                }) as nat,
            ),
    {
        let n: usize = if count < 16 {
            count
        } else {
            16
        };
        let mut value: i32 = 0;
        let mut i: usize = 0;
        while i < n
            invariant
                i <= n <= 16,
                self.wf(),
                self.data@ == old(self).data@,
                (self@, value as int) == bits_of(old(self).data@, old(self)@, i as nat),
                0 <= value < double::p2(i as nat),
            decreases n - i,
        {
            proof {
                lemma_p2_16(i as nat);
                lemma_p2_16((i + 1) as nat);
            }
            value = 2 * value + self.bit() as i32;
            i += 1;
        }
        value
    }

    /// Decode one Huffman-coded value.
    pub fn huffman(&mut self, table: &HuffTable) -> (r: Result<u8, Error>)
        requires
            old(self).wf(),
            table.wf(),
        ensures
            final(self).wf(),
            final(self).data@ == old(self).data@,
            final(self)@ == huffman_of(old(self).data@, old(self)@, table@).0,
            match r {
                Ok(v) => huffman_of(old(self).data@, old(self)@, table@).1 == Ok::<u8, Seq<char>>(
                    v,
                ),
                Err(e) => huffman_of(old(self).data@, old(self)@, table@).1 == Err::<
                    u8,
                    Seq<char>,
                >(e.text@),
            },
    {
        let mut code: u64 = 0;
        let mut least: u64 = 0;
        let mut first: u64 = 0;
        let mut length: usize = 0;
        while length < 16
            invariant
                length <= 16,
                table.wf(),
                self.wf(),
                self.data@ == old(self).data@,
                code < double::p2(length as nat),
                least + 510 <= 510 * double::p2(length as nat),
                first <= 255 * length,
                hunt(
                    self.data@,
                    self@,
                    table@,
                    length as int,
                    code as int,
                    least as int,
                    first as int,
                ) == huffman_of(old(self).data@, old(self)@, table@),
            decreases 16 - length,
        {
            proof {
                lemma_p2_16(length as nat);
                lemma_p2_16((length + 1) as nat);
            }
            code = 2 * code + self.bit() as u64;
            let n = table.counts[length] as u64;
            if least <= code && code < least + n {
                let i = first + (code - least);
                if i < table.values.len() as u64 {
                    return Ok(table.values[i as usize]);
                }
                return Err(Error::new(OUTSIDE_TABLE.to_owned()));
            }
            least = 2 * (least + n);
            first = first + n;
            length += 1;
        }
        if self.finished {
            return Ok(0);
        }
        Err(Error::new(NO_CODE.to_owned()))
    }

    /// Step over a restart marker and start reading on a byte boundary. The
    /// marker may be immediately here, or a byte or two along if the last
    /// entropy byte was padded.
    pub fn restart(&mut self)
        requires
            old(self).wf(),
        ensures
            final(self).wf(),
            final(self).data@ == old(self).data@,
            final(self)@ == restarted(old(self).data@, old(self)@),
    {
        let n: usize = self.data.len();
        self.remaining = 0;
        while self.pos < n && n - self.pos > 1
            invariant
                n == self.data@.len(),
                self.wf(),
                self.remaining == 0,
                self.current == old(self).current,
                self.data@ == old(self).data@,
                old(self).pos <= self.pos,
                self.pos > old(self).pos ==> self.pos < n,
                restart_at(self.data@, self.pos as int) == restart_at(
                    self.data@,
                    old(self).pos as int,
                ),
            decreases n - self.pos,
        {
            let next = self.data[self.pos + 1];
            if self.data[self.pos] == 0xFF && 0xD0 <= next && next <= 0xD7 {
                self.pos += 2;
                self.finished = false;
                return;
            }
            self.pos += 1;
        }
        self.finished = true;
    }
}

proof fn lemma_p2_16(k: nat)
    requires
        k <= 16,
    ensures
        1 <= double::p2(k) <= 65536,
        double::p2(k + 1) == 2 * double::p2(k),
{
    reveal_with_fuel(double::p2, 18);
}

/// Off the end of its data, a reader feeds zero bits forever.
pub proof fn lemma_a_finished_stream_feeds_zeroes(data: Seq<u8>, s: Bits, n: nat)
    requires
        s.remaining == 0,
        ends_stream(data, s.pos),
    ensures
        bits_of(data, s, n).1 == 0,
        bits_of(data, s, n).0 == (if n == 0 {
            s
        } else {
            Bits { finished: true, ..s }
        }),
    decreases n,
{
    if n > 0 {
        lemma_a_finished_stream_feeds_zeroes(data, s, (n - 1) as nat);
    }
}

// ---------------------------------------------------------------------------
// Coefficients
// ---------------------------------------------------------------------------

/// Coefficient order within a block. The file stores them along a diagonal
/// zigzag; this maps position in that sequence to position in the 8×8 block.
pub const ZIGZAG: [usize; 64] = [
    0, 1, 8, 16, 9, 2, 3, 10,
    17, 24, 32, 25, 18, 11, 4, 5,
    12, 19, 26, 33, 40, 48, 41, 34,
    27, 20, 13, 6, 7, 14, 21, 28,
    35, 42, 49, 56, 57, 50, 43, 36,
    29, 22, 15, 23, 30, 37, 44, 51,
    58, 59, 52, 45, 38, 31, 39, 46,
    53, 60, 61, 54, 47, 55, 62, 63,
];

/// The signed coefficient that a magnitude of `size` bits stands for.
pub open spec fn extended(value: int, size: nat) -> int {
    if size == 0 {
        0
    } else if value < double::p2((size - 1) as nat) {
        value - double::p2(size) + 1
    } else {
        value
    }
}

fn power_of_two(n: usize) -> (r: i32)
    requires
        n <= 30,
    ensures
        r == double::p2(n as nat),
{
    let mut r: i32 = 1;
    let mut i: usize = 0;
    while i < n
        invariant
            i <= n <= 30,
            r == double::p2(i as nat),
            1 <= r,
        decreases n - i,
    {
        proof {
            reveal_with_fuel(double::p2, 32);
        }
        r = 2 * r;
        i += 1;
    }
    r
}

/// Turn a `size`-bit magnitude into a signed coefficient.
pub fn extend(value: i32, size: usize) -> (r: i32)
    requires
        size <= 30,
        value >= 0,
    ensures
        r == extended(value as int, size as nat),
{
    if size == 0 {
        return 0;
    }
    let half = power_of_two(size - 1);
    if value < half {
        let whole = power_of_two(size);
        value - whole + 1
    } else {
        value
    }
}

/// The coefficients of a block from position `k` of the zigzag on.
pub open spec fn ac_of(
    data: Seq<u8>,
    s: Bits,
    t: Codes,
    quant: Seq<u16>,
    k: int,
    block: Seq<i32>,
) -> Result<(Bits, Seq<i32>), Seq<char>>
    decreases 80 - k,
{
    if k >= 64 {
        Ok((s, block))
    } else {
        match huffman_of(data, s, t) {
            (_, Err(e)) => Err(e),
            (s1, Ok(rs)) => {
                let size = (rs % 16) as nat;
                let run = (rs / 16) as int;
                if size == 0 {
                    // 0xF0 is a run of sixteen zeroes; anything else ends the block.
                    if run == 15 {
                        ac_of(data, s1, t, quant, k + 16, block)
                    } else {
                        Ok((s1, block))
                    }
                } else if k + run > 63 {
                    Ok((s1, block))
                } else {
                    let (s2, v) = bits_of(data, s1, size);
                    let c = extended(v, size) * quant[k + run];
                    ac_of(
                        data,
                        s2,
                        t,
                        quant,
                        k + run + 1,
                        block.update(ZIGZAG@[k + run] as int, c as i32),
                    )
                }
            },
        }
    }
}

/// A block of nothing.
pub open spec fn no_block() -> Seq<i32> {
    Seq::new(64, |i: int| 0i32)
}

/// One 8×8 block: where the reader stands after it, the new DC predictor, and
/// the coefficients.
pub open spec fn block_of(
    data: Seq<u8>,
    s: Bits,
    dc: Codes,
    ac: Codes,
    quant: Seq<u16>,
    pred: i32,
) -> Result<(Bits, i32, Seq<i32>), Seq<char>> {
    match huffman_of(data, s, dc) {
        (_, Err(e)) => Err(e),
        (s1, Ok(t)) => if t > 15 {
            Err("a DC coefficient claims "@ + text::decimal(t as nat) + " bits"@)
        } else {
            let (s2, v) = bits_of(data, s1, t as nat);
            let next = vstd::wrapping::i32_specs::wrapping_add(
                pred,
                extended(v, t as nat) as i32,
            );
            let first = vstd::wrapping::i32_specs::wrapping_mul(next, quant[0] as i32);
            match ac_of(data, s2, ac, quant, 1, no_block().update(0, first)) {
                Err(e) => Err(e),
                Ok((s3, block)) => Ok((s3, next, block)),
            }
        },
    }
}

/// Decode one 8×8 block, returning the new DC predictor.
pub fn decode_block(
    reader: &mut BitReader,
    dc: &HuffTable,
    ac: &HuffTable,
    quant: &Vec<u16>,
    pred: i32,
    block: &mut [i32; 64],
) -> (r: Result<i32, Error>)
    requires
        old(reader).wf(),
        dc.wf(),
        ac.wf(),
        quant@.len() == 64,
        old(block)@ == no_block(),
    ensures
        final(reader).wf(),
        final(reader).data@ == old(reader).data@,
        match r {
            Ok(next) => block_of(old(reader).data@, old(reader)@, dc@, ac@, quant@, pred) == Ok::<
                (Bits, i32, Seq<i32>),
                Seq<char>,
            >((final(reader)@, next, final(block)@)),
            Err(e) => block_of(old(reader).data@, old(reader)@, dc@, ac@, quant@, pred) == Err::<
                (Bits, i32, Seq<i32>),
                Seq<char>,
            >(e.text@),
        },
{
    let t = match reader.huffman(dc) {
        Ok(t) => t as usize,
        Err(e) => {
            return Err(e);
        },
    };
    if t > 15 {
        let mut m = "a DC coefficient claims ".to_owned();
        m.append(&dec(t as u64));
        m.append(" bits");
        return Err(Error::new(m));
    }
    let bits = reader.receive(t);
    proof {
        lemma_p2_16(t as nat);
    }
    let diff = extend(bits, t);
    let next = pred.wrapping_add(diff);
    block[0] = next.wrapping_mul(quant[0] as i32);
    let ghost data = reader.data@;
    let ghost goal = ac_of(data, reader@, ac@, quant@, 1, block@);
    let mut k: usize = 1;
    while k < 64
        invariant_except_break
            1 <= k <= 79,
            ac_of(data, reader@, ac@, quant@, k as int, block@) == goal,
        invariant
            reader.wf(),
            reader.data@ == data,
            data == old(reader).data@,
            block_of(data, old(reader)@, dc@, ac@, quant@, pred) == (match goal {
                Err(e) => Err(e),
                Ok((s, b)) => Ok((s, next, b)),
            }),
            ac.wf(),
            quant@.len() == 64,
            block@.len() == 64,
        ensures
            goal == Ok::<(Bits, Seq<i32>), Seq<char>>((reader@, block@)),
        decreases 80 - k,
    {
        let rs = match reader.huffman(ac) {
            Ok(rs) => rs as usize,
            Err(e) => {
                return Err(e);
            },
        };
        let size: usize = rs % 16;
        let run: usize = rs / 16;
        if size == 0 {
            if run == 15 {
                k += 16;
                continue;
            }
            break;
        }
        k += run;
        if k > 63 {
            break;
        }
        let bits = reader.receive(size);
        proof {
            lemma_p2_16(size as nat);
            lemma_p2_15(size as nat);
        }
        let c = extend(bits, size);
        let q = quant[k] as i32;
        assert(-2147418112 <= c * q <= 2147418112) by (nonlinear_arith)
            requires
                -32767 <= c <= 32767,
                0 <= q <= 65535,
        ;
        block[ZIGZAG[k]] = c * q;
        k += 1;
    }
    Ok(next)
}

proof fn lemma_p2_15(k: nat)
    requires
        k <= 15,
    ensures
        double::p2(k) <= 32768,
        k > 0 ==> 1 <= double::p2((k - 1) as nat),
{
    reveal_with_fuel(double::p2, 17);
}

// ---------------------------------------------------------------------------
// Single-precision arithmetic
// ---------------------------------------------------------------------------

/// The weight of the last of the 24 bits that single precision keeps.
pub open spec fn grain(n: nat) -> nat
    decreases n,
{
    if n < 0x100_0000 {
        1
    } else {
        2 * grain(n / 2)
    }
}

/// A whole number rounded to 24 significant bits, ties to even.
pub open spec fn nearest(n: nat) -> nat {
    let g = grain(n);
    let q = n / g;
    let r = n % g;
    if 2 * r > g || (2 * r == g && q % 2 == 1) {
        (q + 1) * g
    } else {
        q * g
    }
}

/// A signed number rounded to 24 significant bits.
pub open spec fn single(x: int) -> int {
    if x < 0 {
        -(nearest((-x) as nat) as int)
    } else {
        nearest(x as nat) as int
    }
}

proof fn lemma_grain(n: nat)
    ensures
        1 <= grain(n),
        n >= 1 ==> grain(n) <= n,
    decreases n,
{
    if n >= 0x100_0000 {
        lemma_grain(n / 2);
    }
}

/// Rounding at most doubles.
proof fn lemma_nearest_bound(n: nat)
    ensures
        nearest(n) <= 2 * n,
{
    lemma_grain(n);
    let g = grain(n);
    let q = n / g;
    assert(q * g <= n && (q + 1) * g <= n + g) by (nonlinear_arith)
        requires
            q == n / g,
            g >= 1,
    ;
}

fn to_nearest(n: u128) -> (r: u128)
    requires
        n <= 0x1_0000_0000_0000_0000_0000_0000_0000,
    ensures
        r == nearest(n as nat),
        r <= 2 * n,
{
    let mut m: u128 = n;
    let mut g: u128 = 1;
    while m >= 0x100_0000
        invariant
            g * grain(m as nat) == grain(n as nat),
            g >= 1,
            n >= 1 ==> g <= n,
            n == 0 ==> m == 0,
            n <= 0x1_0000_0000_0000_0000_0000_0000_0000,
        decreases m,
    {
        assert(m >> 1 == m / 2) by (bit_vector);
        proof {
            lemma_grain((m / 2) as nat);
            lemma_grain(n as nat);
            let k = grain((m / 2) as nat) as int;
            assert(g * (2 * k) == (2 * g) * k) by (nonlinear_arith);
            assert(2 * g <= (2 * g) * k) by (nonlinear_arith)
                requires
                    g >= 1,
                    k >= 1,
            ;
        }
        m = m >> 1;
        g = 2 * g;
    }
    proof {
        lemma_nearest_bound(n as nat);
        assert(g * 1 == g) by (nonlinear_arith);
    }
    let q = n / g;
    let r = n % g;
    if 2 * r > g || (2 * r == g && q % 2 == 1) {
        (q + 1) * g
    } else {
        proof {
            assert(q * g <= n) by (nonlinear_arith)
                requires
                    q == n / g,
                    g >= 1,
            ;
        }
        q * g
    }
}

/// Round to 24 significant bits.
fn to_single(x: i128) -> (r: i128)
    requires
        -0x1_0000_0000_0000_0000_0000_0000_0000 <= x <= 0x1_0000_0000_0000_0000_0000_0000_0000,
    ensures
        r == single(x as int),
        x >= 0 ==> 0 <= r <= 2 * x,
        x <= 0 ==> 2 * x <= r <= 0,
{
    if x < 0 {
        -(to_nearest((-x) as u128) as i128)
    } else {
        to_nearest(x as u128) as i128
    }
}

/// `cos((2x + 1) u π / 16)` in single precision, scaled by the normalising
/// constant, for all `u`, `x`: in units of 2⁻²⁶.
pub const COSINES: [i32; 64] = [
    47453132, 47453132, 47453132, 47453132, 47453132, 47453132, 47453132, 47453132,
    65819384, 55798980, 37283684, 13092284, -13092290, -37283696, -55798984, -65819388,
    62000504, 25681450, -25681456, -62000512, -62000504, -25681430, 25681462, 62000508,
    55798980, -13092290, -65819388, -37283672, 37283700, 65819384, 13092273, -55798992,
    47453132, -47453132, -47453124, 47453148, 47453132, -47453164, -47453116, 47453136,
    37283684, -65819388, 13092296, 55798964, -55798992, -13092283, 65819388, -37283728,
    25681450, -62000504, 62000508, -25681482, -25681420, 62000492, -62000520, 25681482,
    13092284, -37283672, 55798964, -65819380, 65819396, -55798980, 37283748, -13092372,
];

pub open spec fn cosine(u: int, x: int) -> int {
    COSINES@[u * 8 + x] as int
}

/// The first `u` terms of the sum along a row of coefficients, in units of
/// 2⁻²⁶.
pub open spec fn row_sum(block: Seq<i32>, y: int, x: int, u: int) -> int
    decreases u,
{
    if u <= 0 {
        0
    } else {
        let sum = row_sum(block, y, x, u - 1);
        let c = block[y * 8 + u - 1];
        if c == 0 {
            sum
        } else {
            single(sum + single(single(c as int) * cosine(u - 1, x)))
        }
    }
}

/// The first `v` terms of the sum along a column of what the rows gave. Half of
/// a row's sum is a row's value, so that is in units of 2⁻²⁷, and this sum in
/// units of 2⁻⁵³.
pub open spec fn column_sum(block: Seq<i32>, x: int, y: int, v: int) -> int
    decreases v,
{
    if v <= 0 {
        0
    } else {
        single(
            column_sum(block, x, y, v - 1) + single(
                row_sum(block, v - 1, x, 8) * cosine(v - 1, y),
            ),
        )
    }
}

/// 2⁵⁴, the number of units in one when they are of 2⁻⁵⁴.
pub const UNITS: u64 = 0x40_0000_0000_0000;

/// Half of a column's sum as a sample: the coder subtracted 128 before
/// transforming, and a half makes the truncation round.
pub open spec fn levelled(sum: int) -> int {
    let level = single(sum + 257 * (UNITS / 2));
    if level < 0 {
        0
    } else if level >= 255 * UNITS {
        255
    } else {
        level / (UNITS as int)
    }
}

/// The inverse DCT, separably: rows first, then columns.
pub open spec fn transformed(block: Seq<i32>) -> Seq<u8> {
    Seq::new(64, |i: int| levelled(column_sum(block, i % 8, i / 8, 8)) as u8)
}

fn cosine_at(u: usize, x: usize) -> (r: i128)
    requires
        u < 8,
        x < 8,
    ensures
        r == cosine(u as int, x as int),
        -0x400_0000 <= r <= 0x400_0000,
{
    let r = COSINES[u * 8 + x];
    proof {
        lemma_cosine_bound(u as int, x as int);
    }
    r as i128
}

proof fn lemma_cosine_bound(u: int, x: int)
    requires
        0 <= u < 8,
        0 <= x < 8,
    ensures
        -0x400_0000 <= cosine(u, x) <= 0x400_0000,
{
}

/// One value of the first pass.
fn row_at(block: &[i32; 64], y: usize, x: usize) -> (r: i128)
    requires
        y < 8,
        x < 8,
    ensures
        r == row_sum(block@, y as int, x as int, 8),
        -0x800_0000_0000_0000_0000 <= r <= 0x800_0000_0000_0000_0000,
{
    let mut sum: i128 = 0;
    let mut u: usize = 0;
    while u < 8
        invariant
            u <= 8,
            x < 8,
            y < 8,
            sum == row_sum(block@, y as int, x as int, u as int),
            sum <= 0x1000_0000_0000_0000 * (double::p2(u as nat) - 1),
            -sum <= 0x1000_0000_0000_0000 * (double::p2(u as nat) - 1),
        decreases 8 - u,
    {
        proof {
            reveal_with_fuel(double::p2, 10);
        }
        let c = block[y * 8 + u];
        if c != 0 {
            let f = to_single(c as i128);
            let k = cosine_at(u, x);
            assert(-0x400_0000_0000_0000 <= f * k <= 0x400_0000_0000_0000) by (nonlinear_arith)
                requires
                    -0x1_0000_0000 <= f <= 0x1_0000_0000,
                    -0x400_0000 <= k <= 0x400_0000,
            ;
            let p = to_single(f * k);
            sum = to_single(sum + p);
        }
        u += 1;
    }
    proof {
        reveal_with_fuel(double::p2, 10);
    }
    sum
}

/// One value of the second pass.
fn column_at(rows: &[i128; 64], Ghost(block): Ghost<Seq<i32>>, x: usize, y: usize) -> (r: u8)
    requires
        y < 8,
        x < 8,
        forall|i: int| 0 <= i < 64 ==> #[trigger] rows@[i] == row_sum(block, i / 8, i % 8, 8),
        forall|i: int|
            0 <= i < 64 ==> -0x800_0000_0000_0000_0000 <= #[trigger] rows@[i]
                <= 0x800_0000_0000_0000_0000,
    ensures
        r == levelled(column_sum(block, x as int, y as int, 8)) as u8,
{
    let mut sum: i128 = 0;
    let mut v: usize = 0;
    while v < 8
        invariant
            v <= 8,
            x < 8,
            y < 8,
            forall|i: int| 0 <= i < 64 ==> #[trigger] rows@[i] == row_sum(block, i / 8, i % 8, 8),
            forall|i: int|
                0 <= i < 64 ==> -0x800_0000_0000_0000_0000 <= #[trigger] rows@[i]
                    <= 0x800_0000_0000_0000_0000,
            sum == column_sum(block, x as int, y as int, v as int),
            sum <= 0x80_0000_0000_0000_0000_0000_0000 * (double::p2(v as nat) - 1),
            -sum <= 0x80_0000_0000_0000_0000_0000_0000 * (double::p2(v as nat) - 1),
        decreases 8 - v,
    {
        proof {
            reveal_with_fuel(double::p2, 10);
            assert((v * 8 + x) / 8 == v && (v * 8 + x) % 8 == x);
        }
        let f = rows[v * 8 + x];
        let k = cosine_at(v, y);
        assert(-0x20_0000_0000_0000_0000_0000_0000 <= f * k
            <= 0x20_0000_0000_0000_0000_0000_0000) by (nonlinear_arith)
            requires
                -0x800_0000_0000_0000_0000 <= f <= 0x800_0000_0000_0000_0000,
                -0x400_0000 <= k <= 0x400_0000,
        ;
        let p = to_single(f * k);
        sum = to_single(sum + p);
        v += 1;
    }
    proof {
        reveal_with_fuel(double::p2, 10);
    }
    let level = to_single(sum + 0x2020_0000_0000_0000);
    if level < 0 {
        0
    } else if level >= 0x3FC0_0000_0000_0000 {
        255
    } else {
        (level / 0x40_0000_0000_0000) as u8
    }
}

/// Inverse DCT, separably: rows first, then columns.
pub fn idct(block: &[i32; 64], out: &mut [u8; 64])
    ensures
        final(out)@ == transformed(block@),
{
    let mut rows: [i128; 64] = [0; 64];
    let mut i: usize = 0;
    while i < 64
        invariant
            i <= 64,
            forall|j: int|
                0 <= j < i ==> #[trigger] rows@[j] == row_sum(block@, j / 8, j % 8, 8),
            forall|j: int|
                0 <= j < i ==> -0x800_0000_0000_0000_0000 <= #[trigger] rows@[j]
                    <= 0x800_0000_0000_0000_0000,
        decreases 64 - i,
    {
        rows[i] = row_at(block, i / 8, i % 8);
        i += 1;
    }
    let mut i: usize = 0;
    while i < 64
        invariant
            i <= 64,
            forall|j: int| 0 <= j < 64 ==> #[trigger] rows@[j] == row_sum(block@, j / 8, j % 8, 8),
            forall|j: int|
                0 <= j < 64 ==> -0x800_0000_0000_0000_0000 <= #[trigger] rows@[j]
                    <= 0x800_0000_0000_0000_0000,
            forall|j: int| 0 <= j < i ==> #[trigger] out@[j] == transformed(block@)[j],
        decreases 64 - i,
    {
        out[i] = column_at(&rows, Ghost(block@), i % 8, i / 8);
        i += 1;
    }
    assert(out@ =~= transformed(block@));
}

proof fn lemma_flat_row(block: Seq<i32>, y: int, x: int, u: int)
    requires
        block.len() == 64,
        forall|i: int| 0 < i < 64 ==> block[i] == 0,
        0 <= y < 8,
        0 <= x < 8,
        0 <= u <= 8,
    ensures
        row_sum(block, y, x, u) == row_sum(block, y, 0, u),
        y > 0 ==> row_sum(block, y, x, u) == 0,
    decreases u,
{
    if u > 0 {
        lemma_flat_row(block, y, x, u - 1);
        if u == 1 {
            assert(cosine(0, x) == cosine(0, 0));
        }
    }
}

proof fn lemma_flat_column(block: Seq<i32>, x: int, y: int, v: int)
    requires
        block.len() == 64,
        forall|i: int| 0 < i < 64 ==> block[i] == 0,
        0 <= y < 8,
        0 <= x < 8,
        0 <= v <= 8,
    ensures
        column_sum(block, x, y, v) == column_sum(block, 0, 0, v),
    decreases v,
{
    if v > 0 {
        lemma_flat_column(block, x, y, v - 1);
        lemma_flat_row(block, v - 1, x, 8);
        lemma_flat_row(block, v - 1, 0, 8);
        if v == 1 {
            assert(cosine(0, y) == cosine(0, 0));
        } else {
            assert(row_sum(block, v - 1, x, 8) == 0);
            assert(row_sum(block, v - 1, 0, 8) == 0);
        }
    }
}

/// A block with only its first coefficient set transforms to a flat field.
pub proof fn lemma_flat_field(block: Seq<i32>, i: int)
    requires
        block.len() == 64,
        forall|k: int| 0 < k < 64 ==> block[k] == 0,
        0 <= i < 64,
    ensures
        transformed(block)[i] == transformed(block)[0],
{
    lemma_flat_column(block, i % 8, i / 8, 8);
}

// ---------------------------------------------------------------------------
// Colour
// ---------------------------------------------------------------------------

/// 2²⁵, the number of units in one when they are of 2⁻²⁵.
pub const FINE: i64 = 0x200_0000;

/// A level in units of 2⁻²⁵ as a sample.
pub open spec fn sample_of(level: int) -> u8 {
    if level < 0 {
        0
    } else if level >= 255 * FINE {
        255
    } else {
        (level / (FINE as int)) as u8
    }
}

/// YCbCr to RGB: with the weights 1.402, 0.344136, 0.714136 and 1.772, in
/// single precision.
pub open spec fn converted(y: u8, cb: u8, cr: u8) -> Rgb {
    let l = y * FINE;
    let b = cb - 128;
    let r = cr - 128;
    (
        sample_of(single(l + single(47043312 * r))),
        sample_of(single(single(l - single(11547288 * b)) - single(23962428 * r))),
        sample_of(single(l + single(59458452 * b))),
    )
}

fn to_sample(level: i128) -> (r: u8)
    ensures
        r == sample_of(level as int),
{
    if level < 0 {
        0
    } else if level >= 0x1_FE00_0000 {
        255
    } else {
        (level / 0x200_0000) as u8
    }
}

pub fn ycbcr_to_rgb(y: u8, cb: u8, cr: u8) -> (r: Rgb)
    ensures
        r == converted(y, cb, cr),
{
    let l = y as i128 * 0x200_0000;
    let b = cb as i128 - 128;
    let r = cr as i128 - 128;
    (
        to_sample(to_single(l + to_single(47043312 * r))),
        to_sample(to_single(to_single(l - to_single(11547288 * b)) - to_single(23962428 * r))),
        to_sample(to_single(l + to_single(59458452 * b))),
    )
}

// ---------------------------------------------------------------------------
// Headers
// ---------------------------------------------------------------------------

/// One colour channel, as the headers describe it.
#[derive(Debug, Clone, Copy, PartialEq, Eq, Structural)]
pub struct Component {
    pub id: u8,
    /// Horizontal and vertical sampling factors.
    pub h: usize,
    pub v: usize,
    /// Quantisation table index.
    pub tq: usize,
    /// Huffman table indices, set when the scan header is read.
    pub td: usize,
    pub ta: usize,
}

impl Component {
    pub open spec fn wf(self) -> bool {
        &&& 1 <= self.h <= 4
        &&& 1 <= self.v <= 4
        &&& self.tq < 4
        &&& self.td < 4
        &&& self.ta < 4
    }
}

/// What the headers have said so far.
pub struct Header {
    pub width: int,
    pub height: int,
    pub components: Seq<Component>,
    pub quant: Seq<Seq<u16>>,
    pub dc: Seq<Codes>,
    pub ac: Seq<Codes>,
    pub restart: int,
    pub adobe: Option<u8>,
}

/// Before any header.
pub open spec fn no_header() -> Header {
    Header {
        width: 0,
        height: 0,
        components: seq![],
        quant: Seq::new(4, |i: int| Seq::new(64, |k: int| 0u16)),
        dc: Seq::new(4, |i: int| undefined_codes()),
        ac: Seq::new(4, |i: int| undefined_codes()),
        restart: 0,
        adobe: None,
    }
}

/// Two bytes, the more significant first.
pub open spec fn be16(data: Seq<u8>, i: int) -> int {
    data[i] * 256 + data[i + 1]
}

pub const ENDS_EARLY: &'static str = "the image ends in the middle of a segment";

pub const RUNS_PAST: &'static str = "a segment runs past the end of the image";

/// Where the body of a segment begins and ends, given where the length field
/// that precedes it stands.
pub open spec fn segment_at(data: Seq<u8>, pos: int) -> Result<(int, int), Seq<char>> {
    if pos + 2 > data.len() {
        Err(ENDS_EARLY@)
    } else {
        let length = be16(data, pos);
        if length < 2 {
            Err("a segment claims an impossible length of "@ + text::decimal(length as nat))
        } else if pos + length > data.len() {
            Err(RUNS_PAST@)
        } else {
            Ok((pos + 2, pos + length))
        }
    }
}

fn segment(data: &[u8], pos: usize) -> (r: Result<(usize, usize), Error>)
    requires
        pos <= data@.len(),
    ensures
        match r {
            Ok((a, b)) => segment_at(data@, pos as int) == Ok::<(int, int), Seq<char>>(
                (a as int, b as int),
            ) && pos < a <= b <= data@.len(),
            Err(e) => segment_at(data@, pos as int) == Err::<(int, int), Seq<char>>(e.text@),
        },
{
    let n: usize = data.len();
    if n - pos < 2 {
        return Err(Error::new(ENDS_EARLY.to_owned()));
    }
    let length: usize = data[pos] as usize * 256 + data[pos + 1] as usize;
    if length < 2 {
        let mut m = "a segment claims an impossible length of ".to_owned();
        m.append(&dec(length as u64));
        return Err(Error::new(m));
    }
    if length > n - pos {
        return Err(Error::new(RUNS_PAST.to_owned()));
    }
    Ok((pos + 2, pos + length))
}

/// The first byte from a position on that is not 0xFF padding, and the position
/// after it.
pub open spec fn after_padding(data: Seq<u8>, pos: int) -> Result<(u8, int), Seq<char>>
    decreases data.len() - pos,
{
    if pos >= data.len() {
        Err(ENDS_EARLY@)
    } else if data[pos] == 0xFF {
        after_padding(data, pos + 1)
    } else {
        Ok((data[pos], pos + 1))
    }
}

/// Markers are 0xFF followed by a type; padding 0xFF bytes are legal between
/// segments.
pub open spec fn marker_at(data: Seq<u8>, pos: int) -> Result<(u8, int), Seq<char>> {
    if pos >= data.len() {
        Err(ENDS_EARLY@)
    } else if data[pos] != 0xFF {
        Err(
            ("expected a marker, found 0x"@).push(
                text::hex_char((data[pos] / 16) as int),
            ).push(text::hex_char((data[pos] % 16) as int)),
        )
    } else {
        after_padding(data, pos + 1)
    }
}

fn marker(data: &[u8], pos: usize) -> (r: Result<(u8, usize), Error>)
    requires
        pos <= data@.len(),
    ensures
        match r {
            Ok((m, p)) => marker_at(data@, pos as int) == Ok::<(u8, int), Seq<char>>((m, p as int))
                && pos < p <= data@.len(),
            Err(e) => marker_at(data@, pos as int) == Err::<(u8, int), Seq<char>>(e.text@),
        },
{
    let n: usize = data.len();
    if pos >= n {
        return Err(Error::new(ENDS_EARLY.to_owned()));
    }
    let byte = data[pos];
    if byte != 0xFF {
        let mut m = "expected a marker, found 0x".to_owned();
        m.push(hex_digit((byte / 16) as u32));
        m.push(hex_digit((byte % 16) as u32));
        return Err(Error::new(m));
    }
    let mut i: usize = pos + 1;
    while i < n
        invariant
            pos < i <= n,
            n == data@.len(),
            after_padding(data@, i as int) == after_padding(data@, pos + 1),
            marker_at(data@, pos as int) == after_padding(data@, pos + 1),
        decreases n - i,
    {
        if data[i] != 0xFF {
            return Ok((data[i], i + 1));
        }
        i += 1;
    }
    Err(Error::new(ENDS_EARLY.to_owned()))
}

/// A marker ends after it began, and within the data.
pub proof fn lemma_after_padding(data: Seq<u8>, pos: int)
    ensures
        match after_padding(data, pos) {
            Ok((_, p)) => pos < p <= data.len(),
            Err(_) => true,
        },
    decreases data.len() - pos,
{
    if pos < data.len() && data[pos] == 0xFF {
        lemma_after_padding(data, pos + 1);
    }
}

// -- Quantisation tables

pub const QUANT_TRUNCATED: &'static str = "a quantisation table is truncated";

/// One quantisation table of one or two bytes an entry.
pub open spec fn quant_table(body: Seq<u8>, i: int, precision: int) -> Seq<u16> {
    Seq::new(
        64,
        |k: int|
            if precision == 0 {
                body[i + k] as u16
            } else {
                be16(body, i + 2 * k) as u16
            },
    )
}

/// The quantisation tables once those from position `i` of a segment on are
/// read.
pub open spec fn quants_of(body: Seq<u8>, i: int, quant: Seq<Seq<u16>>) -> Result<
    Seq<Seq<u16>>,
    Seq<char>,
>
    decreases body.len() - i,
{
    if i >= body.len() {
        Ok(quant)
    } else {
        let precision = (body[i] / 16) as int;
        let id = (body[i] % 16) as int;
        let size = 64 * (precision + 1);
        if id >= 4 {
            Err("quantisation table id "@ + text::decimal(id as nat) + " is out of range"@)
        } else if precision > 1 {
            Err("unknown quantisation precision "@ + text::decimal(precision as nat))
        } else if i + 1 + size > body.len() {
            Err(QUANT_TRUNCATED@)
        } else {
            quants_of(body, i + 1 + size, quant.update(id, quant_table(body, i + 1, precision)))
        }
    }
}

pub open spec fn quant_views(v: Seq<Vec<u16>>) -> Seq<Seq<u16>> {
    v.map_values(|t: Vec<u16>| t@)
}

fn read_quant_table(body: &[u8], i: usize, precision: usize) -> (r: Vec<u16>)
    requires
        precision <= 1,
        i + 64 * (precision + 1) <= body@.len(),
    ensures
        r@ == quant_table(body@, i as int, precision as int),
{
    let n: usize = body.len();
    let mut table: Vec<u16> = Vec::new();
    let mut k: usize = 0;
    while k < 64
        invariant
            k <= 64,
            n == body@.len(),
            precision <= 1,
            i + 64 * (precision + 1) <= n,
            table@ == quant_table(body@, i as int, precision as int).take(k as int),
        decreases 64 - k,
    {
        let ghost all = quant_table(body@, i as int, precision as int);
        if precision == 0 {
            table.push(body[i + k] as u16);
        } else {
            table.push(body[i + 2 * k] as u16 * 256 + body[i + 2 * k + 1] as u16);
        }
        assert(all.take(k as int).push(all[k as int]) =~= all.take(k + 1));
        k += 1;
    }
    assert(table@ =~= quant_table(body@, i as int, precision as int));
    table
}

fn read_quant_tables(body: &[u8], quant: Vec<Vec<u16>>) -> (r: Result<Vec<Vec<u16>>, Error>)
    requires
        quant@.len() == 4,
        forall|i: int| 0 <= i < 4 ==> (#[trigger] quant@[i])@.len() == 64,
    ensures
        match r {
            Ok(q) => quants_of(body@, 0, quant_views(quant@)) == Ok::<Seq<Seq<u16>>, Seq<char>>(
                quant_views(q@),
            ) && q@.len() == 4 && forall|i: int|
                0 <= i < 4 ==> (#[trigger] q@[i])@.len() == 64,
            Err(e) => quants_of(body@, 0, quant_views(quant@)) == Err::<
                Seq<Seq<u16>>,
                Seq<char>,
            >(e.text@),
        },
{
    let n: usize = body.len();
    let mut tables = quant;
    let mut i: usize = 0;
    while i < n
        invariant
            i <= n,
            n == body@.len(),
            tables@.len() == 4,
            forall|k: int| 0 <= k < 4 ==> (#[trigger] tables@[k])@.len() == 64,
            quants_of(body@, i as int, quant_views(tables@)) == quants_of(
                body@,
                0,
                quant_views(quant@),
            ),
        decreases n - i,
    {
        let precision: usize = (body[i] / 16) as usize;
        let id: usize = (body[i] % 16) as usize;
        if id >= 4 {
            let mut m = "quantisation table id ".to_owned();
            m.append(&dec(id as u64));
            m.append(" is out of range");
            return Err(Error::new(m));
        }
        if precision > 1 {
            let mut m = "unknown quantisation precision ".to_owned();
            m.append(&dec(precision as u64));
            return Err(Error::new(m));
        }
        let size: usize = 64 * (precision + 1);
        if n - i - 1 < size {
            return Err(Error::new(QUANT_TRUNCATED.to_owned()));
        }
        let table = read_quant_table(body, i + 1, precision);
        let ghost before = tables@;
        let ghost t = table@;
        tables.set(id, table);
        assert(quant_views(tables@) =~= quant_views(before).update(id as int, t));
        i = i + 1 + size;
    }
    Ok(tables)
}

// -- Huffman tables

pub const HUFFMAN_TRUNCATED: &'static str = "a Huffman table is truncated";

pub open spec fn total_of(counts: Seq<u8>) -> nat
    decreases counts.len(),
{
    if counts.len() == 0 {
        0
    } else {
        total_of(counts.drop_last()) + counts.last() as nat
    }
}

/// The Huffman tables once those from position `i` of a segment on are read.
pub open spec fn tables_of(body: Seq<u8>, i: int, dc: Seq<Codes>, ac: Seq<Codes>) -> Result<
    (Seq<Codes>, Seq<Codes>),
    Seq<char>,
>
    decreases body.len() - i,
{
    if i >= body.len() {
        Ok((dc, ac))
    } else {
        let class = (body[i] / 16) as int;
        let id = (body[i] % 16) as int;
        let counts = body.subrange(i + 1, i + 17);
        let end = i + 17 + total_of(counts);
        if id >= 4 || class > 1 {
            Err(
                "Huffman table "@ + text::decimal(class as nat) + "/"@ + text::decimal(id as nat)
                    + " is out of range"@,
            )
        } else if i + 17 > body.len() || end > body.len() {
            Err(HUFFMAN_TRUNCATED@)
        } else {
            let table = Codes { counts, values: body.subrange(i + 17, end) };
            if class == 0 {
                tables_of(body, end, dc.update(id, table), ac)
            } else {
                tables_of(body, end, dc, ac.update(id, table))
            }
        }
    }
}

pub open spec fn table_views(v: Seq<HuffTable>) -> Seq<Codes> {
    v.map_values(|t: HuffTable| t@)
}

fn total(counts: &Vec<u8>) -> (r: usize)
    requires
        counts@.len() == 16,
    ensures
        r == total_of(counts@),
{
    let mut sum: usize = 0;
    let mut i: usize = 0;
    while i < 16
        invariant
            i <= 16,
            counts@.len() == 16,
            sum == total_of(counts@.take(i as int)),
            sum <= 255 * i,
        decreases 16 - i,
    {
        assert(counts@.take(i + 1).drop_last() =~= counts@.take(i as int));
        sum = sum + counts[i] as usize;
        i += 1;
    }
    assert(counts@.take(16) =~= counts@);
    sum
}

pub open spec fn tables_wf(v: Seq<HuffTable>) -> bool {
    v.len() == 4 && forall|i: int| 0 <= i < 4 ==> (#[trigger] v[i]).wf()
}

fn read_huffman_tables(body: &[u8], dc: Vec<HuffTable>, ac: Vec<HuffTable>) -> (r: Result<
    (Vec<HuffTable>, Vec<HuffTable>),
    Error,
>)
    requires
        tables_wf(dc@),
        tables_wf(ac@),
    ensures
        match r {
            Ok((d, a)) => tables_of(body@, 0, table_views(dc@), table_views(ac@)) == Ok::<
                (Seq<Codes>, Seq<Codes>),
                Seq<char>,
            >((table_views(d@), table_views(a@))) && tables_wf(d@) && tables_wf(a@),
            Err(e) => tables_of(body@, 0, table_views(dc@), table_views(ac@)) == Err::<
                (Seq<Codes>, Seq<Codes>),
                Seq<char>,
            >(e.text@),
        },
{
    let n: usize = body.len();
    let mut d = dc;
    let mut a = ac;
    let mut i: usize = 0;
    while i < n
        invariant
            i <= n,
            n == body@.len(),
            tables_wf(d@),
            tables_wf(a@),
            tables_of(body@, i as int, table_views(d@), table_views(a@)) == tables_of(
                body@,
                0,
                table_views(dc@),
                table_views(ac@),
            ),
        decreases n - i,
    {
        let class: usize = (body[i] / 16) as usize;
        let id: usize = (body[i] % 16) as usize;
        if id >= 4 || class > 1 {
            let mut m = "Huffman table ".to_owned();
            m.append(&dec(class as u64));
            m.append("/");
            m.append(&dec(id as u64));
            m.append(" is out of range");
            return Err(Error::new(m));
        }
        if n - i < 17 {
            return Err(Error::new(HUFFMAN_TRUNCATED.to_owned()));
        }
        let counts = copied(body, i + 1, i + 17);
        let many: usize = total(&counts);
        if n - i - 17 < many {
            return Err(Error::new(HUFFMAN_TRUNCATED.to_owned()));
        }
        let end: usize = i + 17 + many;
        let values = copied(body, i + 17, end);
        let table = HuffTable::build(counts, values);
        let ghost t = table@;
        if class == 0 {
            let ghost before = d@;
            d.set(id, table);
            assert(table_views(d@) =~= table_views(before).update(id as int, t));
        } else {
            let ghost before = a@;
            a.set(id, table);
            assert(table_views(a@) =~= table_views(before).update(id as int, t));
        }
        i = end;
    }
    Ok((d, a))
}

// -- The frame header

pub open spec fn size_text(width: int, height: int) -> Seq<char> {
    text::decimal(width as nat) + "×"@ + text::decimal(height as nat)
}

/// The channels of a frame header from number `c` on, after those before.
pub open spec fn channels_of(body: Seq<u8>, c: int, count: int, before: Seq<Component>) -> Result<
    Seq<Component>,
    Seq<char>,
>
    decreases count - c,
{
    if c >= count {
        Ok(before)
    } else {
        let base = 6 + c * 3;
        let h = (body[base + 1] / 16) as usize;
        let v = (body[base + 1] % 16) as usize;
        let tq = body[base + 2] as usize;
        // Sampling factors above 4 are outside the standard, and a zero would
        // leave a channel without samples.
        if !(1 <= h <= 4) || !(1 <= v <= 4) {
            Err(
                "channel "@ + text::decimal(c as nat) + " claims sampling factors "@ + size_text(
                    h as int,
                    v as int,
                ),
            )
        } else if tq >= 4 {
            Err(
                "channel "@ + text::decimal(c as nat) + " refers to quantisation table "@
                    + text::decimal(tq as nat),
            )
        } else {
            channels_of(
                body,
                c + 1,
                count,
                before.push(Component { id: body[base], h, v, tq, td: 0, ta: 0 }),
            )
        }
    }
}

/// The width, the height and the channels that a frame header gives.
pub open spec fn frame_of(body: Seq<u8>) -> Result<(int, int, Seq<Component>), Seq<char>> {
    if body.len() < 6 {
        Err("the frame header is too short to read"@)
    } else {
        let precision = body[0];
        let height = be16(body, 1);
        let width = be16(body, 3);
        let count = body[5] as int;
        if precision != 8 {
            Err(
                "only 8-bit JPEG is supported, this one is "@ + text::decimal(precision as nat)
                    + "-bit"@,
            )
        } else if width == 0 || height == 0 {
            Err("the image claims to be "@ + size_text(width, height))
        } else if width > MAX_DIMENSION || height > MAX_DIMENSION {
            Err("the image is "@ + size_text(width, height) + ", larger than we will decode"@)
        } else if width * height > MAX_PIXELS {
            Err("the image has more pixels than we will decode"@)
        } else if count != 1 && count != 3 {
            Err(text::decimal(count as nat) + "-channel JPEG is not supported"@)
        } else if body.len() < 6 + count * 3 {
            Err("the frame header is missing channel descriptions"@)
        } else {
            match channels_of(body, 0, count, seq![]) {
                Err(e) => Err(e),
                Ok(components) => Ok((width, height, components)),
            }
        }
    }
}

fn size(width: usize, height: usize) -> (r: String)
    ensures
        r@ == size_text(width as int, height as int),
{
    let mut m = dec(width as u64);
    m.append("×");
    m.append(&dec(height as u64));
    m
}

pub open spec fn components_wf(c: Seq<Component>) -> bool {
    forall|i: int| 0 <= i < c.len() ==> (#[trigger] c[i]).wf()
}

fn read_channels(body: &[u8], count: usize) -> (r: Result<Vec<Component>, Error>)
    requires
        count <= 3,
        6 + count * 3 <= body@.len(),
    ensures
        match r {
            Ok(c) => channels_of(body@, 0, count as int, seq![]) == Ok::<
                Seq<Component>,
                Seq<char>,
            >(c@) && c@.len() == count && components_wf(c@),
            Err(e) => channels_of(body@, 0, count as int, seq![]) == Err::<
                Seq<Component>,
                Seq<char>,
            >(e.text@),
        },
{
    let mut components: Vec<Component> = Vec::new();
    let mut c: usize = 0;
    while c < count
        invariant
            c <= count <= 3,
            6 + count * 3 <= body@.len(),
            components@.len() == c,
            components_wf(components@),
            channels_of(body@, c as int, count as int, components@) == channels_of(
                body@,
                0,
                count as int,
                seq![],
            ),
        decreases count - c,
    {
        let base: usize = 6 + c * 3;
        let h: usize = (body[base + 1] / 16) as usize;
        let v: usize = (body[base + 1] % 16) as usize;
        let tq: usize = body[base + 2] as usize;
        if h < 1 || h > 4 || v < 1 || v > 4 {
            let mut m = "channel ".to_owned();
            m.append(&dec(c as u64));
            m.append(" claims sampling factors ");
            m.append(&size(h, v));
            return Err(Error::new(m));
        }
        if tq >= 4 {
            let mut m = "channel ".to_owned();
            m.append(&dec(c as u64));
            m.append(" refers to quantisation table ");
            m.append(&dec(tq as u64));
            return Err(Error::new(m));
        }
        components.push(Component { id: body[base], h, v, tq, td: 0, ta: 0 });
        c += 1;
    }
    Ok(components)
}

fn read_frame_header(body: &[u8]) -> (r: Result<(usize, usize, Vec<Component>), Error>)
    ensures
        match r {
            Ok((w, h, c)) => frame_of(body@) == Ok::<(int, int, Seq<Component>), Seq<char>>(
                (w as int, h as int, c@),
            ) && 1 <= w <= MAX_DIMENSION && 1 <= h <= MAX_DIMENSION && w * h <= MAX_PIXELS && (
            c@.len() == 1 || c@.len() == 3) && components_wf(c@),
            Err(e) => frame_of(body@) == Err::<(int, int, Seq<Component>), Seq<char>>(e.text@),
        },
{
    if body.len() < 6 {
        return Err(Error::new("the frame header is too short to read".to_owned()));
    }
    let precision = body[0];
    if precision != 8 {
        let mut m = "only 8-bit JPEG is supported, this one is ".to_owned();
        m.append(&dec(precision as u64));
        m.append("-bit");
        return Err(Error::new(m));
    }
    let height: usize = body[1] as usize * 256 + body[2] as usize;
    let width: usize = body[3] as usize * 256 + body[4] as usize;
    let count: usize = body[5] as usize;
    if width == 0 || height == 0 {
        let mut m = "the image claims to be ".to_owned();
        m.append(&size(width, height));
        return Err(Error::new(m));
    }
    if width > MAX_DIMENSION || height > MAX_DIMENSION {
        let mut m = "the image is ".to_owned();
        m.append(&size(width, height));
        m.append(", larger than we will decode");
        return Err(Error::new(m));
    }
    assert(width * height <= 4096 * 4096) by (nonlinear_arith)
        requires
            0 <= width <= 4096,
            0 <= height <= 4096,
    ;
    if width * height > MAX_PIXELS {
        return Err(Error::new("the image has more pixels than we will decode".to_owned()));
    }
    if count != 1 && count != 3 {
        let mut m = dec(count as u64);
        m.append("-channel JPEG is not supported");
        return Err(Error::new(m));
    }
    if body.len() < 6 + count * 3 {
        return Err(Error::new("the frame header is missing channel descriptions".to_owned()));
    }
    match read_channels(body, count) {
        Err(e) => Err(e),
        Ok(c) => Ok((width, height, c)),
    }
}

// -- The scan header

/// The first channel from number `i` on with an id.
pub open spec fn channel_at(c: Seq<Component>, id: u8, i: int) -> Option<int>
    decreases c.len() - i,
{
    if i >= c.len() {
        None
    } else if c[i].id == id {
        Some(i)
    } else {
        channel_at(c, id, i + 1)
    }
}

pub const UNDECLARED: &'static str = "the scan names a channel the frame never declared";

/// The channels once the scan header has given those it names from number `s`
/// on their Huffman tables.
pub open spec fn assigned(body: Seq<u8>, s: int, count: int, c: Seq<Component>) -> Result<
    Seq<Component>,
    Seq<char>,
>
    decreases count - s,
{
    if s >= count {
        Ok(c)
    } else {
        let td = (body[2 + s * 2] / 16) as usize;
        let ta = (body[2 + s * 2] % 16) as usize;
        if td >= 4 || ta >= 4 {
            Err(
                "the scan refers to Huffman tables "@ + text::decimal(td as nat) + "/"@
                    + text::decimal(ta as nat),
            )
        } else {
            match channel_at(c, body[1 + s * 2], 0) {
                None => Err(UNDECLARED@),
                Some(p) => assigned(
                    body,
                    s + 1,
                    count,
                    c.update(p, Component { td, ta, ..c[p] }),
                ),
            }
        }
    }
}

/// The channels after a scan header.
pub open spec fn scan_header_of(body: Seq<u8>, c: Seq<Component>) -> Result<
    Seq<Component>,
    Seq<char>,
> {
    if body.len() == 0 {
        Err("the scan header is empty"@)
    } else if body[0] != c.len() {
        Err(
            "the scan covers "@ + text::decimal(body[0] as nat) + " of "@ + text::decimal(c.len())
                + " channels"@,
        )
    } else if body.len() < 1 + body[0] * 2 {
        Err("the scan header is truncated"@)
    } else {
        assigned(body, 0, body[0] as int, c)
    }
}

fn find_channel(c: &Vec<Component>, id: u8) -> (r: Option<usize>)
    ensures
        match r {
            Some(p) => channel_at(c@, id, 0) == Some(p as int) && p < c@.len(),
            None => channel_at(c@, id, 0) == None::<int>,
        },
{
    let mut i: usize = 0;
    while i < c.len()
        invariant
            i <= c@.len(),
            channel_at(c@, id, i as int) == channel_at(c@, id, 0),
        decreases c@.len() - i,
    {
        if c[i].id == id {
            return Some(i);
        }
        i += 1;
    }
    None
}

fn read_scan_header(body: &[u8], c: Vec<Component>) -> (r: Result<Vec<Component>, Error>)
    requires
        components_wf(c@),
        c@.len() <= 3,
    ensures
        match r {
            Ok(d) => scan_header_of(body@, c@) == Ok::<Seq<Component>, Seq<char>>(d@) && d@.len()
                == c@.len() && components_wf(d@),
            Err(e) => scan_header_of(body@, c@) == Err::<Seq<Component>, Seq<char>>(e.text@),
        },
{
    if body.len() == 0 {
        return Err(Error::new("the scan header is empty".to_owned()));
    }
    let count: usize = body[0] as usize;
    if count != c.len() {
        let mut m = "the scan covers ".to_owned();
        m.append(&dec(count as u64));
        m.append(" of ");
        m.append(&dec(c.len() as u64));
        m.append(" channels");
        return Err(Error::new(m));
    }
    if body.len() < 1 + count * 2 {
        return Err(Error::new("the scan header is truncated".to_owned()));
    }
    let mut d = c;
    let mut s: usize = 0;
    while s < count
        invariant
            s <= count <= 3,
            1 + count * 2 <= body@.len(),
            d@.len() == c@.len(),
            components_wf(d@),
            scan_header_of(body@, c@) == assigned(body@, 0, count as int, c@),
            assigned(body@, s as int, count as int, d@) == assigned(body@, 0, count as int, c@),
        decreases count - s,
    {
        let td: usize = (body[2 + s * 2] / 16) as usize;
        let ta: usize = (body[2 + s * 2] % 16) as usize;
        if td >= 4 || ta >= 4 {
            let mut m = "the scan refers to Huffman tables ".to_owned();
            m.append(&dec(td as u64));
            m.append("/");
            m.append(&dec(ta as u64));
            return Err(Error::new(m));
        }
        match find_channel(&d, body[1 + s * 2]) {
            None => {
                return Err(Error::new(UNDECLARED.to_owned()));
            },
            Some(p) => {
                let k = d[p];
                d.set(p, Component { id: k.id, h: k.h, v: k.v, tq: k.tq, td, ta });
            },
        }
        s += 1;
    }
    Ok(d)
}

// ---------------------------------------------------------------------------
// The scan
// ---------------------------------------------------------------------------

/// How far a scan has got: the reader, the running DC predictor of each
/// channel, and the samples of each channel, 64 to a block, in the order in
/// which the blocks are stored.
pub struct Scan {
    pub bits: Bits,
    pub preds: Seq<i32>,
    pub tiles: Seq<Seq<u8>>,
}

/// Before the first block.
pub open spec fn no_scan(count: nat) -> Scan {
    Scan {
        bits: fresh(),
        preds: Seq::new(count, |i: int| 0i32),
        tiles: Seq::new(count, |i: int| Seq::<u8>::empty()),
    }
}

/// The next `left` blocks of channel `c`.
pub open spec fn blocks_of(data: Seq<u8>, head: Header, scan: Scan, c: int, left: nat) -> Result<
    Scan,
    Seq<char>,
>
    decreases left,
{
    if left == 0 {
        Ok(scan)
    } else {
        let k = head.components[c];
        match block_of(
            data,
            scan.bits,
            head.dc[k.td as int],
            head.ac[k.ta as int],
            head.quant[k.tq as int],
            scan.preds[c],
        ) {
            Err(e) => Err(e),
            Ok((bits, pred, block)) => blocks_of(
                data,
                head,
                Scan {
                    bits,
                    preds: scan.preds.update(c, pred),
                    tiles: scan.tiles.update(c, scan.tiles[c] + transformed(block)),
                },
                c,
                (left - 1) as nat,
            ),
        }
    }
}

/// The rest of an interleaved unit, from channel `c` on.
pub open spec fn unit_of(data: Seq<u8>, head: Header, scan: Scan, c: int) -> Result<
    Scan,
    Seq<char>,
>
    decreases head.components.len() - c,
{
    if c >= head.components.len() {
        Ok(scan)
    } else {
        let k = head.components[c];
        match blocks_of(data, head, scan, c, (k.h * k.v) as nat) {
            Err(e) => Err(e),
            Ok(next) => unit_of(data, head, next, c + 1),
        }
    }
}

/// The next `left` units, when `since` have been read since the last restart.
pub open spec fn units_of(data: Seq<u8>, head: Header, scan: Scan, since: int, left: nat) -> Result<
    Scan,
    Seq<char>,
>
    decreases left,
{
    if left == 0 {
        Ok(scan)
    } else {
        let due = head.restart > 0 && since == head.restart;
        let start = if due {
            Scan {
                bits: restarted(data, scan.bits),
                preds: Seq::new(head.components.len(), |i: int| 0i32),
                ..scan
            }
        } else {
            scan
        };
        match unit_of(data, head, start, 0) {
            Err(e) => Err(e),
            Ok(next) => units_of(
                data,
                head,
                next,
                if due {
                    1
                } else {
                    since + 1
                },
                (left - 1) as nat,
            ),
        }
    }
}

/// The samples of a picture, channel by channel, and what it takes to make
/// colours of them.
pub struct Raster {
    pub width: int,
    pub height: int,
    pub components: Seq<Component>,
    /// The largest sampling factors.
    pub hmax: int,
    pub vmax: int,
    /// How many units there are across.
    pub across: int,
    /// Three channels are YCbCr unless Adobe says otherwise.
    pub ycbcr: bool,
    pub tiles: Seq<Seq<u8>>,
}

pub open spec fn largest_h(c: Seq<Component>) -> int
    decreases c.len(),
{
    if c.len() == 0 {
        1
    } else if c.last().h > largest_h(c.drop_last()) {
        c.last().h as int
    } else {
        largest_h(c.drop_last())
    }
}

pub open spec fn largest_v(c: Seq<Component>) -> int
    decreases c.len(),
{
    if c.len() == 0 {
        1
    } else if c.last().v > largest_v(c.drop_last()) {
        c.last().v as int
    } else {
        largest_v(c.drop_last())
    }
}

/// How many runs of `size` it takes to cover a length.
pub open spec fn covering(length: int, size: int) -> int {
    (length + size - 1) / size
}

/// The picture that the entropy-coded data holds under a header.
pub open spec fn raster_of(data: Seq<u8>, head: Header) -> Result<Raster, Seq<char>> {
    let hmax = largest_h(head.components);
    let vmax = largest_v(head.components);
    let across = covering(head.width, 8 * hmax);
    let down = covering(head.height, 8 * vmax);
    match units_of(data, head, no_scan(head.components.len()), 0, (across * down) as nat) {
        Err(e) => Err(e),
        Ok(scan) => Ok(
            Raster {
                width: head.width,
                height: head.height,
                components: head.components,
                hmax,
                vmax,
                across,
                ycbcr: head.components.len() == 3 && head.adobe != Some(0u8),
                tiles: scan.tiles,
            },
        ),
    }
}

/// Where in a channel's samples a position at that channel's own resolution
/// stands.
pub open spec fn tile_offset(k: Component, across: int, sx: int, sy: int) -> int {
    let unit = sy / 8 / k.v as int * across + sx / 8 / k.h as int;
    let block = unit * (k.h * k.v) + (sy / 8 % k.v as int * k.h + sx / 8 % k.h as int);
    block * 64 + (sy % 8 * 8 + sx % 8)
}

/// The sample of channel `c` under a pixel.
pub open spec fn sample_under(r: Raster, c: int, x: int, y: int) -> u8 {
    let k = r.components[c];
    r.tiles[c][tile_offset(k, r.across, x * k.h / r.hmax, y * k.v / r.vmax)]
}

/// The colour of a pixel.
pub open spec fn colour(r: Raster, x: int, y: int) -> Rgb {
    let a = sample_under(r, 0, x, y);
    if r.components.len() == 1 {
        (a, a, a)
    } else {
        let b = sample_under(r, 1, x, y);
        let c = sample_under(r, 2, x, y);
        if r.ycbcr {
            converted(a, b, c)
        } else {
            (a, b, c)
        }
    }
}

/// The picture that samples make.
pub open spec fn image_of(r: Raster) -> graphics::ImageView {
    graphics::ImageView {
        width: r.width,
        height: r.height,
        pixels: graphics::pixel_bytes(r.width, r.height, |x: int, y: int| colour(r, x, y)),
    }
}

/// The picture a file decodes to.
pub open spec fn decoded(data: Seq<u8>) -> Result<graphics::ImageView, Seq<char>> {
    match picture(data) {
        Ok(r) => Ok(image_of(r)),
        Err(e) => Err(e),
    }
}

/// A decoded image is the picture that its samples make, byte for byte.
pub proof fn lemma_shown(image: Image, r: Raster)
    requires
        shows(Ok(image), Ok(r)),
    ensures
        image@ == image_of(r),
{
    assert forall|x: int, y: int|
        0 <= x < image@.width && 0 <= y < image@.height implies #[trigger] image@.at(x, y) == colour(
        r,
        x,
        y,
    ) by {
        assert(image.at(x, y) == colour(r, x, y));
    }
    graphics::lemma_pixel_bytes(image@, |x: int, y: int| colour(r, x, y));
}

/// One channel expands to grey.
pub proof fn lemma_one_channel_is_grey(r: Raster, x: int, y: int)
    requires
        r.components.len() == 1,
    ensures
        colour(r, x, y).0 == colour(r, x, y).1,
        colour(r, x, y).1 == colour(r, x, y).2,
{
}

// ---------------------------------------------------------------------------
// The whole file
// ---------------------------------------------------------------------------

/// Markers of coding modes that are not read.
pub open spec fn foreign_mode(m: u8) -> bool {
    m == 0xC3 || 0xC5 <= m <= 0xC7 || 0xC9 <= m <= 0xCB || 0xCD <= m <= 0xCF
}

/// Markers that stand alone.
pub open spec fn standalone(m: u8) -> bool {
    m == 0xD8 || 0xD0 <= m <= 0xD7 || m == 0x01
}

/// True when a segment is one of Adobe's.
pub open spec fn from_adobe(body: Seq<u8>) -> bool {
    body.len() >= 5 && body[0] == 0x41 && body[1] == 0x64 && body[2] == 0x6F && body[3] == 0x62
        && body[4] == 0x65
}

/// What a segment adds to the headers. Most hold metadata: thumbnails, colour
/// profiles, comments. Those are skipped wholesale.
pub open spec fn segment_read(m: u8, body: Seq<u8>, head: Header) -> Result<Header, Seq<char>> {
    if m == 0xC0 || m == 0xC1 {
        match frame_of(body) {
            Err(e) => Err(e),
            Ok((width, height, components)) => Ok(Header { width, height, components, ..head }),
        }
    } else if m == 0xC4 {
        match tables_of(body, 0, head.dc, head.ac) {
            Err(e) => Err(e),
            Ok((dc, ac)) => Ok(Header { dc, ac, ..head }),
        }
    } else if m == 0xDB {
        match quants_of(body, 0, head.quant) {
            Err(e) => Err(e),
            Ok(quant) => Ok(Header { quant, ..head }),
        }
    } else if m == 0xDD {
        Ok(
            Header {
                restart: if body.len() >= 2 {
                    be16(body, 0)
                } else {
                    0
                },
                ..head
            },
        )
    } else if m == 0xEE && from_adobe(body) {
        Ok(Header { adobe: Some(body.last()), ..head })
    } else {
        Ok(head)
    }
}

/// The headers after the segment of a marker, and where it ends.
pub open spec fn after_marker(data: Seq<u8>, pos: int, m: u8, head: Header) -> Result<
    (int, Header),
    Seq<char>,
> {
    if m == 0xC2 {
        Err("progressive JPEG is not supported"@)
    } else if foreign_mode(m) {
        Err("this JPEG uses a coding mode we do not read"@)
    } else if m == 0xD9 {
        Err("the image ended before any pixels were coded"@)
    } else if standalone(m) {
        Ok((pos, head))
    } else {
        match segment_at(data, pos) {
            Err(e) => Err(e),
            Ok((from, to)) => match segment_read(m, data.subrange(from, to), head) {
                Err(e) => Err(e),
                Ok(next) => Ok((to, next)),
            },
        }
    }
}

/// The picture of a scan whose marker ends at a position.
pub open spec fn scan_of(data: Seq<u8>, pos: int, head: Header) -> Result<Raster, Seq<char>> {
    if head.components.len() == 0 {
        Err("the scan arrives before the frame header"@)
    } else {
        match segment_at(data, pos) {
            Err(e) => Err(e),
            Ok((from, to)) => match scan_header_of(data.subrange(from, to), head.components) {
                Err(e) => Err(e),
                Ok(components) => raster_of(data.skip(to), Header { components, ..head }),
            },
        }
    }
}

/// The picture of a file whose headers are read up to a position.
pub open spec fn picture_from(data: Seq<u8>, pos: int, head: Header) -> Result<Raster, Seq<char>>
    decreases data.len() - pos,
{
    match marker_at(data, pos) {
        Err(e) => Err(e),
        Ok((m, p)) => if m == 0xDA {
            scan_of(data, p, head)
        } else {
            match after_marker(data, p, m, head) {
                Err(e) => Err(e),
                Ok((next, h)) => {
                    proof {
                        lemma_after_padding(data, pos + 1);
                    }
                    picture_from(data, next, h)
                },
            }
        },
    }
}

/// The picture that a file holds.
pub open spec fn picture(data: Seq<u8>) -> Result<Raster, Seq<char>> {
    if !jpeg_signature(data) {
        Err("not a JPEG"@)
    } else {
        picture_from(data, 2, no_header())
    }
}

// -- Reading a scan

/// What the headers have said so far.
struct Decoder {
    width: usize,
    height: usize,
    components: Vec<Component>,
    quant: Vec<Vec<u16>>,
    dc_tables: Vec<HuffTable>,
    ac_tables: Vec<HuffTable>,
    restart_interval: usize,
    /// Adobe's colour transform flag, when the file carries an APP14 segment.
    adobe_transform: Option<u8>,
}

impl View for Decoder {
    type V = Header;

    closed spec fn view(&self) -> Header {
        Header {
            width: self.width as int,
            height: self.height as int,
            components: self.components@,
            quant: quant_views(self.quant@),
            dc: table_views(self.dc_tables@),
            ac: table_views(self.ac_tables@),
            restart: self.restart_interval as int,
            adobe: self.adobe_transform,
        }
    }
}

/// A reader over a scan, with what it has read.
struct Scanner<'a> {
    reader: BitReader<'a>,
    preds: Vec<i32>,
    tiles: Vec<Vec<u8>>,
}

spec fn tile_views(v: Seq<Vec<u8>>) -> Seq<Seq<u8>> {
    v.map_values(|t: Vec<u8>| t@)
}

impl<'a> View for Scanner<'a> {
    type V = Scan;

    closed spec fn view(&self) -> Scan {
        Scan { bits: self.reader@, preds: self.preds@, tiles: tile_views(self.tiles@) }
    }
}

impl<'a> Scanner<'a> {
    spec fn wf(self, count: nat) -> bool {
        &&& self.reader.wf()
        &&& self.preds@.len() == count
        &&& self.tiles@.len() == count
    }
}

impl Decoder {
    /// The tables are all there, and what the frame header said is sound.
    spec fn wf(self) -> bool {
        &&& self.quant@.len() == 4
        &&& forall|i: int| 0 <= i < 4 ==> (#[trigger] self.quant@[i])@.len() == 64
        &&& tables_wf(self.dc_tables@)
        &&& tables_wf(self.ac_tables@)
        &&& components_wf(self.components@)
        &&& self.components@.len() == 0 || self.framed()
    }

    spec fn framed(self) -> bool {
        &&& self.components@.len() == 1 || self.components@.len() == 3
        &&& 1 <= self.width <= MAX_DIMENSION
        &&& 1 <= self.height <= MAX_DIMENSION
        &&& self.width * self.height <= MAX_PIXELS
    }

    fn new() -> (r: Self)
        ensures
            r.wf(),
            r@ == no_header(),
    {
        let mut quant: Vec<Vec<u16>> = Vec::new();
        let mut dc_tables: Vec<HuffTable> = Vec::new();
        let mut ac_tables: Vec<HuffTable> = Vec::new();
        let mut i: usize = 0;
        while i < 4
            invariant
                i <= 4,
                quant@.len() == i,
                dc_tables@.len() == i,
                ac_tables@.len() == i,
                forall|k: int|
                    0 <= k < i ==> (#[trigger] quant@[k])@ == Seq::new(64, |j: int| 0u16),
                forall|k: int|
                    0 <= k < i ==> (#[trigger] dc_tables@[k])@ == undefined_codes()
                        && dc_tables@[k].wf(),
                forall|k: int|
                    0 <= k < i ==> (#[trigger] ac_tables@[k])@ == undefined_codes()
                        && ac_tables@[k].wf(),
            decreases 4 - i,
        {
            let zeros: Vec<u16> = vec![0; 64];
            assert(zeros@ =~= Seq::new(64, |j: int| 0u16));
            quant.push(zeros);
            dc_tables.push(HuffTable::default());
            ac_tables.push(HuffTable::default());
            i += 1;
        }
        assert(quant_views(quant@) =~= no_header().quant);
        assert(table_views(dc_tables@) =~= no_header().dc);
        assert(table_views(ac_tables@) =~= no_header().ac);
        let r = Decoder {
            width: 0,
            height: 0,
            components: Vec::new(),
            quant,
            dc_tables,
            ac_tables,
            restart_interval: 0,
            adobe_transform: None,
        };
        assert(r@.components =~= no_header().components);
        r
    }

    /// Read the blocks of one channel of a unit.
    fn read_blocks<'a>(&self, scanner: Scanner<'a>, c: usize) -> (r: Result<Scanner<'a>, Error>)
        requires
            self.wf(),
            c < self.components@.len(),
            scanner.wf(self.components@.len()),
        ensures
            match r {
                Ok(s) => blocks_of(
                    scanner.reader.data@,
                    self@,
                    scanner@,
                    c as int,
                    (self.components@[c as int].h * self.components@[c as int].v) as nat,
                ) == Ok::<Scan, Seq<char>>(s@) && s.wf(self.components@.len())
                    && s.reader.data@ == scanner.reader.data@ && (forall|i: int|
                    0 <= i < self.components@.len() ==> (#[trigger] s.tiles@[i])@.len()
                        == scanner.tiles@[i]@.len() + (if i == c {
                        64 * (self.components@[i].h * self.components@[i].v)
                    } else {
                        0
                    })),
                Err(e) => blocks_of(
                    scanner.reader.data@,
                    self@,
                    scanner@,
                    c as int,
                    (self.components@[c as int].h * self.components@[c as int].v) as nat,
                ) == Err::<Scan, Seq<char>>(e.text@),
            },
    {
        let k = self.components[c];
        assert(k.wf());
        assert(1 <= k.h * k.v <= 16) by (nonlinear_arith)
            requires
                1 <= k.h <= 4,
                1 <= k.v <= 4,
        ;
        let many: usize = k.h * k.v;
        let mut s = scanner;
        let mut left: usize = many;
        while left > 0
            invariant
                left <= many <= 16,
                many == k.h * k.v,
                self.wf(),
                c < self.components@.len(),
                k == self.components@[c as int],
                k.wf(),
                s.wf(self.components@.len()),
                s.reader.data@ == scanner.reader.data@,
                forall|i: int|
                    0 <= i < self.components@.len() ==> (#[trigger] s.tiles@[i])@.len()
                        == scanner.tiles@[i]@.len() + (if i == c {
                        64 * (many - left)
                    } else {
                        0
                    }),
                blocks_of(scanner.reader.data@, self@, s@, c as int, left as nat) == blocks_of(
                    scanner.reader.data@,
                    self@,
                    scanner@,
                    c as int,
                    many as nat,
                ),
            decreases left,
        {
            let mut block: [i32; 64] = [0; 64];
            assert(block@ =~= no_block());
            let ghost before = s@;
            let ghost tiles = s.tiles@;
            let pred = s.preds[c];
            let Scanner { reader, preds, tiles: stored } = s;
            let mut reader = reader;
            let mut preds = preds;
            let mut stored = stored;
            let next = match decode_block(
                &mut reader,
                &self.dc_tables[k.td],
                &self.ac_tables[k.ta],
                &self.quant[k.tq],
                pred,
                &mut block,
            ) {
                Ok(next) => next,
                Err(e) => {
                    return Err(e);
                },
            };
            preds.set(c, next);
            let mut samples: [u8; 64] = [0; 64];
            idct(&block, &mut samples);
            stored[c].extend_from_slice(&samples);
            assert(stored@[c as int]@ =~= tiles[c as int]@ + transformed(block@));
            assert(tile_views(stored@) =~= before.tiles.update(
                c as int,
                before.tiles[c as int] + transformed(block@),
            ));
            s = Scanner { reader, preds, tiles: stored };
            left -= 1;
        }
        Ok(s)
    }

    /// Read one interleaved unit: the blocks of each channel in turn.
    fn read_unit<'a>(&self, scanner: Scanner<'a>) -> (r: Result<Scanner<'a>, Error>)
        requires
            self.wf(),
            scanner.wf(self.components@.len()),
        ensures
            match r {
                Ok(s) => unit_of(scanner.reader.data@, self@, scanner@, 0) == Ok::<
                    Scan,
                    Seq<char>,
                >(s@) && s.wf(self.components@.len()) && s.reader.data@ == scanner.reader.data@
                    && (forall|i: int|
                    0 <= i < self.components@.len() ==> (#[trigger] s.tiles@[i])@.len()
                        == scanner.tiles@[i]@.len() + 64 * (self.components@[i].h
                        * self.components@[i].v)),
                Err(e) => unit_of(scanner.reader.data@, self@, scanner@, 0) == Err::<
                    Scan,
                    Seq<char>,
                >(e.text@),
            },
    {
        let mut s = scanner;
        let mut c: usize = 0;
        while c < self.components.len()
            invariant
                c <= self.components@.len(),
                self.wf(),
                s.wf(self.components@.len()),
                s.reader.data@ == scanner.reader.data@,
                forall|i: int|
                    0 <= i < self.components@.len() ==> (#[trigger] s.tiles@[i])@.len()
                        == scanner.tiles@[i]@.len() + (if i < c {
                        64 * (self.components@[i].h * self.components@[i].v)
                    } else {
                        0
                    }),
                unit_of(scanner.reader.data@, self@, s@, c as int) == unit_of(
                    scanner.reader.data@,
                    self@,
                    scanner@,
                    0,
                ),
            decreases self.components@.len() - c,
        {
            s = match self.read_blocks(s, c) {
                Ok(next) => next,
                Err(e) => {
                    return Err(e);
                },
            };
            c += 1;
        }
        Ok(s)
    }

    /// Read `many` units, starting afresh at every restart.
    fn read_units<'a>(&self, data: &'a [u8], many: usize) -> (r: Result<Scanner<'a>, Error>)
        requires
            self.wf(),
        ensures
            match r {
                Ok(s) => units_of(
                    data@,
                    self@,
                    no_scan(self.components@.len()),
                    0,
                    many as nat,
                ) == Ok::<Scan, Seq<char>>(s@) && s.wf(self.components@.len()) && (forall|i: int|
                    0 <= i < self.components@.len() ==> (#[trigger] s.tiles@[i])@.len() == 64 * (
                    self.components@[i].h * self.components@[i].v) * many),
                Err(e) => units_of(
                    data@,
                    self@,
                    no_scan(self.components@.len()),
                    0,
                    many as nat,
                ) == Err::<Scan, Seq<char>>(e.text@),
            },
    {
        let count: usize = self.components.len();
        let mut preds: Vec<i32> = Vec::new();
        let mut tiles: Vec<Vec<u8>> = Vec::new();
        let mut i: usize = 0;
        while i < count
            invariant
                i <= count,
                preds@ == Seq::new(i as nat, |k: int| 0i32),
                tiles@.len() == i,
                forall|k: int| 0 <= k < i ==> (#[trigger] tiles@[k])@ == Seq::<u8>::empty(),
            decreases count - i,
        {
            preds.push(0);
            assert(preds@ =~= Seq::new((i + 1) as nat, |k: int| 0i32));
            tiles.push(Vec::new());
            i += 1;
        }
        let ghost start = no_scan(self.components@.len());
        assert(tile_views(tiles@) =~= start.tiles);
        assert(preds@ =~= start.preds);
        let mut s = Scanner { reader: BitReader::new(data), preds, tiles };
        let mut since: usize = 0;
        let mut done: usize = 0;
        proof {
            assert forall|k: int| 0 <= k < self.components@.len() implies (
            #[trigger] s.tiles@[k])@.len() == 64 * (self.components@[k].h * self.components@[k].v)
                * done by {
                assert(64 * (self.components@[k].h * self.components@[k].v) * 0 == 0)
                    by (nonlinear_arith);
            }
        }
        while done < many
            invariant
                done <= many,
                since <= done,
                count == self.components@.len(),
                self.wf(),
                s.wf(self.components@.len()),
                s.reader.data@ == data@,
                forall|k: int|
                    0 <= k < self.components@.len() ==> (#[trigger] s.tiles@[k])@.len() == 64 * (
                    self.components@[k].h * self.components@[k].v) * done,
                units_of(data@, self@, s@, since as int, (many - done) as nat) == units_of(
                    data@,
                    self@,
                    no_scan(self.components@.len()),
                    0,
                    many as nat,
                ),
            decreases many - done,
        {
            let due = self.restart_interval > 0 && since == self.restart_interval;
            let ghost before = s;
            if due {
                let Scanner { reader, preds, tiles } = s;
                let mut reader = reader;
                reader.restart();
                let mut preds: Vec<i32> = Vec::new();
                let mut i: usize = 0;
                while i < count
                    invariant
                        i <= count,
                        preds@ == Seq::new(i as nat, |k: int| 0i32),
                    decreases count - i,
                {
                    preds.push(0);
                    assert(preds@ =~= Seq::new((i + 1) as nat, |k: int| 0i32));
                    i += 1;
                }
                s = Scanner { reader, preds, tiles };
                since = 0;
            }
            let ghost middle = s;
            since += 1;
            s = match self.read_unit(s) {
                Ok(next) => next,
                Err(e) => {
                    return Err(e);
                },
            };
            proof {
                assert forall|k: int| 0 <= k < self.components@.len() implies (
                #[trigger] s.tiles@[k])@.len() == 64 * (self.components@[k].h
                    * self.components@[k].v) * (done + 1) by {
                    let hv = self.components@[k].h * self.components@[k].v;
                    assert(64 * hv * (done + 1) == 64 * hv * done + 64 * hv) by (nonlinear_arith);
                    assert(middle.tiles@[k]@.len() == 64 * hv * done);
                }
            }
            done += 1;
        }
        Ok(s)
    }

    /// The largest sampling factors.
    fn largest(&self) -> (r: (usize, usize))
        requires
            self.wf(),
        ensures
            r.0 == largest_h(self.components@),
            r.1 == largest_v(self.components@),
            1 <= r.0 <= 4,
            1 <= r.1 <= 4,
    {
        let mut h: usize = 1;
        let mut v: usize = 1;
        let mut i: usize = 0;
        let ghost all = self.components@;
        while i < self.components.len()
            invariant
                i <= self.components@.len(),
                all == self.components@,
                self.wf(),
                h == largest_h(all.take(i as int)),
                v == largest_v(all.take(i as int)),
                1 <= h <= 4,
                1 <= v <= 4,
            decreases self.components@.len() - i,
        {
            let k = self.components[i];
            assert(self.components@[i as int].wf());
            assert(all.take(i + 1).drop_last() =~= all.take(i as int));
            if k.h > h {
                h = k.h;
            }
            if k.v > v {
                v = k.v;
            }
            i += 1;
        }
        assert(all.take(all.len() as int) =~= all);
        (h, v)
    }

    /// Read the entropy-coded data, upsample the channels and convert to RGB.
    fn decode_scan(self, data: &[u8]) -> (r: Result<Image, Error>)
        requires
            self.wf(),
            self.framed(),
        ensures
            shows(r, raster_of(data@, self@)),
    {
        let (hmax, vmax) = self.largest();
        let across: usize = (self.width + 8 * hmax - 1) / (8 * hmax);
        let down: usize = (self.height + 8 * vmax - 1) / (8 * vmax);
        proof {
            lemma_covering(self.width as int, 8 * hmax as int);
            lemma_covering(self.height as int, 8 * vmax as int);
            assert(across <= 4127 && down <= 4127);
            assert(0 <= across * down <= 4127 * 4127) by (nonlinear_arith)
                requires
                    0 <= across <= 4127,
                    0 <= down <= 4127,
            ;
        }
        let scanner = match self.read_units(data, across * down) {
            Ok(s) => s,
            Err(e) => {
                return Err(e);
            },
        };
        let ycbcr = self.components.len() == 3 && match self.adobe_transform {
            Some(t) => t != 0,
            None => true,
        };
        let ghost head = self@;
        let ghost scan = scanner@;
        let samples = Samples {
            width: self.width,
            height: self.height,
            components: self.components,
            hmax,
            vmax,
            across,
            down,
            ycbcr,
            tiles: scanner.tiles,
        };
        proof {
            assert(raster_of(data@, head) == Ok::<Raster, Seq<char>>(samples@));
            assert forall|i: int| 0 <= i < samples.components@.len() implies {
                &&& (#[trigger] samples.tiles@[i])@.len() == across * down * (
                samples.components@[i].h * samples.components@[i].v) * 64
                &&& samples.components@[i].h <= hmax
                &&& samples.components@[i].v <= vmax
            } by {
                let hv = samples.components@[i].h * samples.components@[i].v;
                let many = across * down;
                assert(64 * hv * many == many * hv * 64) by (nonlinear_arith);
                lemma_largest(samples.components@, i);
            }
        }
        Ok(samples.to_rgb())
    }
}

/// How a picture answers to what a file holds.
pub open spec fn shows(r: Result<Image, Error>, p: Result<Raster, Seq<char>>) -> bool {
    match r {
        Ok(image) => match p {
            Ok(raster) => {
                &&& image.wf()
                &&& image.width == raster.width
                &&& image.height == raster.height
                &&& 1 <= image.width <= MAX_DIMENSION
                &&& 1 <= image.height <= MAX_DIMENSION
                &&& image.width * image.height <= MAX_PIXELS
                &&& forall|x: int, y: int|
                    0 <= x < image.width && 0 <= y < image.height ==> #[trigger] image.at(x, y)
                        == colour(raster, x, y)
            },
            Err(_) => false,
        },
        Err(e) => p == Err::<Raster, Seq<char>>(e.text@),
    }
}

proof fn lemma_covering(length: int, size: int)
    requires
        length >= 1,
        size >= 1,
    ensures
        covering(length, size) * size >= length,
        1 <= covering(length, size) <= length + size - 1,
{
    let n = length + size - 1;
    assert(n / size * size >= length && 1 <= n / size <= n) by (nonlinear_arith)
        requires
            n == length + size - 1,
            length >= 1,
            size >= 1,
    ;
}

proof fn lemma_largest(c: Seq<Component>, i: int)
    requires
        0 <= i < c.len(),
    ensures
        c[i].h <= largest_h(c),
        c[i].v <= largest_v(c),
    decreases c.len(),
{
    if i < c.len() - 1 {
        lemma_largest(c.drop_last(), i);
        assert(c.drop_last()[i] == c[i]);
    }
}

/// The samples of a picture, channel by channel.
struct Samples {
    width: usize,
    height: usize,
    components: Vec<Component>,
    hmax: usize,
    vmax: usize,
    across: usize,
    down: usize,
    ycbcr: bool,
    tiles: Vec<Vec<u8>>,
}

impl View for Samples {
    type V = Raster;

    closed spec fn view(&self) -> Raster {
        Raster {
            width: self.width as int,
            height: self.height as int,
            components: self.components@,
            hmax: self.hmax as int,
            vmax: self.vmax as int,
            across: self.across as int,
            ycbcr: self.ycbcr,
            tiles: tile_views(self.tiles@),
        }
    }
}

/// A position at a channel's own resolution lies within the samples of the
/// units that cover the picture.
proof fn lemma_scaled_position(x: int, width: int, h: int, hmax: int, across: int)
    requires
        0 <= x < width,
        width <= across * (8 * hmax),
        1 <= h <= hmax,
        0 <= across,
    ensures
        0 <= x * h / hmax < across * h * 8,
{
    let total = across * h * 8;
    assert(x * h < total * hmax) by (nonlinear_arith)
        requires
            0 <= x < across * (8 * hmax),
            1 <= h,
            total == across * h * 8,
    ;
    assert(0 <= x * h) by (nonlinear_arith)
        requires
            0 <= x,
            1 <= h,
    ;
    let p = x * h;
    assert(0 <= p / hmax < total) by (nonlinear_arith)
        requires
            0 <= p < total * hmax,
            hmax >= 1,
    ;
}

/// A position divided by the size of a unit numbers a unit, and leaves a block
/// within it.
proof fn lemma_block_position(s: int, h: int, across: int)
    requires
        0 <= s < across * h * 8,
        1 <= h,
    ensures
        0 <= s / 8 / h < across,
        0 <= s / 8 % h < h,
{
    let b = s / 8;
    assert(0 <= b < across * h) by (nonlinear_arith)
        requires
            0 <= s < across * h * 8,
            b == s / 8,
    ;
    assert(0 <= b / h < across && 0 <= b % h < h) by (nonlinear_arith)
        requires
            0 <= b < across * h,
            1 <= h,
    ;
}

proof fn lemma_tile_offset(k: Component, across: int, down: int, sx: int, sy: int)
    requires
        k.wf(),
        0 <= sx < across * k.h * 8,
        0 <= sy < down * k.v * 8,
    ensures
        0 <= tile_offset(k, across, sx, sy) < across * down * (k.h * k.v) * 64,
        0 <= sy / 8 / k.v as int * across,
        0 <= (sy / 8 / k.v as int * across + sx / 8 / k.h as int) < across * down,
{
    let h = k.h as int;
    let v = k.v as int;
    lemma_block_position(sx, h, across);
    lemma_block_position(sy, v, down);
    let mx = sx / 8 / h;
    let my = sy / 8 / v;
    let bx = sx / 8 % h;
    let by = sy / 8 % v;
    assert(0 <= my * across && my * across + mx < across * down) by (nonlinear_arith)
        requires
            0 <= mx < across,
            0 <= my < down,
    ;
    assert(0 <= by * h + bx < h * v) by (nonlinear_arith)
        requires
            0 <= bx < h,
            0 <= by < v,
    ;
    let unit = my * across + mx;
    let hv = h * v;
    let in_unit = by * h + bx;
    assert(0 <= unit * hv && unit * hv + in_unit < across * down * hv) by (nonlinear_arith)
        requires
            0 <= unit < across * down,
            0 <= in_unit < hv,
    ;
    assert(k.h * k.v == hv);
}

impl Samples {
    spec fn wf(self) -> bool {
        &&& self.components@.len() == 1 || self.components@.len() == 3
        &&& self.tiles@.len() == self.components@.len()
        &&& components_wf(self.components@)
        &&& 1 <= self.width <= MAX_DIMENSION
        &&& 1 <= self.height <= MAX_DIMENSION
        &&& self.width * self.height <= MAX_PIXELS
        &&& 1 <= self.hmax <= 4
        &&& 1 <= self.vmax <= 4
        &&& self.across <= 4127
        &&& self.down <= 4127
        &&& self.width <= self.across * (8 * self.hmax)
        &&& self.height <= self.down * (8 * self.vmax)
        &&& forall|i: int|
            0 <= i < self.components@.len() ==> {
                &&& (#[trigger] self.tiles@[i])@.len() == self.across * self.down * (
                self.components@[i].h * self.components@[i].v) * 64
                &&& self.components@[i].h <= self.hmax
                &&& self.components@[i].v <= self.vmax
            }
    }

    fn sample(&self, c: usize, x: usize, y: usize) -> (r: u8)
        requires
            self.wf(),
            c < self.components@.len(),
            x < self.width,
            y < self.height,
        ensures
            r == sample_under(self@, c as int, x as int, y as int),
    {
        let k = self.components[c];
        let tile = &self.tiles[c];
        let len: usize = tile.len();
        assert(self.components@[c as int].wf());
        assert(0 <= x * k.h <= 4096 * 4) by (nonlinear_arith)
            requires
                0 <= x <= 4096,
                0 <= k.h <= 4,
        ;
        assert(0 <= y * k.v <= 4096 * 4) by (nonlinear_arith)
            requires
                0 <= y <= 4096,
                0 <= k.v <= 4,
        ;
        let sx: usize = x * k.h / self.hmax;
        let sy: usize = y * k.v / self.vmax;
        proof {
            assert(len == self.tiles@[c as int]@.len());
            lemma_scaled_position(
                x as int,
                self.width as int,
                k.h as int,
                self.hmax as int,
                self.across as int,
            );
            lemma_scaled_position(
                y as int,
                self.height as int,
                k.v as int,
                self.vmax as int,
                self.down as int,
            );
            lemma_tile_offset(k, self.across as int, self.down as int, sx as int, sy as int);
            assert(0 <= self.across * self.down <= 4127 * 4127) by (nonlinear_arith)
                requires
                    0 <= self.across <= 4127,
                    0 <= self.down <= 4127,
            ;
            assert(0 <= k.h * k.v <= 16) by (nonlinear_arith)
                requires
                    0 <= k.h <= 4,
                    0 <= k.v <= 4,
            ;
        }
        let unit: usize = sy / 8 / k.v * self.across + sx / 8 / k.h;
        let hv: usize = k.h * k.v;
        proof {
            let a = (self.across * self.down) as int;
            assert(0 <= unit * hv <= 4127 * 4127 * 16) by (nonlinear_arith)
                requires
                    0 <= unit <= 4127 * 4127,
                    0 <= hv <= 16,
            ;
            assert(0 <= sy / 8 % k.v * k.h <= 16) by (nonlinear_arith)
                requires
                    1 <= k.v <= 4,
                    0 <= k.h <= 4,
                    0 <= sy / 8 % k.v < k.v,
            ;
        }
        let block: usize = unit * hv + (sy / 8 % k.v * k.h + sx / 8 % k.h);
        let offset: u64 = block as u64 * 64 + (sy % 8 * 8 + sx % 8) as u64;
        tile[offset as usize]
    }

    fn pixel(&self, x: usize, y: usize) -> (r: Rgb)
        requires
            self.wf(),
            x < self.width,
            y < self.height,
        ensures
            r == colour(self@, x as int, y as int),
    {
        let a = self.sample(0, x, y);
        if self.components.len() == 1 {
            return (a, a, a);
        }
        let b = self.sample(1, x, y);
        let c = self.sample(2, x, y);
        if self.ycbcr {
            ycbcr_to_rgb(a, b, c)
        } else {
            (a, b, c)
        }
    }

    /// Upsample the channels and convert to RGB.
    fn to_rgb(&self) -> (r: Image)
        requires
            self.wf(),
        ensures
            shows(Ok(r), Ok(self@)),
    {
        let width: usize = self.width;
        let height: usize = self.height;
        let mut pixels: Vec<u8> = Vec::new();
        let mut y: usize = 0;
        assert(0 * width * 3 == 0) by (nonlinear_arith);
        while y < height
            invariant
                y <= height,
                width == self.width,
                height == self.height,
                self.wf(),
                pixels@.len() == y * width * 3,
                forall|i: int, j: int|
                    #![trigger graphics::offset_of(width as int, i, j)]
                    0 <= i < width && 0 <= j < y ==> {
                        let o = graphics::offset_of(width as int, i, j);
                        (pixels@[o], pixels@[o + 1], pixels@[o + 2]) == colour(self@, i, j)
                    },
            decreases height - y,
        {
            let mut x: usize = 0;
            assert((y * width + 0) * 3 == y * width * 3) by (nonlinear_arith);
            while x < width
                invariant
                    x <= width,
                    y < height,
                    width == self.width,
                    height == self.height,
                    self.wf(),
                    pixels@.len() == (y * width + x) * 3,
                    forall|i: int, j: int|
                        #![trigger graphics::offset_of(width as int, i, j)]
                        0 <= i < width && 0 <= j && (j < y || (j == y && i < x)) ==> {
                            let o = graphics::offset_of(width as int, i, j);
                            (pixels@[o], pixels@[o + 1], pixels@[o + 2]) == colour(self@, i, j)
                        },
                decreases width - x,
            {
                let (r, g, b) = self.pixel(x, y);
                let ghost before = pixels@;
                pixels.push(r);
                pixels.push(g);
                pixels.push(b);
                proof {
                    assert(pixels@.len() == (y * width + (x + 1)) * 3) by (nonlinear_arith)
                        requires
                            pixels@.len() == (y * width + x) * 3 + 3,
                    ;
                    assert forall|i: int, j: int|
                        #![trigger graphics::offset_of(width as int, i, j)]
                        0 <= i < width && 0 <= j && (j < y || (j == y && i < x + 1)) implies {
                        let o = graphics::offset_of(width as int, i, j);
                        (pixels@[o], pixels@[o + 1], pixels@[o + 2]) == colour(self@, i, j)
                    } by {
                        let o = graphics::offset_of(width as int, i, j);
                        if j == y && i == x {
                            assert(o == before.len());
                        } else {
                            graphics::lemma_offset_before(
                                width as int,
                                i,
                                j,
                                x as int,
                                y as int,
                            );
                            assert(0 <= o && o + 2 < before.len());
                            assert(pixels@[o] == before[o]);
                            assert(pixels@[o + 1] == before[o + 1]);
                            assert(pixels@[o + 2] == before[o + 2]);
                        }
                    }
                }
                x += 1;
            }
            assert(pixels@.len() == (y + 1) * width * 3) by (nonlinear_arith)
                requires
                    pixels@.len() == (y * width + x) * 3,
                    x == width,
            ;
            y += 1;
        }
        assert(pixels@.len() == width * height * 3) by (nonlinear_arith)
            requires
                pixels@.len() == y * width * 3,
                y == height,
        ;
        let r = Image::new(width, height, pixels);
        proof {
            assert forall|i: int, j: int| 0 <= i < width && 0 <= j < height implies #[trigger] r.at(
                i,
                j,
            ) == colour(self@, i, j) by {
                let o = graphics::offset_of(width as int, i, j);
                graphics::lemma_offset(width as int, height as int, i, j);
            }
        }
        r
    }
}

// -- The whole file

fn read_segment(m: u8, body: &[u8], head: Decoder) -> (r: Result<Decoder, Error>)
    requires
        head.wf(),
    ensures
        match r {
            Ok(d) => d.wf() && segment_read(m, body@, head@) == Ok::<Header, Seq<char>>(d@),
            Err(e) => segment_read(m, body@, head@) == Err::<Header, Seq<char>>(e.text@),
        },
{
    let mut d = head;
    // SOF0/SOF1: baseline and extended sequential, both decodable.
    if m == 0xC0 || m == 0xC1 {
        match read_frame_header(body) {
            Err(e) => {
                return Err(e);
            },
            Ok((width, height, components)) => {
                d.width = width;
                d.height = height;
                d.components = components;
            },
        }
    } else if m == 0xC4 {
        match read_huffman_tables(body, d.dc_tables, d.ac_tables) {
            Err(e) => {
                return Err(e);
            },
            Ok((dc, ac)) => {
                d.dc_tables = dc;
                d.ac_tables = ac;
            },
        }
    } else if m == 0xDB {
        match read_quant_tables(body, d.quant) {
            Err(e) => {
                return Err(e);
            },
            Ok(quant) => {
                d.quant = quant;
            },
        }
    } else if m == 0xDD {
        d.restart_interval = if body.len() >= 2 {
            body[0] as usize * 256 + body[1] as usize
        } else {
            0
        };
    } else if m == 0xEE && body.len() >= 5 && body[0] == 0x41 && body[1] == 0x64 && body[2] == 0x6F
        && body[3] == 0x62 && body[4] == 0x65 {
        // Adobe uses it to say whether three channels are YCbCr or plain RGB,
        // and getting that backwards turns a cover into a psychedelic mess.
        d.adobe_transform = Some(body[body.len() - 1]);
    }
    Ok(d)
}

/// Decode a baseline JPEG into RGB.
pub fn decode(data: &[u8]) -> (r: Result<Image, Error>)
    ensures
        shows(r, picture(data@)),
{
    if !is_jpeg(data) {
        return Err(Error::new("not a JPEG".to_owned()));
    }
    let n: usize = data.len();
    let mut head = Decoder::new();
    let mut pos: usize = 2;
    loop
        invariant
            pos <= n,
            n == data@.len(),
            head.wf(),
            picture(data@) == picture_from(data@, pos as int, head@),
        decreases n - pos,
    {
        let (m, p) = match marker(data, pos) {
            Ok(found) => found,
            Err(e) => {
                return Err(e);
            },
        };
        if m == 0xDA {
            if head.components.len() == 0 {
                return Err(Error::new("the scan arrives before the frame header".to_owned()));
            }
            let (from, to) = match segment(data, p) {
                Ok(found) => found,
                Err(e) => {
                    return Err(e);
                },
            };
            let ghost before = head@;
            let mut d = head;
            d.components = match read_scan_header(slice_subrange(data, from, to), d.components) {
                Ok(c) => c,
                Err(e) => {
                    return Err(e);
                },
            };
            assert(data@.subrange(to as int, n as int) =~= data@.skip(to as int));
            return d.decode_scan(slice_subrange(data, to, n));
        }
        if m == 0xC2 {
            return Err(Error::new("progressive JPEG is not supported".to_owned()));
        }
        if m == 0xC3 || (0xC5 <= m && m <= 0xC7) || (0xC9 <= m && m <= 0xCB) || (0xCD <= m && m
            <= 0xCF) {
            return Err(Error::new("this JPEG uses a coding mode we do not read".to_owned()));
        }
        if m == 0xD9 {
            return Err(Error::new("the image ended before any pixels were coded".to_owned()));
        }
        if m == 0xD8 || (0xD0 <= m && m <= 0xD7) || m == 0x01 {
            pos = p;
            continue;
        }
        let (from, to) = match segment(data, p) {
            Ok(found) => found,
            Err(e) => {
                return Err(e);
            },
        };
        head = match read_segment(m, slice_subrange(data, from, to), head) {
            Ok(d) => d,
            Err(e) => {
                return Err(e);
            },
        };
        pos = to;
    }
}

} // verus!
