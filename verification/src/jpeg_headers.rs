//! What holds of the headers of a picture: what is written into a segment by the
//! rules of the format is what the decoder knows afterwards.

use vstd::prelude::*;

use crate::embedded_laws;
use crate::jpeg;
use crate::jpeg::{Codes, Component, Header};
use crate::jpeg_laws;

verus! {

// ---------------------------------------------------------------------------
// Tables
// ---------------------------------------------------------------------------

/// A Huffman table as it is written: its class and number in one byte, how many
/// codes there are of each length, and the values.
pub open spec fn table_bytes(class: int, id: int, t: Codes) -> Seq<u8> {
    seq![(16 * class + id) as u8] + t.counts + t.values
}

proof fn lemma_total(counts: Seq<u8>, n: int)
    requires
        0 <= n <= counts.len(),
    ensures
        jpeg::total_of(counts.take(n)) == jpeg::codes_up_to(counts, n),
    decreases n,
{
    if n > 0 {
        lemma_total(counts, n - 1);
        assert(counts.take(n).drop_last() =~= counts.take(n - 1));
    }
}

/// A Huffman table that stands in its segment is read into its place among those
/// of its class, and no other changes; reading goes on behind it.
pub proof fn lemma_a_table_is_read(
    body: Seq<u8>,
    i: int,
    class: int,
    id: int,
    t: Codes,
    dc: Seq<Codes>,
    ac: Seq<Codes>,
)
    requires
        jpeg_laws::table(t),
        class == 0 || class == 1,
        0 <= id < 4,
        embedded_laws::stands(body, i, table_bytes(class, id, t)),
    ensures
        class == 0 ==> jpeg::tables_of(body, i, dc, ac) == jpeg::tables_of(
            body,
            i + 17 + t.values.len(),
            dc.update(id, t),
            ac,
        ),
        class == 1 ==> jpeg::tables_of(body, i, dc, ac) == jpeg::tables_of(
            body,
            i + 17 + t.values.len(),
            dc,
            ac.update(id, t),
        ),
{
    let w = table_bytes(class, id, t);
    let here = body.subrange(i, i + w.len());
    assert(here == w);
    assert(body[i] == here[0]);
    assert(w[0] == (16 * class + id) as u8);
    let counts = body.subrange(i + 1, i + 17);
    assert forall|k: int| 0 <= k < 16 implies counts[k] == t.counts[k] by {
        assert(counts[k] == here[1 + k]);
        assert(w[1 + k] == t.counts[k]);
    }
    assert(counts =~= t.counts);
    lemma_total(t.counts, 16);
    assert(t.counts.take(16) =~= t.counts);
    let end = i + 17 + t.values.len();
    let values = body.subrange(i + 17, end);
    assert forall|k: int| 0 <= k < t.values.len() implies values[k] == t.values[k] by {
        assert(values[k] == here[17 + k]);
        assert(w[17 + k] == t.values[k]);
    }
    assert(values =~= t.values);
    assert((Codes { counts, values }) == t);
}

/// A quantisation table as it is written: its precision and number in one byte,
/// and its steps, of one or two bytes each.
pub open spec fn steps_bytes(precision: int, id: int, q: Seq<u16>) -> Seq<u8> {
    seq![(16 * precision + id) as u8] + (if precision == 0 {
        Seq::new(q.len(), |k: int| q[k] as u8)
    } else {
        Seq::new(
            2 * q.len(),
            |k: int|
                if k % 2 == 0 {
                    (q[k / 2] / 256) as u8
                } else {
                    (q[k / 2] % 256) as u8
                },
        )
    })
}

/// A quantisation table that stands in its segment is read into its place, and no
/// other changes; reading goes on behind it.
pub proof fn lemma_steps_are_read(
    body: Seq<u8>,
    i: int,
    precision: int,
    id: int,
    q: Seq<u16>,
    quant: Seq<Seq<u16>>,
)
    requires
        q.len() == 64,
        precision == 0 || precision == 1,
        precision == 0 ==> forall|k: int| 0 <= k < 64 ==> (#[trigger] q[k]) < 256,
        0 <= id < 4,
        embedded_laws::stands(body, i, steps_bytes(precision, id, q)),
    ensures
        jpeg::quants_of(body, i, quant) == jpeg::quants_of(
            body,
            i + 1 + 64 * (precision + 1),
            quant.update(id, q),
        ),
{
    let w = steps_bytes(precision, id, q);
    let here = body.subrange(i, i + w.len());
    assert(here == w);
    assert(body[i] == here[0]);
    assert(w[0] == (16 * precision + id) as u8);
    let table = jpeg::quant_table(body, i + 1, precision);
    assert forall|k: int| 0 <= k < 64 implies table[k] == q[k] by {
        if precision == 0 {
            assert(body[i + 1 + k] == here[1 + k]);
            assert(w[1 + k] == q[k] as u8);
            assert(q[k] < 256);
        } else {
            assert(body[i + 1 + 2 * k] == here[1 + 2 * k]);
            assert(body[i + 1 + 2 * k + 1] == here[1 + 2 * k + 1]);
            assert((2 * k) / 2 == k && (2 * k) % 2 == 0);
            assert((2 * k + 1) / 2 == k && (2 * k + 1) % 2 == 1);
            assert(w[1 + 2 * k] == (q[k] / 256) as u8);
            assert(w[1 + 2 * k + 1] == (q[k] % 256) as u8);
        }
    }
    assert(table =~= q);
}

// ---------------------------------------------------------------------------
// Frame and scan
// ---------------------------------------------------------------------------

/// A channel in a frame header: its number, its two sampling factors in one byte,
/// and the number of its quantisation table.
pub open spec fn channel_bytes(k: Component) -> Seq<u8> {
    seq![k.id, (16 * k.h + k.v) as u8, k.tq as u8]
}

/// Whether a frame header says this: eight bits a sample, the height and the
/// width, and the channels.
pub open spec fn framed(body: Seq<u8>, width: int, height: int, c: Seq<Component>) -> bool {
    &&& body.len() >= 6 + 3 * c.len()
    &&& body[0] == 8
    &&& embedded_laws::stands(body, 1, embedded_laws::big_half(height))
    &&& embedded_laws::stands(body, 3, embedded_laws::big_half(width))
    &&& body[5] == c.len()
    &&& forall|i: int|
        0 <= i < c.len() ==> embedded_laws::stands(body, 6 + 3 * i, channel_bytes(#[trigger] c[i]))
}

proof fn lemma_channels_are_read(body: Seq<u8>, c: Seq<Component>, n: int)
    requires
        0 <= n <= c.len(),
        forall|i: int|
            0 <= i < c.len() ==> (#[trigger] c[i]).wf() && c[i].td == 0 && c[i].ta == 0,
        forall|i: int|
            0 <= i < c.len() ==> embedded_laws::stands(
                body,
                6 + 3 * i,
                channel_bytes(#[trigger] c[i]),
            ),
    ensures
        jpeg::channels_of(body, n, c.len() as int, c.take(n)) == Ok::<Seq<Component>, Seq<char>>(
            c,
        ),
    decreases c.len() - n,
{
    if n < c.len() {
        let k = c[n];
        let base = 6 + n * 3;
        let w = channel_bytes(k);
        assert(embedded_laws::stands(body, 6 + 3 * n, w));
        let here = body.subrange(6 + 3 * n, 6 + 3 * n + w.len());
        assert(here == w);
        assert(body[base] == here[0] && body[base + 1] == here[1] && body[base + 2] == here[2]);
        assert(w[0] == k.id && w[1] == (16 * k.h + k.v) as u8 && w[2] == k.tq as u8);
        assert(c.take(n).push(k) =~= c.take(n + 1));
        lemma_channels_are_read(body, c, n + 1);
    } else {
        assert(c.take(n) =~= c);
    }
}

/// A frame header gives the width, the height and the channels that were written
/// into it, each with its own sampling factors and quantisation table.
pub proof fn lemma_a_frame_is_read(body: Seq<u8>, width: int, height: int, c: Seq<Component>)
    requires
        framed(body, width, height, c),
        1 <= width <= jpeg::MAX_DIMENSION,
        1 <= height <= jpeg::MAX_DIMENSION,
        jpeg::MAX_DIMENSION < 65536,
        width * height <= jpeg::MAX_PIXELS,
        c.len() == 1 || c.len() == 3,
        forall|i: int|
            0 <= i < c.len() ==> (#[trigger] c[i]).wf() && c[i].td == 0 && c[i].ta == 0,
    ensures
        jpeg::frame_of(body) == Ok::<(int, int, Seq<Component>), Seq<char>>((width, height, c)),
{
    embedded_laws::lemma_big_half_is_read(body, 1, height);
    embedded_laws::lemma_big_half_is_read(body, 3, width);
    assert(c.take(0) =~= seq![]);
    lemma_channels_are_read(body, c, 0);
}

/// Whether a scan header says this: how many channels there are, and of each its
/// number and those of its two Huffman tables in one byte.
pub open spec fn assigning(body: Seq<u8>, c: Seq<Component>) -> bool {
    &&& body.len() >= 1 + 2 * c.len()
    &&& body[0] == c.len()
    &&& forall|i: int|
        0 <= i < c.len() ==> body[1 + 2 * i] == (#[trigger] c[i]).id && body[2 + 2 * i] == (16
            * c[i].td + c[i].ta) as u8
}

/// The channels as the frame header left them, those before `n` with their tables.
spec fn partly(before: Seq<Component>, c: Seq<Component>, n: int) -> Seq<Component> {
    Seq::new(
        before.len(),
        |i: int|
            if i < n {
                c[i]
            } else {
                before[i]
            },
    )
}

proof fn lemma_channel_at(c: Seq<Component>, id: u8, i: int, p: int)
    requires
        0 <= i <= p < c.len(),
        c[p].id == id,
        forall|k: int| 0 <= k < p ==> (#[trigger] c[k]).id != id,
    ensures
        jpeg::channel_at(c, id, i) == Some(p),
    decreases p - i,
{
    if i < p {
        assert(c[i].id != id);
        lemma_channel_at(c, id, i + 1, p);
    }
}

proof fn lemma_tables_are_assigned(
    body: Seq<u8>,
    before: Seq<Component>,
    c: Seq<Component>,
    n: int,
)
    requires
        0 <= n <= c.len(),
        before.len() == c.len(),
        assigning(body, c),
        forall|i: int| 0 <= i < c.len() ==> (#[trigger] c[i]).wf(),
        forall|i: int|
            0 <= i < c.len() ==> before[i] == (Component { td: before[i].td, ta: before[i].ta, ..(#[trigger] c[i]) }),
        forall|i: int, j: int|
            0 <= i < j < c.len() ==> (#[trigger] c[i]).id != (#[trigger] c[j]).id,
    ensures
        jpeg::assigned(body, n, c.len() as int, partly(before, c, n)) == Ok::<
            Seq<Component>,
            Seq<char>,
        >(c),
    decreases c.len() - n,
{
    let now = partly(before, c, n);
    if n < c.len() {
        let k = c[n];
        assert(k.wf());
        assert(body[1 + n * 2] == k.id && body[2 + n * 2] == (16 * k.td + k.ta) as u8);
        assert(now[n] == before[n]);
        assert forall|i: int| 0 <= i < n implies (#[trigger] now[i]).id != k.id by {
            assert(now[i] == c[i]);
            assert(c[i].id != c[n].id);
        }
        lemma_channel_at(now, k.id, 0, n);
        let next = now.update(n, Component { td: k.td, ta: k.ta, ..now[n] });
        assert(next[n] == k);
        assert(next =~= partly(before, c, n + 1));
        lemma_tables_are_assigned(body, before, c, n + 1);
    } else {
        assert(now =~= c);
    }
}

/// A scan header gives each channel the two Huffman tables whose numbers stand
/// beside its own, and changes nothing else of it.
pub proof fn lemma_a_scan_header_assigns_tables(
    body: Seq<u8>,
    before: Seq<Component>,
    c: Seq<Component>,
)
    requires
        0 < c.len() <= 3,
        before.len() == c.len(),
        assigning(body, c),
        forall|i: int| 0 <= i < c.len() ==> (#[trigger] c[i]).wf(),
        forall|i: int|
            0 <= i < c.len() ==> before[i] == (Component { td: before[i].td, ta: before[i].ta, ..(#[trigger] c[i]) }),
        forall|i: int, j: int|
            0 <= i < j < c.len() ==> (#[trigger] c[i]).id != (#[trigger] c[j]).id,
    ensures
        jpeg::scan_header_of(body, before) == Ok::<Seq<Component>, Seq<char>>(c),
{
    assert(partly(before, c, 0) =~= before);
    lemma_tables_are_assigned(body, before, c, 0);
}

// ---------------------------------------------------------------------------
// Segments
// ---------------------------------------------------------------------------

/// A segment: a marker, the length of the body with the two bytes that say it, and
/// the body.
pub open spec fn segment_bytes(m: u8, body: Seq<u8>) -> Seq<u8> {
    seq![0xFFu8, m] + embedded_laws::big_half(2 + body.len() as int) + body
}

/// A segment is read whole, and reading goes on behind it with what it said:
/// a frame header, Huffman tables, quantisation tables or the restart interval,
/// each by its marker; any other that is skipped leaves the headers as they were.
pub proof fn lemma_a_segment_is_read(
    data: Seq<u8>,
    pos: int,
    m: u8,
    body: Seq<u8>,
    head: Header,
    next: Header,
)
    requires
        0 <= pos,
        2 + body.len() < 65536,
        embedded_laws::stands(data, pos, segment_bytes(m, body)),
        ({
            ||| m == 0xC0 && jpeg::frame_of(body) == Ok::<(int, int, Seq<Component>), Seq<char>>(
                (next.width, next.height, next.components),
            ) && next == (Header {
                width: next.width,
                height: next.height,
                components: next.components,
                ..head
            })
            ||| m == 0xC4 && jpeg::tables_of(body, 0, head.dc, head.ac) == Ok::<
                (Seq<Codes>, Seq<Codes>),
                Seq<char>,
            >((next.dc, next.ac)) && next == (Header { dc: next.dc, ac: next.ac, ..head })
            ||| m == 0xDB && jpeg::quants_of(body, 0, head.quant) == Ok::<
                Seq<Seq<u16>>,
                Seq<char>,
            >(next.quant) && next == (Header { quant: next.quant, ..head })
            ||| m == 0xDD && body.len() == 2 && next == (Header {
                restart: body[0] * 256 + body[1],
                ..head
            })
            ||| 0xE0 <= m <= 0xED && next == head
            ||| m == 0xFE && next == head
        }),
    ensures
        jpeg::picture_from(data, pos, head) == jpeg::picture_from(
            data,
            pos + 4 + body.len(),
            next,
        ),
{
    let w = segment_bytes(m, body);
    let n = body.len() as int;
    let here = data.subrange(pos, pos + w.len());
    assert(here == w);
    assert(data[pos] == here[0] && data[pos + 1] == here[1]);
    assert(w[0] == 0xFF && w[1] == m);
    let half = embedded_laws::big_half(2 + n);
    assert(w.subrange(2, 4) =~= half);
    assert(data.subrange(pos + 2, pos + 4) =~= half) by {
        assert(data[pos + 2] == here[2] && data[pos + 3] == here[3]);
        assert(w[2] == half[0] && w[3] == half[1]);
    }
    embedded_laws::lemma_big_half_is_read(data, pos + 2, 2 + n);
    assert(jpeg::be16(data, pos + 2) == 2 + n);
    assert(jpeg::after_padding(data, pos + 1) == Ok::<(u8, int), Seq<char>>((m, pos + 2)));
    let read = data.subrange(pos + 4, pos + 4 + n);
    assert forall|k: int| 0 <= k < n implies read[k] == body[k] by {
        assert(read[k] == here[4 + k]);
        assert(w[4 + k] == body[k]);
    }
    assert(read =~= body);
    assert(jpeg::segment_at(data, pos + 2) == Ok::<(int, int), Seq<char>>(
        (pos + 4, pos + 4 + n),
    ));
    assert(jpeg::segment_read(m, body, head) == Ok::<Header, Seq<char>>(next));
    assert(jpeg::after_marker(data, pos + 2, m, head) == Ok::<(int, Header), Seq<char>>(
        (pos + 4 + n, next),
    ));
}

/// The scan is what follows its header, read under the tables that the header
/// assigned.
pub proof fn lemma_a_scan_follows_its_header(
    data: Seq<u8>,
    pos: int,
    body: Seq<u8>,
    head: Header,
    c: Seq<Component>,
)
    requires
        0 <= pos,
        2 + body.len() < 65536,
        embedded_laws::stands(data, pos, segment_bytes(0xDA, body)),
        head.components.len() > 0,
        jpeg::scan_header_of(body, head.components) == Ok::<Seq<Component>, Seq<char>>(c),
    ensures
        jpeg::picture_from(data, pos, head) == jpeg::raster_of(
            data.skip(pos + 4 + body.len()),
            Header { components: c, ..head },
        ),
{
    let w = segment_bytes(0xDA, body);
    let n = body.len() as int;
    let here = data.subrange(pos, pos + w.len());
    assert(here == w);
    assert(data[pos] == here[0] && data[pos + 1] == here[1]);
    assert(w[0] == 0xFF && w[1] == 0xDA);
    let half = embedded_laws::big_half(2 + n);
    assert(data.subrange(pos + 2, pos + 4) =~= half) by {
        assert(data[pos + 2] == here[2] && data[pos + 3] == here[3]);
        assert(w[2] == half[0] && w[3] == half[1]);
    }
    embedded_laws::lemma_big_half_is_read(data, pos + 2, 2 + n);
    assert(jpeg::after_padding(data, pos + 1) == Ok::<(u8, int), Seq<char>>((0xDAu8, pos + 2)));
    let read = data.subrange(pos + 4, pos + 4 + n);
    assert forall|k: int| 0 <= k < n implies read[k] == body[k] by {
        assert(read[k] == here[4 + k]);
        assert(w[4 + k] == body[k]);
    }
    assert(read =~= body);
}

} // verus!
