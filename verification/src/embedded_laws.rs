//! What holds of the covers found inside books: a file laid out by the rules of
//! its format gives back the picture that was put into it.

use vstd::prelude::*;

use crate::cover;
use crate::embedded;
use crate::order;
use crate::path;
use crate::text;

verus! {

// ---------------------------------------------------------------------------
// Numbers
// ---------------------------------------------------------------------------

/// A number in four bytes, the most significant first.
pub open spec fn big_word(n: int) -> Seq<u8> {
    seq![
        (n / 0x100_0000) as u8,
        (n / 0x1_0000 % 256) as u8,
        (n / 0x100 % 256) as u8,
        (n % 256) as u8,
    ]
}

/// A number in two bytes, the more significant first.
pub open spec fn big_half(n: int) -> Seq<u8> {
    seq![(n / 256) as u8, (n % 256) as u8]
}

/// A number in four bytes, the least significant first.
pub open spec fn little_word(n: int) -> Seq<u8> {
    seq![
        (n % 256) as u8,
        (n / 0x100 % 256) as u8,
        (n / 0x1_0000 % 256) as u8,
        (n / 0x100_0000) as u8,
    ]
}

/// A number in two bytes, the less significant first.
pub open spec fn little_half(n: int) -> Seq<u8> {
    seq![(n % 256) as u8, (n / 256) as u8]
}

/// Whether some bytes stand at a place in others.
pub open spec fn stands(data: Seq<u8>, at: int, part: Seq<u8>) -> bool {
    0 <= at && at + part.len() <= data.len() && data.subrange(at, at + part.len()) == part
}

proof fn lemma_stands(data: Seq<u8>, at: int, part: Seq<u8>, i: int)
    requires
        stands(data, at, part),
        0 <= i < part.len(),
    ensures
        data[at + i] == part[i],
{
    assert(data.subrange(at, at + part.len())[i] == part[i]);
}

/// What stands at a place still does where it is a part of more.
proof fn lemma_stands_within(data: Seq<u8>, at: int, whole: Seq<u8>, from: int, part: Seq<u8>)
    requires
        stands(data, at, whole),
        stands(whole, from, part),
    ensures
        stands(data, at + from, part),
{
    let d = data.subrange(at + from, at + from + part.len());
    assert forall|i: int| 0 <= i < part.len() implies d[i] == part[i] by {
        lemma_stands(data, at, whole, from + i);
        lemma_stands(whole, from, part, i);
    }
    assert(d =~= part);
}

/// A number that was written most significant byte first is read as itself.
pub proof fn lemma_big_word_is_read(data: Seq<u8>, at: int, n: int)
    requires
        0 <= n < 0x1_0000_0000,
        stands(data, at, big_word(n)),
    ensures
        embedded::be32_at(data, at) == Some(n),
{
    let w = big_word(n);
    lemma_stands(data, at, w, 0);
    lemma_stands(data, at, w, 1);
    lemma_stands(data, at, w, 2);
    lemma_stands(data, at, w, 3);
}

pub proof fn lemma_big_half_is_read(data: Seq<u8>, at: int, n: int)
    requires
        0 <= n < 0x1_0000,
        stands(data, at, big_half(n)),
    ensures
        embedded::be16_at(data, at) == Some(n),
{
    let w = big_half(n);
    lemma_stands(data, at, w, 0);
    lemma_stands(data, at, w, 1);
}

/// A number that was written least significant byte first is read as itself.
pub proof fn lemma_little_word_is_read(data: Seq<u8>, at: int, n: int)
    requires
        0 <= n < 0x1_0000_0000,
        stands(data, at, little_word(n)),
    ensures
        embedded::le32_at(data, at) == Some(n),
{
    let w = little_word(n);
    lemma_stands(data, at, w, 0);
    lemma_stands(data, at, w, 1);
    lemma_stands(data, at, w, 2);
    lemma_stands(data, at, w, 3);
}

pub proof fn lemma_little_half_is_read(data: Seq<u8>, at: int, n: int)
    requires
        0 <= n < 0x1_0000,
        stands(data, at, little_half(n)),
    ensures
        embedded::le16_at(data, at) == Some(n),
{
    let w = little_half(n);
    lemma_stands(data, at, w, 0);
    lemma_stands(data, at, w, 1);
}

// ---------------------------------------------------------------------------
// EXTH
// ---------------------------------------------------------------------------

/// A tag of an EXTH block: what kind it is of, and its value.
pub struct Tag {
    pub kind: int,
    pub value: Seq<u8>,
}

/// A tag as it is written: its kind, its length with the eight bytes of its own
/// header, and its value.
pub open spec fn tag_bytes(t: Tag) -> Seq<u8> {
    big_word(t.kind) + big_word(8int + t.value.len()) + t.value
}

/// Tags end to end.
pub open spec fn tags_bytes(ts: Seq<Tag>) -> Seq<u8>
    decreases ts.len(),
{
    if ts.len() == 0 {
        seq![]
    } else {
        tag_bytes(ts[0]) + tags_bytes(ts.skip(1))
    }
}

/// An EXTH block: `EXTH`, its length, how many tags it has, and the tags.
pub open spec fn exth_bytes(ts: Seq<Tag>) -> Seq<u8> {
    exth() + big_word(12int + tags_bytes(ts).len()) + big_word(
        ts.len() as int,
    ) + tags_bytes(ts)
}

/// Whether a tag can be written: its numbers fit their four bytes, and a cover
/// tag has room for the number it is for.
pub open spec fn writable_tag(t: Tag) -> bool {
    &&& 0 <= t.kind < 0x1_0000_0000
    &&& 8 + t.value.len() < 0x1_0000_0000
    &&& t.kind == 201 ==> t.value.len() >= 4
}

/// The number that the first cover tag gives.
pub open spec fn first_cover(ts: Seq<Tag>) -> Option<int>
    decreases ts.len(),
{
    if ts.len() == 0 {
        None
    } else if ts[0].kind == 201 {
        Some(
            ts[0].value[0] * 0x100_0000 + ts[0].value[1] * 0x1_0000 + ts[0].value[2] * 0x100
                + ts[0].value[3],
        )
    } else {
        first_cover(ts.skip(1))
    }
}

proof fn lemma_tags_are_read(rec: Seq<u8>, p: int, ts: Seq<Tag>)
    requires
        forall|i: int| 0 <= i < ts.len() ==> writable_tag(#[trigger] ts[i]),
        stands(rec, p, tags_bytes(ts)),
    ensures
        embedded::tag_from(rec, p, ts.len()) == first_cover(ts),
    decreases ts.len(),
{
    if ts.len() > 0 {
        let t = ts[0];
        let one = tag_bytes(t);
        let rest = tags_bytes(ts.skip(1));
        let all = tags_bytes(ts);
        assert(writable_tag(t));
        assert(all.subrange(0, 4) =~= big_word(t.kind));
        assert(all.subrange(4, 8) =~= big_word(8int + t.value.len()));
        assert(all.subrange(8, 8int + t.value.len()) =~= t.value);
        assert(all.subrange(one.len() as int, all.len() as int) =~= rest);
        lemma_stands_within(rec, p, all, 0, big_word(t.kind));
        lemma_stands_within(rec, p, all, 4, big_word(8int + t.value.len()));
        lemma_stands_within(rec, p, all, 8, t.value);
        lemma_stands_within(rec, p, all, one.len() as int, rest);
        lemma_big_word_is_read(rec, p, t.kind);
        lemma_big_word_is_read(rec, p + 4, 8int + t.value.len());
        if t.kind == 201 {
            lemma_stands(rec, p + 8, t.value, 0);
            lemma_stands(rec, p + 8, t.value, 1);
            lemma_stands(rec, p + 8, t.value, 2);
            lemma_stands(rec, p + 8, t.value, 3);
        } else {
            assert forall|i: int| 0 <= i < ts.skip(1).len() implies writable_tag(
                #[trigger] ts.skip(1)[i],
            ) by {
                assert(writable_tag(ts[i + 1]));
            }
            lemma_tags_are_read(rec, p + one.len(), ts.skip(1));
        }
    }
}

/// `EXTH`.
pub open spec fn exth() -> Seq<u8> {
    seq![0x45u8, 0x58u8, 0x54u8, 0x48u8]
}

proof fn lemma_exth_is_found(rec: Seq<u8>, at: int, i: int)
    requires
        0 <= i <= at,
        at + 4 <= 8192,
        stands(rec, at, exth()),
        forall|k: int| 0 <= k < at ==> !(#[trigger] stands(rec, k, exth())),
    ensures
        embedded::exth_from(rec, i) == Some(at),
    decreases at - i,
{
    if i < at {
        if embedded::four_at(rec, i, embedded::exth_word()) {
            assert(rec.subrange(i, i + 4) =~= exth());
            assert(stands(rec, i, exth()));
        }
        lemma_exth_is_found(rec, at, i + 1);
    } else {
        lemma_stands(rec, at, exth(), 0);
        lemma_stands(rec, at, exth(), 1);
        lemma_stands(rec, at, exth(), 2);
        lemma_stands(rec, at, exth(), 3);
    }
}

/// The cover that a record's metadata names is the value of its first cover tag,
/// wherever among the tags it stands, and none where no tag is one.
pub proof fn lemma_exth_names_the_cover(before: Seq<u8>, ts: Seq<Tag>, after: Seq<u8>)
    requires
        forall|i: int| 0 <= i < ts.len() ==> writable_tag(#[trigger] ts[i]),
        ts.len() <= 4096,
        12 + tags_bytes(ts).len() < 0x1_0000_0000,
        before.len() + 4 <= 8192,
        forall|k: int|
            0 <= k < before.len() ==> !(#[trigger] stands(
                before + exth_bytes(ts) + after,
                k,
                exth(),
            )),
    ensures
        embedded::cover_index(before + exth_bytes(ts) + after) == first_cover(ts),
{
    let rec = before + exth_bytes(ts) + after;
    let at = before.len() as int;
    let block = exth_bytes(ts);
    let tags = tags_bytes(ts);
    assert(rec.subrange(at, at + block.len()) =~= block);
    assert(block.subrange(0, 4) =~= exth());
    assert(block.subrange(8, 12) =~= big_word(ts.len() as int));
    assert(block.subrange(12, 12int + tags.len()) =~= tags);
    lemma_stands_within(rec, at, block, 0, exth());
    lemma_stands_within(rec, at, block, 8, big_word(ts.len() as int));
    lemma_stands_within(rec, at, block, 12, tags);
    lemma_exth_is_found(rec, at, 0);
    lemma_big_word_is_read(rec, at + 8, ts.len() as int);
    lemma_tags_are_read(rec, at + 12, ts);
}

/// The first cover tag's value, said without walking: no tag before `i` is a
/// cover tag, and `i` is one.
pub proof fn lemma_first_cover(ts: Seq<Tag>, i: int)
    requires
        0 <= i <= ts.len(),
        forall|k: int| 0 <= k < i ==> (#[trigger] ts[k]).kind != 201,
    ensures
        i < ts.len() && ts[i].kind == 201 ==> first_cover(ts) == Some(
            ts[i].value[0] * 0x100_0000 + ts[i].value[1] * 0x1_0000 + ts[i].value[2] * 0x100
                + ts[i].value[3],
        ),
        i == ts.len() ==> first_cover(ts) is None,
    decreases ts.len(),
{
    if ts.len() > 0 && i > 0 {
        assert(ts[0].kind != 201);
        assert forall|k: int| 0 <= k < i - 1 implies (#[trigger] ts.skip(1)[k]).kind != 201 by {
            assert(ts[k + 1].kind != 201);
        }
        lemma_first_cover(ts.skip(1), i - 1);
    }
}

// ---------------------------------------------------------------------------
// MOBI
// ---------------------------------------------------------------------------

/// Whether a file is a Palm database of these records: their number after the
/// name and attributes, the table of where each starts, and the records one
/// after the other up to the end of the file.
pub open spec fn palm(data: Seq<u8>, starts: Seq<int>, records: Seq<Seq<u8>>) -> bool {
    &&& 0 < records.len() <= 65_000
    &&& starts.len() == records.len()
    &&& data.len() < 0x1_0000_0000
    &&& stands(data, 76, big_half(records.len() as int))
    &&& forall|i: int| 0 <= i < starts.len() ==> stands(data, 78 + 8 * i, big_word(#[trigger] starts[i]))
    &&& forall|i: int|
        0 <= i < records.len() ==> stands(data, starts[i], #[trigger] records[i]) && starts[i]
            + records[i].len() == (if i + 1 < records.len() {
            starts[i + 1]
        } else {
            data.len() as int
        })
}

/// A record of a Palm database is found whole: its first byte to its last.
pub proof fn lemma_record_is_found(data: Seq<u8>, starts: Seq<int>, records: Seq<Seq<u8>>, i: int)
    requires
        palm(data, starts, records),
        0 <= i < records.len(),
    ensures
        embedded::be16_at(data, 76) == Some(records.len() as int),
        embedded::record_at(data, records.len() as int, i) == Some(
            (starts[i], starts[i] + records[i].len()),
        ),
        data.subrange(starts[i], starts[i] + records[i].len()) == records[i],
{
    lemma_big_half_is_read(data, 76, records.len() as int);
    assert(stands(data, starts[i], records[i]));
    assert(stands(data, 78 + 8 * i, big_word(starts[i])));
    lemma_big_word_is_read(data, 78 + 8 * i, starts[i]);
    if i + 1 < records.len() {
        assert(stands(data, starts[i + 1], records[i + 1]));
        assert(stands(data, 78 + 8 * (i + 1), big_word(starts[i + 1])));
        lemma_big_word_is_read(data, 78 + 8 * (i + 1), starts[i + 1]);
    }
}

/// Whether a record is a picture.
pub open spec fn pictured(record: Seq<u8>) -> bool {
    cover::kind_of(record) is Some
}

proof fn lemma_picture_record(data: Seq<u8>, starts: Seq<int>, records: Seq<Seq<u8>>, i: int)
    requires
        palm(data, starts, records),
        0 <= i < records.len(),
    ensures
        embedded::image_at(data, records.len() as int, i) == (if pictured(records[i]) {
            Some((starts[i], starts[i] + records[i].len()))
        } else {
            None
        }),
{
    lemma_record_is_found(data, starts, records, i);
    assert(stands(data, starts[i], records[i]));
}

proof fn lemma_first_picture(
    data: Seq<u8>,
    starts: Seq<int>,
    records: Seq<Seq<u8>>,
    i: int,
    first: int,
)
    requires
        palm(data, starts, records),
        0 <= i <= first < records.len(),
        pictured(records[first]),
        forall|k: int| 0 <= k < first ==> !pictured(#[trigger] records[k]),
    ensures
        embedded::first_image_from(data, records.len() as int, i) == Some(first),
    decreases first - i,
{
    lemma_picture_record(data, starts, records, i);
    if i < first {
        assert(!pictured(records[i]));
        lemma_first_picture(data, starts, records, i + 1, first);
    }
}

/// The cover of a MOBI whose metadata names one is that picture: the record so
/// many after the first that is a picture.
pub proof fn lemma_mobi_gives_the_named_cover(
    data: Seq<u8>,
    starts: Seq<int>,
    records: Seq<Seq<u8>>,
    first: int,
    named: int,
)
    requires
        palm(data, starts, records),
        stands(records[0], 16, seq![0x4Du8, 0x4Fu8, 0x42u8, 0x49u8]),
        0 <= first < records.len(),
        pictured(records[first]),
        forall|k: int| 0 <= k < first ==> !pictured(#[trigger] records[k]),
        embedded::cover_index(records[0]) == Some(named),
        0 <= named < records.len() - first,
        pictured(records[first + named]),
    ensures
        embedded::mobi_cover_at(data) is Some,
        ({
            let (a, b) = embedded::mobi_cover_at(data)->0;
            data.subrange(a, b) == records[first + named]
        }),
{
    lemma_mobi_opens(data, starts, records);
    lemma_first_picture(data, starts, records, 0, first);
    lemma_picture_record(data, starts, records, first + named);
    lemma_record_is_found(data, starts, records, first + named);
}

proof fn lemma_mobi_opens(data: Seq<u8>, starts: Seq<int>, records: Seq<Seq<u8>>)
    requires
        palm(data, starts, records),
        stands(records[0], 16, seq![0x4Du8, 0x4Fu8, 0x42u8, 0x49u8]),
    ensures
        embedded::be16_at(data, 76) == Some(records.len() as int),
        embedded::record_at(data, records.len() as int, 0) == Some(
            (starts[0], starts[0] + records[0].len()),
        ),
        data.subrange(starts[0], starts[0] + records[0].len()) == records[0],
        embedded::four_at(records[0], 16, embedded::mobi_word()),
{
    lemma_record_is_found(data, starts, records, 0);
    let w = seq![0x4Du8, 0x4Fu8, 0x42u8, 0x49u8];
    lemma_stands(records[0], 16, w, 0);
    lemma_stands(records[0], 16, w, 1);
    lemma_stands(records[0], 16, w, 2);
    lemma_stands(records[0], 16, w, 3);
}

/// Whether a run is a picture of the records before `i`, no smaller than any.
spec fn leading(starts: Seq<int>, records: Seq<Seq<u8>>, i: int, best: Option<(int, int)>) -> bool {
    match best {
        None => forall|k: int| 0 <= k < i ==> !pictured(#[trigger] records[k]),
        Some((a, b)) => {
            &&& exists|k: int|
                0 <= k < i && pictured(#[trigger] records[k]) && a == starts[k] && b == a
                    + records[k].len()
            &&& forall|k: int|
                0 <= k < i && pictured(#[trigger] records[k]) ==> records[k].len() <= b - a
        },
    }
}

proof fn lemma_largest_leads(
    data: Seq<u8>,
    starts: Seq<int>,
    records: Seq<Seq<u8>>,
    i: int,
    best: Option<(int, int)>,
)
    requires
        palm(data, starts, records),
        0 <= i <= records.len(),
        leading(starts, records, i, best),
    ensures
        leading(
            starts,
            records,
            records.len() as int,
            embedded::largest_image_from(data, records.len() as int, i, best),
        ),
    decreases records.len() - i,
{
    if i < records.len() {
        lemma_picture_record(data, starts, records, i);
        let next = match (embedded::image_at(data, records.len() as int, i), best) {
            (None, _) => best,
            (Some(r), None) => Some(r),
            (Some(r), Some(b)) => if r.1 - r.0 >= b.1 - b.0 {
                Some(r)
            } else {
                Some(b)
            },
        };
        if next is Some {
            if next == best {
                let k = choose|k: int|
                    0 <= k < i && pictured(#[trigger] records[k]) && (next->0).0 == starts[k] && (next->0).1
                        == (next->0).0 + records[k].len();
                assert(0 <= k < i + 1 && pictured(records[k]));
            } else {
                assert(pictured(records[i]));
            }
        }
        assert(leading(starts, records, i + 1, next));
        lemma_largest_leads(data, starts, records, i + 1, next);
    }
}

/// The cover of a MOBI whose metadata names none is a picture among its records,
/// and no picture among them is larger.
pub proof fn lemma_mobi_gives_the_largest_picture(
    data: Seq<u8>,
    starts: Seq<int>,
    records: Seq<Seq<u8>>,
    first: int,
)
    requires
        palm(data, starts, records),
        stands(records[0], 16, seq![0x4Du8, 0x4Fu8, 0x42u8, 0x49u8]),
        0 <= first < records.len(),
        pictured(records[first]),
        forall|k: int| 0 <= k < first ==> !pictured(#[trigger] records[k]),
        embedded::cover_index(records[0]) is None,
    ensures
        embedded::mobi_cover_at(data) is Some,
        ({
            let (a, b) = embedded::mobi_cover_at(data)->0;
            let cover = data.subrange(a, b);
            &&& records.contains(cover)
            &&& pictured(cover)
            &&& forall|k: int|
                0 <= k < records.len() && pictured(#[trigger] records[k]) ==> records[k].len()
                    <= cover.len()
        }),
{
    lemma_mobi_opens(data, starts, records);
    lemma_first_picture(data, starts, records, 0, first);
    assert(leading(starts, records, first, None));
    lemma_largest_leads(data, starts, records, first, None);
    let r = embedded::mobi_cover_at(data);
    if r is None {
        assert(!pictured(records[first]));
    } else {
        let (a, b) = r->0;
        let k = choose|k: int|
            0 <= k < records.len() && pictured(#[trigger] records[k]) && a == starts[k] && b == a
                + records[k].len();
        lemma_record_is_found(data, starts, records, k);
        assert(data.subrange(a, b) == records[k]);
    }
}

/// A file without a picture among its records, or that is no MOBI, has no cover.
pub proof fn lemma_mobi_without_pictures(data: Seq<u8>, starts: Seq<int>, records: Seq<Seq<u8>>)
    requires
        palm(data, starts, records),
        (forall|k: int| 0 <= k < records.len() ==> !pictured(#[trigger] records[k])) || !stands(
            records[0],
            16,
            seq![0x4Du8, 0x4Fu8, 0x42u8, 0x49u8],
        ),
    ensures
        embedded::mobi_cover_at(data) is None,
{
    lemma_record_is_found(data, starts, records, 0);
    let w = seq![0x4Du8, 0x4Fu8, 0x42u8, 0x49u8];
    if stands(records[0], 16, w) {
        lemma_no_picture(data, starts, records, 0);
    } else if embedded::four_at(records[0], 16, embedded::mobi_word()) {
        assert(records[0].subrange(16, 20) =~= w);
    }
}

proof fn lemma_no_picture(data: Seq<u8>, starts: Seq<int>, records: Seq<Seq<u8>>, i: int)
    requires
        palm(data, starts, records),
        0 <= i <= records.len(),
        forall|k: int| 0 <= k < records.len() ==> !pictured(#[trigger] records[k]),
    ensures
        embedded::first_image_from(data, records.len() as int, i) is None,
    decreases records.len() - i,
{
    if i < records.len() {
        lemma_picture_record(data, starts, records, i);
        assert(!pictured(records[i]));
        lemma_no_picture(data, starts, records, i + 1);
    }
}

// ---------------------------------------------------------------------------
// EPUB and CBZ
// ---------------------------------------------------------------------------

/// A file in an archive: its name, how it is packed, its packed bytes, and what
/// else its two headers carry.
pub struct Packed {
    pub name: Seq<u8>,
    pub method: int,
    pub bytes: Seq<u8>,
    pub local_extra: Seq<u8>,
    pub extra: Seq<u8>,
    pub comment: Seq<u8>,
}

/// Whether a file of an archive can be written down.
pub open spec fn packable(f: Packed) -> bool {
    &&& f.name.len() < 0x1_0000
    &&& f.local_extra.len() < 0x1_0000
    &&& f.extra.len() < 0x1_0000
    &&& f.comment.len() < 0x1_0000
    &&& 0 <= f.method < 0x1_0000
    &&& f.bytes.len() < 0x1_0000_0000
}

/// Whether a file stands in an archive at a place: a header that gives the
/// lengths of the name and of the extra field, these two, and the bytes.
pub open spec fn local(data: Seq<u8>, at: int, f: Packed) -> bool {
    &&& stands(data, at, little_word(0x0403_4b50))
    &&& stands(data, at + 26, little_half(f.name.len() as int))
    &&& stands(data, at + 28, little_half(f.local_extra.len() as int))
    &&& stands(data, at + 30 + f.name.len() + f.local_extra.len(), f.bytes)
}

/// Whether the entry of a file stands in the directory at a place: how it is
/// packed, how many bytes that makes, the lengths of the name, of the extra field
/// and of the comment, where the file stands, and the name.
pub open spec fn central(data: Seq<u8>, p: int, f: Packed, at: int) -> bool {
    &&& p + 46 + f.name.len() + f.extra.len() + f.comment.len() <= data.len()
    &&& stands(data, p, little_word(0x0201_4b50))
    &&& stands(data, p + 10, little_half(f.method))
    &&& stands(data, p + 20, little_word(f.bytes.len() as int))
    &&& stands(data, p + 28, little_half(f.name.len() as int))
    &&& stands(data, p + 30, little_half(f.extra.len() as int))
    &&& stands(data, p + 32, little_half(f.comment.len() as int))
    &&& stands(data, p + 42, little_word(at))
    &&& stands(data, p + 46, f.name)
}

/// Whether a file is an archive of these files: each where it is said to be, their
/// entries one after the other in the directory, and at the end of the file the
/// record that says how many there are and where the directory begins.
pub open spec fn archive(
    data: Seq<u8>,
    files: Seq<Packed>,
    ats: Seq<int>,
    places: Seq<int>,
    end: int,
) -> bool {
    &&& 0 < files.len() <= 16_384
    &&& ats.len() == files.len()
    &&& places.len() == files.len()
    &&& data.len() < 0x1_0000_0000
    &&& forall|i: int| 0 <= i < files.len() ==> packable(#[trigger] files[i])
    &&& forall|i: int| 0 <= i < files.len() ==> local(data, ats[i], #[trigger] files[i])
    &&& forall|i: int|
        0 <= i < files.len() ==> central(data, places[i], #[trigger] files[i], ats[i])
    &&& forall|i: int|
        0 <= i < files.len() - 1 ==> places[i + 1] == (#[trigger] places[i]) + 46
            + files[i].name.len() + files[i].extra.len() + files[i].comment.len()
    &&& stands(data, end, little_word(0x0605_4b50))
    &&& stands(data, end + 10, little_half(files.len() as int))
    &&& stands(data, end + 16, little_word(places[0]))
    &&& data.len() - end <= 65_557
    &&& forall|k: int| end < k ==> !(#[trigger] stands(data, k, little_word(0x0605_4b50)))
}

proof fn lemma_little_word_stands(data: Seq<u8>, k: int, n: int)
    requires
        0 <= n < 0x1_0000_0000,
        embedded::le32_at(data, k) == Some(n),
    ensures
        stands(data, k, little_word(n)),
{
    let a = data[k] as int;
    let b = data[k + 1] as int;
    let c = data[k + 2] as int;
    let d = data[k + 3] as int;
    assert(n == a + b * 0x100 + c * 0x1_0000 + d * 0x100_0000);
    assert(n % 256 == a);
    assert(n / 0x100 % 256 == b);
    assert(n / 0x1_0000 % 256 == c);
    assert(n / 0x100_0000 == d);
    assert(data.subrange(k, k + 4) =~= little_word(n));
}

proof fn lemma_end_is_found(data: Seq<u8>, start: int, end: int, i: int)
    requires
        start <= end < i <= data.len(),
        0 <= start,
        stands(data, end, little_word(0x0605_4b50)),
        forall|k: int| end < k ==> !(#[trigger] stands(data, k, little_word(0x0605_4b50))),
    ensures
        embedded::eocd_before(data, start, i) == Some(end),
    decreases i - end,
{
    if i - 1 > end {
        if embedded::le32_at(data, i - 1) == Some(0x0605_4b50int) {
            lemma_little_word_stands(data, i - 1, 0x0605_4b50);
        }
        lemma_end_is_found(data, start, end, i - 1);
    } else {
        lemma_little_word_is_read(data, end, 0x0605_4b50);
    }
}

/// What an archive says of a file.
pub open spec fn entry(f: Packed, at: int) -> embedded::EntryView {
    embedded::EntryView {
        name: embedded::lossy_text(f.name),
        method: f.method,
        local_header: at,
        size: f.bytes.len() as int,
    }
}

/// The entry of a file in the directory says what was written into it.
proof fn lemma_entry_is_read(data: Seq<u8>, p: int, f: Packed, at: int)
    requires
        packable(f),
        central(data, p, f, at),
        0 <= at < 0x1_0000_0000,
    ensures
        p + 46 <= data.len(),
        embedded::le32_at(data, p) == Some(0x0201_4b50int),
        embedded::le16_at(data, p + 10) == Some(f.method),
        embedded::le32_at(data, p + 20) == Some(f.bytes.len() as int),
        embedded::le16_at(data, p + 28) == Some(f.name.len() as int),
        embedded::le16_at(data, p + 30) == Some(f.extra.len() as int),
        embedded::le16_at(data, p + 32) == Some(f.comment.len() as int),
        embedded::le32_at(data, p + 42) == Some(at),
        embedded::entry_name(data, p + 46, f.name.len() as int) == embedded::lossy_text(f.name),
{
    lemma_little_word_is_read(data, p, 0x0201_4b50);
    lemma_little_half_is_read(data, p + 10, f.method);
    lemma_little_word_is_read(data, p + 20, f.bytes.len() as int);
    lemma_little_half_is_read(data, p + 28, f.name.len() as int);
    lemma_little_half_is_read(data, p + 30, f.extra.len() as int);
    lemma_little_half_is_read(data, p + 32, f.comment.len() as int);
    lemma_little_word_is_read(data, p + 42, at);
    assert(data.subrange(p + 46, p + 46 + f.name.len()) == f.name);
}

/// Reading one entry of the directory leads to the next.
proof fn lemma_entry_step(
    data: Seq<u8>,
    p: int,
    f: Packed,
    at: int,
    left: nat,
    before: Seq<embedded::EntryView>,
)
    requires
        packable(f),
        central(data, p, f, at),
        0 <= at < 0x1_0000_0000,
        left > 0,
    ensures
        embedded::entries_from(data, p, left, before) == embedded::entries_from(
            data,
            p + (46 + f.name.len() + f.extra.len() + f.comment.len()),
            (left - 1) as nat,
            before.push(entry(f, at)),
        ),
{
    lemma_entry_is_read(data, p, f, at);
}

#[verifier::spinoff_prover]
#[verifier::rlimit(40)]
proof fn lemma_entries_from(
    data: Seq<u8>,
    files: Seq<Packed>,
    ats: Seq<int>,
    places: Seq<int>,
    end: int,
    i: int,
    before: Seq<embedded::EntryView>,
)
    requires
        archive(data, files, ats, places, end),
        0 <= i < files.len(),
        before == Seq::new(i as nat, |k: int| entry(files[k], ats[k])),
    ensures
        embedded::entries_from(data, places[i], (files.len() - i) as nat, before) == Some(
            Seq::new(files.len(), |k: int| entry(files[k], ats[k])),
        ),
    decreases files.len() - i,
{
    let f = files[i];
    let p = places[i];
    assert(packable(f) && central(data, p, f, ats[i]) && local(data, ats[i], f));
    lemma_entry_step(data, p, f, ats[i], (files.len() - i) as nat, before);
    let now = before.push(entry(f, ats[i]));
    let all = Seq::new((i + 1) as nat, |k: int| entry(files[k], ats[k]));
    assert(now =~= all);
    if i + 1 < files.len() {
        assert(places[i + 1] == p + 46 + f.name.len() + f.extra.len() + f.comment.len());
        lemma_entries_from(data, files, ats, places, end, i + 1, now);
    } else {
        assert(all =~= Seq::new(files.len(), |k: int| entry(files[k], ats[k])));
    }
}

/// An archive lists the files that are in it, in the order of its directory: each
/// under its name, with how it is packed, how large that is, and where it stands.
pub proof fn lemma_an_archive_lists_its_files(
    data: Seq<u8>,
    files: Seq<Packed>,
    ats: Seq<int>,
    places: Seq<int>,
    end: int,
)
    requires
        archive(data, files, ats, places, end),
    ensures
        embedded::entries_of(data) == Some(
            Seq::new(files.len(), |k: int| entry(files[k], ats[k])),
        ),
{
    let start = if data.len() > 65_557 {
        data.len() - 65_557
    } else {
        0
    };
    lemma_end_is_found(data, start, end, data.len() as int);
    lemma_little_half_is_read(data, end + 10, files.len() as int);
    assert(central(data, places[0], files[0], ats[0]));
    lemma_little_word_is_read(data, end + 16, places[0]);
    let none = Seq::new(0, |k: int| entry(files[k], ats[k]));
    assert(none =~= seq![]);
    lemma_entries_from(data, files, ats, places, end, 0, none);
}

/// A file that is stored as it is, and is a picture, is found byte for byte.
pub proof fn lemma_a_stored_picture_is_found(data: Seq<u8>, at: int, f: Packed)
    requires
        packable(f),
        local(data, at, f),
        f.method == 0,
        pictured(f.bytes),
    ensures
        embedded::stored_at(data, entry(f, at)) is Some,
        ({
            let (a, b) = embedded::stored_at(data, entry(f, at))->0;
            data.subrange(a, b) == f.bytes
        }),
{
    lemma_little_word_is_read(data, at, 0x0403_4b50);
    lemma_little_half_is_read(data, at + 26, f.name.len() as int);
    lemma_little_half_is_read(data, at + 28, f.local_extra.len() as int);
}

/// A file that is packed in any other way is not taken for a picture.
pub proof fn lemma_a_compressed_file_is_left_alone(data: Seq<u8>, at: int, f: Packed)
    requires
        f.method != 0,
    ensures
        embedded::stored_at(data, entry(f, at)) is None,
{
}

/// Whether a file of an archive can be the cover by what the directory says: it is
/// stored as it is, and its name is that of a picture.
pub open spec fn eligible(f: Packed) -> bool {
    f.method == 0 && embedded::image_name(embedded::lossy_text(f.name))
}

/// Whether the name of a file says cover.
pub open spec fn named_so(f: Packed) -> bool {
    text::has(text::ascii_lower(embedded::lossy_text(f.name)), "cover"@)
}

proof fn lemma_named_cover(v: Seq<embedded::EntryView>, i: int, k: int)
    requires
        0 <= i <= k < v.len(),
        embedded::candidate(v[k]) && text::has(text::ascii_lower(v[k].name), "cover"@),
        forall|j: int|
            0 <= j < k ==> !(embedded::candidate(#[trigger] v[j]) && text::has(
                text::ascii_lower(v[j].name),
                "cover"@,
            )),
    ensures
        embedded::named_cover(v, i) == Some(k),
    decreases k - i,
{
    if i < k {
        assert(!(embedded::candidate(v[i]) && text::has(text::ascii_lower(v[i].name), "cover"@)));
        lemma_named_cover(v, i + 1, k);
    }
}

proof fn lemma_no_named_cover(v: Seq<embedded::EntryView>, i: int)
    requires
        0 <= i <= v.len(),
        forall|j: int|
            0 <= j < v.len() ==> !(embedded::candidate(#[trigger] v[j]) && text::has(
                text::ascii_lower(v[j].name),
                "cover"@,
            )),
    ensures
        embedded::named_cover(v, i) is None,
    decreases v.len() - i,
{
    if i < v.len() {
        assert(!(embedded::candidate(v[i]) && text::has(text::ascii_lower(v[i].name), "cover"@)));
        lemma_no_named_cover(v, i + 1);
    }
}

spec fn largest_so_far(v: Seq<embedded::EntryView>, i: int, best: Option<int>) -> bool {
    match best {
        None => forall|k: int| 0 <= k < i ==> !embedded::candidate(#[trigger] v[k]),
        Some(b) => {
            &&& 0 <= b < i
            &&& embedded::candidate(v[b])
            &&& forall|k: int|
                0 <= k < i && embedded::candidate(#[trigger] v[k]) ==> v[k].size <= v[b].size
        },
    }
}

proof fn lemma_largest_entry(v: Seq<embedded::EntryView>, i: int, best: Option<int>)
    requires
        0 <= i <= v.len(),
        largest_so_far(v, i, best),
    ensures
        largest_so_far(v, v.len() as int, embedded::largest_entry(v, i, best)),
    decreases v.len() - i,
{
    if i < v.len() {
        let next = if embedded::candidate(v[i]) && (match best {
            Some(b) => v[i].size >= v[b].size,
            None => true,
        }) {
            Some(i)
        } else {
            best
        };
        lemma_largest_entry(v, i + 1, next);
    }
}

spec fn first_so_far(v: Seq<embedded::EntryView>, i: int, best: Option<int>) -> bool {
    match best {
        None => forall|k: int| 0 <= k < i ==> !embedded::candidate(#[trigger] v[k]),
        Some(b) => {
            &&& 0 <= b < i
            &&& embedded::candidate(v[b])
            &&& forall|k: int|
                0 <= k < i && embedded::candidate(#[trigger] v[k]) ==> !text::precedes(
                    text::ascii_lower(v[k].name),
                    text::ascii_lower(v[b].name),
                    0,
                )
        },
    }
}

proof fn lemma_first_page(v: Seq<embedded::EntryView>, i: int, best: Option<int>)
    requires
        0 <= i <= v.len(),
        first_so_far(v, i, best),
    ensures
        first_so_far(v, v.len() as int, embedded::first_page(v, i, best)),
    decreases v.len() - i,
{
    if i < v.len() {
        let next = if embedded::candidate(v[i]) && (match best {
            Some(b) => text::precedes(
                text::ascii_lower(v[i].name),
                text::ascii_lower(v[b].name),
                0,
            ),
            None => true,
        }) {
            Some(i)
        } else {
            best
        };
        let name = text::ascii_lower(v[i].name);
        order::lemma_precedes(name, name, name, 0);
        if best is Some && next == Some(i) {
            let b = best->0;
            assert forall|k: int|
                0 <= k < i + 1 && embedded::candidate(#[trigger] v[k]) implies !text::precedes(
                text::ascii_lower(v[k].name),
                name,
                0,
            ) by {
                if k < i {
                    order::lemma_precedes(
                        name,
                        text::ascii_lower(v[b].name),
                        text::ascii_lower(v[k].name),
                        0,
                    );
                }
            }
        }
        lemma_first_page(v, i + 1, next);
    }
}

/// The cover of an EPUB is the first picture in it whose name says cover.
pub proof fn lemma_an_epub_gives_the_picture_called_cover(
    data: Seq<u8>,
    files: Seq<Packed>,
    ats: Seq<int>,
    places: Seq<int>,
    end: int,
    k: int,
)
    requires
        archive(data, files, ats, places, end),
        0 <= k < files.len(),
        eligible(files[k]),
        named_so(files[k]),
        pictured(files[k].bytes),
        forall|j: int|
            0 <= j < k ==> !(eligible(#[trigger] files[j]) && named_so(files[j])),
    ensures
        embedded::zip_cover_at(data, false) is Some,
        ({
            let (a, b) = embedded::zip_cover_at(data, false)->0;
            data.subrange(a, b) == files[k].bytes
        }),
{
    lemma_an_archive_lists_its_files(data, files, ats, places, end);
    let v = Seq::new(files.len(), |i: int| entry(files[i], ats[i]));
    assert forall|j: int| 0 <= j < k implies !(embedded::candidate(#[trigger] v[j]) && text::has(
        text::ascii_lower(v[j].name),
        "cover"@,
    )) by {
        assert(!(eligible(files[j]) && named_so(files[j])));
    }
    lemma_named_cover(v, 0, k);
    assert(packable(files[k]) && local(data, ats[k], files[k]));
    lemma_a_stored_picture_is_found(data, ats[k], files[k]);
}

/// Where no name says cover, it is a picture than which none is larger.
pub proof fn lemma_an_epub_gives_its_largest_picture(
    data: Seq<u8>,
    files: Seq<Packed>,
    ats: Seq<int>,
    places: Seq<int>,
    end: int,
) -> (k: int)
    requires
        archive(data, files, ats, places, end),
        exists|j: int| 0 <= j < files.len() && eligible(#[trigger] files[j]),
        forall|j: int| 0 <= j < files.len() && eligible(#[trigger] files[j]) ==> !named_so(
            files[j],
        ) && pictured(files[j].bytes),
    ensures
        0 <= k < files.len(),
        eligible(files[k]),
        forall|j: int|
            0 <= j < files.len() && eligible(#[trigger] files[j]) ==> files[j].bytes.len()
                <= files[k].bytes.len(),
        embedded::zip_cover_at(data, false) is Some,
        ({
            let (a, b) = embedded::zip_cover_at(data, false)->0;
            data.subrange(a, b) == files[k].bytes
        }),
{
    lemma_an_archive_lists_its_files(data, files, ats, places, end);
    let v = Seq::new(files.len(), |i: int| entry(files[i], ats[i]));
    assert forall|j: int| 0 <= j < v.len() implies !(embedded::candidate(#[trigger] v[j])
        && text::has(text::ascii_lower(v[j].name), "cover"@)) by {
        if eligible(files[j]) {
            assert(!named_so(files[j]));
        }
    }
    lemma_no_named_cover(v, 0);
    lemma_largest_entry(v, 0, None);
    let r = embedded::largest_entry(v, 0, None);
    let some = choose|j: int| 0 <= j < files.len() && eligible(#[trigger] files[j]);
    assert(embedded::candidate(v[some]));
    let k = r->0;
    assert(v[k] == entry(files[k], ats[k]));
    assert(eligible(files[k]));
    assert forall|j: int|
        0 <= j < files.len() && eligible(#[trigger] files[j]) implies files[j].bytes.len()
        <= files[k].bytes.len() by {
        assert(embedded::candidate(v[j]));
    }
    assert(packable(files[k]) && local(data, ats[k], files[k]));
    lemma_a_stored_picture_is_found(data, ats[k], files[k]);
    k
}

/// The cover of a comic is its first page: a picture whose name none comes before.
pub proof fn lemma_a_comic_gives_its_first_page(
    data: Seq<u8>,
    files: Seq<Packed>,
    ats: Seq<int>,
    places: Seq<int>,
    end: int,
) -> (k: int)
    requires
        archive(data, files, ats, places, end),
        exists|j: int| 0 <= j < files.len() && eligible(#[trigger] files[j]),
        forall|j: int| 0 <= j < files.len() && eligible(#[trigger] files[j]) ==> pictured(
            files[j].bytes,
        ),
    ensures
        0 <= k < files.len(),
        eligible(files[k]),
        forall|j: int|
            0 <= j < files.len() && eligible(#[trigger] files[j]) ==> !text::precedes(
                text::ascii_lower(embedded::lossy_text(files[j].name)),
                text::ascii_lower(embedded::lossy_text(files[k].name)),
                0,
            ),
        embedded::zip_cover_at(data, true) is Some,
        ({
            let (a, b) = embedded::zip_cover_at(data, true)->0;
            data.subrange(a, b) == files[k].bytes
        }),
{
    lemma_an_archive_lists_its_files(data, files, ats, places, end);
    let v = Seq::new(files.len(), |i: int| entry(files[i], ats[i]));
    lemma_first_page(v, 0, None);
    let r = embedded::first_page(v, 0, None);
    let some = choose|j: int| 0 <= j < files.len() && eligible(#[trigger] files[j]);
    assert(embedded::candidate(v[some]));
    let k = r->0;
    assert(v[k] == entry(files[k], ats[k]));
    assert(eligible(files[k]));
    assert forall|j: int|
        0 <= j < files.len() && eligible(#[trigger] files[j]) implies !text::precedes(
        text::ascii_lower(embedded::lossy_text(files[j].name)),
        text::ascii_lower(embedded::lossy_text(files[k].name)),
        0,
    ) by {
        assert(embedded::candidate(v[j]));
    }
    assert(packable(files[k]) && local(data, ats[k], files[k]));
    lemma_a_stored_picture_is_found(data, ats[k], files[k]);
    k
}

/// Pictures are told by their names: these and no others.
pub proof fn lemma_names_of_pictures(stem: Seq<char>)
    ensures
        embedded::image_name(stem + ".jpg"@),
        embedded::image_name(stem + ".jpeg"@),
        embedded::image_name(stem + ".png"@),
        embedded::image_name(stem + ".gif"@),
        embedded::image_name(stem + ".webp"@),
        embedded::image_name(stem + ".JPG"@),
        embedded::image_name(stem + ".PNG"@),
        !embedded::image_name(stem + ".html"@),
        !embedded::image_name(stem + ".css"@),
{
    reveal_strlit(".jpg");
    reveal_strlit(".jpeg");
    reveal_strlit(".png");
    reveal_strlit(".gif");
    reveal_strlit(".webp");
    reveal_strlit(".JPG");
    reveal_strlit(".PNG");
    reveal_strlit(".html");
    reveal_strlit(".css");
    lemma_suffix(stem, ".jpg"@, ".jpg"@);
    lemma_suffix(stem, ".jpeg"@, ".jpeg"@);
    lemma_suffix(stem, ".png"@, ".png"@);
    lemma_suffix(stem, ".gif"@, ".gif"@);
    lemma_suffix(stem, ".webp"@, ".webp"@);
    lemma_suffix(stem, ".JPG"@, ".jpg"@);
    lemma_suffix(stem, ".PNG"@, ".png"@);
    let a = text::ascii_lower(stem + ".html"@);
    let b = text::ascii_lower(stem + ".css"@);
    assert(a.last() == 'l');
    assert(b.last() == 's');
    lemma_no_suffix(a, ".jpg"@);
    lemma_no_suffix(a, ".jpeg"@);
    lemma_no_suffix(a, ".png"@);
    lemma_no_suffix(a, ".gif"@);
    lemma_no_suffix(a, ".webp"@);
    lemma_no_suffix(b, ".jpg"@);
    lemma_no_suffix(b, ".jpeg"@);
    lemma_no_suffix(b, ".png"@);
    lemma_no_suffix(b, ".gif"@);
    lemma_no_suffix(b, ".webp"@);
}

proof fn lemma_suffix(stem: Seq<char>, written: Seq<char>, suffix: Seq<char>)
    requires
        text::ascii_lower(written) =~= suffix,
        written.len() == suffix.len(),
    ensures
        text::has_suffix(text::ascii_lower(stem + written), suffix),
{
    let l = text::ascii_lower(stem + written);
    assert(l.subrange(l.len() - suffix.len(), l.len() as int) =~= suffix) by {
        assert forall|i: int| 0 <= i < suffix.len() implies l[stem.len() + i] == suffix[i] by {
            assert((stem + written)[stem.len() + i] == written[i]);
            assert(text::ascii_lower(written)[i] == suffix[i]);
        }
    }
}

proof fn lemma_no_suffix(l: Seq<char>, suffix: Seq<char>)
    requires
        suffix.len() > 0,
        l.len() > 0,
        l.last() != suffix.last(),
    ensures
        !text::has_suffix(l, suffix),
{
    if text::has_suffix(l, suffix) {
        assert(l.subrange(l.len() - suffix.len(), l.len() as int).last() == suffix.last());
    }
}

/// The extension of a book decides where its cover is looked for.
pub proof fn lemma_the_extension_decides(file: Seq<char>, data: Seq<u8>)
    ensures
        path::extension_of(file) == Some("epub"@) ==> embedded::cover_at(file, data)
            == embedded::zip_cover_at(data, false),
        path::extension_of(file) == Some("cbz"@) ==> embedded::cover_at(file, data)
            == embedded::zip_cover_at(data, true),
        path::extension_of(file) == Some("mobi"@) ==> embedded::cover_at(file, data)
            == embedded::mobi_cover_at(data),
        path::extension_of(file) == Some("azw3"@) ==> embedded::cover_at(file, data)
            == embedded::mobi_cover_at(data),
        path::extension_of(file) == Some("pdf"@) ==> embedded::cover_at(file, data) is None,
        path::extension_of(file) is None ==> embedded::cover_at(file, data) is None,
{
    reveal_strlit("epub");
    reveal_strlit("cbz");
    reveal_strlit("mobi");
    reveal_strlit("azw");
    reveal_strlit("azw3");
    reveal_strlit("azw4");
    reveal_strlit("prc");
    reveal_strlit("pdf");
    assert("epub"@.len() == 4 && "cbz"@.len() == 3 && "mobi"@.len() == 4 && "azw"@.len() == 3);
    assert("azw3"@.len() == 4 && "azw4"@.len() == 4 && "prc"@.len() == 3);
    assert("epub"@[0] == 'e' && "cbz"@[0] == 'c' && "mobi"@[0] == 'm' && "pdf"@[0] == 'p');
    assert("azw"@[0] == 'a' && "azw3"@[0] == 'a' && "azw4"@[0] == 'a' && "prc"@[0] == 'p');
    assert("pdf"@[1] == 'd' && "prc"@[1] == 'r' && "azw3"@[3] == '3' && "azw4"@[3] == '4');
    assert(text::ascii_lower("epub"@) =~= "epub"@);
    assert(text::ascii_lower("cbz"@) =~= "cbz"@);
    assert(text::ascii_lower("mobi"@) =~= "mobi"@);
    assert(text::ascii_lower("azw3"@) =~= "azw3"@);
    assert(text::ascii_lower("pdf"@) =~= "pdf"@);
}

} // verus!
