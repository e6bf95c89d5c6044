//! Pulling a book's own cover out of the file you already downloaded.
//!
//! A search result carries no cover, so on the Search tab one is fetched from a
//! mirror. But a book on disk usually ships its jacket inside it: an EPUB is a
//! zip with the image as an entry, a MOBI embeds it as a record pointed at by
//! the metadata. So the Library tab needs no network at all: it reads the file
//! it already has.
//!
//! Everything here treats the file as ragged input. Every offset and length is
//! checked against the file, nothing is decoded in place, and a malformed or
//! truncated file yields nothing. What comes back is a run of the file's own
//! bytes, and only if it opens with an image signature.

use vstd::prelude::*;
use vstd::slice::slice_subrange;
use vstd::string::*;

use crate::bytes::copied;
use crate::cover;
use crate::cover::{image_kind, Cover};
use crate::path;
use crate::text;
use crate::text::{contains, ends_with, same, to_ascii_lower};

verus! {

/// A book file is not a thumbnail store; a cover past this is not a cover.
pub const MAX_IMAGE_BYTES: usize = 8_388_608;

/// Read no more than this off disk. Comfortably larger than any ebook we mean
/// to open, and a hard ceiling against a file that claims to be enormous.
pub const MAX_FILE_BYTES: u64 = 100_663_296;

// ---------------------------------------------------------------------------
// Numbers in a file, least or most significant byte first
// ---------------------------------------------------------------------------

pub open spec fn be16_at(b: Seq<u8>, at: int) -> Option<int> {
    if 0 <= at && at + 2 <= b.len() {
        Some(b[at] * 256 + b[at + 1])
    } else {
        None
    }
}

pub open spec fn be32_at(b: Seq<u8>, at: int) -> Option<int> {
    if 0 <= at && at + 4 <= b.len() {
        Some(b[at] * 0x100_0000 + b[at + 1] * 0x1_0000 + b[at + 2] * 0x100 + b[at + 3])
    } else {
        None
    }
}

pub open spec fn le16_at(b: Seq<u8>, at: int) -> Option<int> {
    if 0 <= at && at + 2 <= b.len() {
        Some(b[at] + b[at + 1] * 256)
    } else {
        None
    }
}

pub open spec fn le32_at(b: Seq<u8>, at: int) -> Option<int> {
    if 0 <= at && at + 4 <= b.len() {
        Some(b[at] + b[at + 1] * 0x100 + b[at + 2] * 0x1_0000 + b[at + 3] * 0x100_0000)
    } else {
        None
    }
}

pub open spec fn number(r: Option<u64>) -> Option<int> {
    match r {
        Some(n) => Some(n as int),
        None => None,
    }
}

fn be_u16(b: &[u8], at: u64) -> (r: Option<u64>)
    ensures
        number(r) == be16_at(b@, at as int),
        r is Some ==> r->0 < 0x1_0000,
{
    let n: usize = b.len();
    if at as u128 + 2 > n as u128 {
        return None;
    }
    let i = at as usize;
    Some(b[i] as u64 * 256 + b[i + 1] as u64)
}

fn be_u32(b: &[u8], at: u64) -> (r: Option<u64>)
    ensures
        number(r) == be32_at(b@, at as int),
        r is Some ==> r->0 < 0x1_0000_0000,
{
    let n: usize = b.len();
    if at as u128 + 4 > n as u128 {
        return None;
    }
    let i = at as usize;
    Some(
        b[i] as u64 * 0x100_0000 + b[i + 1] as u64 * 0x1_0000 + b[i + 2] as u64 * 0x100 + b[i
            + 3] as u64,
    )
}

fn le_u16(b: &[u8], at: u64) -> (r: Option<u64>)
    ensures
        number(r) == le16_at(b@, at as int),
        r is Some ==> r->0 < 0x1_0000,
{
    let n: usize = b.len();
    if at as u128 + 2 > n as u128 {
        return None;
    }
    let i = at as usize;
    Some(b[i] as u64 + b[i + 1] as u64 * 256)
}

fn le_u32(b: &[u8], at: u64) -> (r: Option<u64>)
    ensures
        number(r) == le32_at(b@, at as int),
        r is Some ==> r->0 < 0x1_0000_0000,
{
    let n: usize = b.len();
    if at as u128 + 4 > n as u128 {
        return None;
    }
    let i = at as usize;
    Some(
        b[i] as u64 + b[i + 1] as u64 * 0x100 + b[i + 2] as u64 * 0x1_0000 + b[i + 3] as u64
            * 0x100_0000,
    )
}

/// A run of a file's bytes that opens with an image signature we would keep.
pub open spec fn image_run(data: Seq<u8>, from: int, to: int) -> bool {
    0 <= from <= to <= data.len() && cover::kind_of(data.subrange(from, to)) is Some
}

fn is_image(data: &[u8], from: usize, to: usize) -> (r: bool)
    requires
        from <= to <= data@.len(),
    ensures
        r == image_run(data@, from as int, to as int),
{
    image_kind(slice_subrange(data, from, to)).is_some()
}

pub open spec fn run(r: Option<(usize, usize)>) -> Option<(int, int)> {
    match r {
        Some((a, b)) => Some((a as int, b as int)),
        None => None,
    }
}

// ---------------------------------------------------------------------------
// MOBI / AZW
//
// A MOBI is a Palm database (PDB): a header, a table of record offsets, then
// the records themselves. Record 0 holds the PalmDOC and MOBI headers and, in
// most files, an EXTH block of typed metadata. EXTH record 201 gives the cover
// as an index into the run of image records at the end of the file.
// ---------------------------------------------------------------------------

/// Offset into record 0, past the 16-byte PalmDOC header.
pub const MOBI_MAGIC_AT: usize = 16;

/// EXTH tag whose value is the cover's index among the image records.
pub const EXTH_COVER: u64 = 201;

/// No real book has anywhere near this many records.
pub const MAX_RECORDS: u64 = 65_000;

pub const MAX_TAGS: u64 = 4096;

/// How far into record 0 the EXTH block is looked for.
pub const EXTH_WINDOW: usize = 8192;

/// Where record `i` of `count` stands in a file.
pub open spec fn record_at(data: Seq<u8>, count: int, i: int) -> Option<(int, int)> {
    let next = if i + 1 < count {
        be32_at(data, 78 + (i + 1) * 8)
    } else {
        Some(data.len() as int)
    };
    match (be32_at(data, 78 + i * 8), next) {
        (Some(start), Some(end)) => if start > data.len() {
            None
        } else if end < start {
            Some((start, start))
        } else if end > data.len() {
            Some((start, data.len() as int))
        } else {
            Some((start, end))
        },
        _ => None,
    }
}

/// Where record `i` stands, if it is an image.
pub open spec fn image_at(data: Seq<u8>, count: int, i: int) -> Option<(int, int)> {
    match record_at(data, count, i) {
        Some((a, b)) => if image_run(data, a, b) {
            Some((a, b))
        } else {
            None
        },
        None => None,
    }
}

/// The first record from `i` on that is an image.
pub open spec fn first_image_from(data: Seq<u8>, count: int, i: int) -> Option<int>
    decreases count - i,
{
    if i >= count {
        None
    } else if image_at(data, count, i) is Some {
        Some(i)
    } else {
        first_image_from(data, count, i + 1)
    }
}

/// The largest image among one at hand and the records from `i` on; of equals,
/// the last.
pub open spec fn largest_image_from(
    data: Seq<u8>,
    count: int,
    i: int,
    best: Option<(int, int)>,
) -> Option<(int, int)>
    decreases count - i,
{
    if i >= count {
        best
    } else {
        let next = match (image_at(data, count, i), best) {
            (None, _) => best,
            (Some(r), None) => Some(r),
            (Some(r), Some(b)) => if r.1 - r.0 >= b.1 - b.0 {
                Some(r)
            } else {
                Some(b)
            },
        };
        largest_image_from(data, count, i + 1, next)
    }
}

pub open spec fn four_at(b: Seq<u8>, at: int, w: Seq<u8>) -> bool {
    0 <= at && at + 4 <= b.len() && b[at] == w[0] && b[at + 1] == w[1] && b[at + 2] == w[2] && b[at
        + 3] == w[3]
}

/// `MOBI`.
pub open spec fn mobi_word() -> Seq<u8> {
    seq![0x4Du8, 0x4Fu8, 0x42u8, 0x49u8]
}

/// `EXTH`.
pub open spec fn exth_word() -> Seq<u8> {
    seq![0x45u8, 0x58u8, 0x54u8, 0x48u8]
}

/// Where `EXTH` first stands from `i` on, within a bounded window so that a
/// pathological file cannot make this slow.
pub open spec fn exth_from(rec: Seq<u8>, i: int) -> Option<int>
    decreases rec.len() - i,
{
    if i + 4 > rec.len() || i + 4 > EXTH_WINDOW {
        None
    } else if four_at(rec, i, exth_word()) {
        Some(i)
    } else {
        exth_from(rec, i + 1)
    }
}

/// The cover's index among the EXTH tags from position `p` on, `left` of them.
/// A tag shorter than its own header means the block is corrupt.
pub open spec fn tag_from(rec: Seq<u8>, p: int, left: nat) -> Option<int>
    decreases left,
{
    if left == 0 {
        None
    } else {
        match (be32_at(rec, p), be32_at(rec, p + 4)) {
            (Some(kind), Some(len)) => if len < 8 {
                None
            } else if kind == EXTH_COVER {
                be32_at(rec, p + 8)
            } else {
                tag_from(rec, p + len, (left - 1) as nat)
            },
            _ => None,
        }
    }
}

/// The cover index from record 0's EXTH block, if it carries one. The block is
/// located by signature, which avoids depending on the header-length field being
/// right.
pub open spec fn cover_index(rec: Seq<u8>) -> Option<int> {
    match exth_from(rec, 0) {
        None => None,
        Some(e) => match be32_at(rec, e + 8) {
            None => None,
            Some(n) => tag_from(
                rec,
                e + 12,
                if n < MAX_TAGS {
                    n as nat
                } else {
                    MAX_TAGS as nat
                },
            ),
        },
    }
}

/// Where the cover stands in a MOBI: the one the metadata names, or the largest
/// image, which is what a cover almost always is among a book's figures.
pub open spec fn mobi_cover_at(data: Seq<u8>) -> Option<(int, int)> {
    match be16_at(data, 76) {
        None => None,
        Some(count) => if count == 0 || count > MAX_RECORDS {
            None
        } else {
            match record_at(data, count, 0) {
                None => None,
                Some((a, b)) => {
                    let rec0 = data.subrange(a, b);
                    if !four_at(rec0, MOBI_MAGIC_AT as int, mobi_word()) {
                        None
                    } else {
                        match first_image_from(data, count, 0) {
                            None => None,
                            Some(first) => {
                                let named = match cover_index(rec0) {
                                    Some(i) => image_at(data, count, first + i),
                                    None => None,
                                };
                                if named is Some {
                                    named
                                } else {
                                    largest_image_from(data, count, first, None)
                                }
                            },
                        }
                    }
                },
            }
        },
    }
}

fn record(data: &[u8], count: u64, i: u64) -> (r: Option<(usize, usize)>)
    requires
        count <= MAX_RECORDS,
        i <= 0x1_0001_0000,
    ensures
        run(r) == record_at(data@, count as int, i as int),
        match r {
            Some((a, b)) => a <= b <= data@.len(),
            None => true,
        },
{
    let n: usize = data.len();
    let start = match be_u32(data, 78 + i * 8) {
        Some(s) => s,
        None => {
            return None;
        },
    };
    let end: u64 = if i + 1 < count {
        match be_u32(data, 78 + (i + 1) * 8) {
            Some(e) => e,
            None => {
                return None;
            },
        }
    } else {
        n as u64
    };
    if start > n as u64 {
        None
    } else if end < start {
        Some((start as usize, start as usize))
    } else if end > n as u64 {
        Some((start as usize, n))
    } else {
        Some((start as usize, end as usize))
    }
}

fn image_record(data: &[u8], count: u64, i: u64) -> (r: Option<(usize, usize)>)
    requires
        count <= MAX_RECORDS,
        i <= 0x1_0001_0000,
    ensures
        run(r) == image_at(data@, count as int, i as int),
        match r {
            Some((a, b)) => a <= b <= data@.len(),
            None => true,
        },
{
    match record(data, count, i) {
        Some((a, b)) => {
            if is_image(data, a, b) {
                Some((a, b))
            } else {
                None
            }
        },
        None => None,
    }
}

/// The cover index from record 0's EXTH block, if it carries one.
pub fn exth_cover_index(rec0: &[u8]) -> (r: Option<u64>)
    ensures
        number(r) == cover_index(rec0@),
        r is Some ==> r->0 < 0x1_0000_0000,
{
    let exth = match find_exth(rec0) {
        Some(e) => e as u64,
        None => {
            return None;
        },
    };
    let entries = match be_u32(rec0, exth + 8) {
        Some(n) => n,
        None => {
            return None;
        },
    };
    let mut left: u64 = if entries < MAX_TAGS {
        entries
    } else {
        MAX_TAGS
    };
    let mut p: u64 = exth + 12;
    let ghost total = left;
    while left > 0
        invariant
            left <= total <= 4096,
            p <= 0x1_0000 + 0x1_0000_0000 * (total - left),
            tag_from(rec0@, p as int, left as nat) == cover_index(rec0@),
        decreases left,
    {
        let kind = match be_u32(rec0, p) {
            Some(k) => k,
            None => {
                return None;
            },
        };
        let len = match be_u32(rec0, p + 4) {
            Some(n) => n,
            None => {
                return None;
            },
        };
        if len < 8 {
            return None;
        }
        if kind == EXTH_COVER {
            return be_u32(rec0, p + 8);
        }
        p = p + len;
        left -= 1;
    }
    None
}

fn find_exth(rec: &[u8]) -> (r: Option<usize>)
    ensures
        exth_from(rec@, 0) == (match r {
            Some(i) => Some(i as int),
            None => None,
        }),
        r is Some ==> r->0 <= EXTH_WINDOW,
{
    let n: usize = rec.len();
    let mut i: usize = 0;
    while i < n && n - i >= 4 && i <= 8188
        invariant
            i <= n,
            n == rec@.len(),
            exth_from(rec@, i as int) == exth_from(rec@, 0),
        decreases n - i,
    {
        if rec[i] == 0x45 && rec[i + 1] == 0x58 && rec[i + 2] == 0x54 && rec[i + 3] == 0x48 {
            return Some(i);
        }
        i += 1;
    }
    None
}

/// The largest image from record `first` on.
fn largest_image(data: &[u8], count: u64, first: u64) -> (r: Option<(usize, usize)>)
    requires
        first <= count <= MAX_RECORDS,
    ensures
        run(r) == largest_image_from(data@, count as int, first as int, None),
        match r {
            Some((a, b)) => a <= b <= data@.len(),
            None => true,
        },
{
    let mut best: Option<(usize, usize)> = None;
    let mut i: u64 = first;
    while i < count
        invariant
            i <= count <= MAX_RECORDS,
            match best {
                Some((a, b)) => a <= b <= data@.len(),
                None => true,
            },
            largest_image_from(data@, count as int, i as int, run(best)) == largest_image_from(
                data@,
                count as int,
                first as int,
                None,
            ),
        decreases count - i,
    {
        match image_record(data, count, i) {
            None => {},
            Some((a, b)) => {
                best = match best {
                    None => Some((a, b)),
                    Some((c, d)) => if b - a >= d - c {
                        Some((a, b))
                    } else {
                        Some((c, d))
                    },
                };
            },
        }
        i += 1;
    }
    best
}

/// Where the cover stands in a MOBI.
pub fn mobi_cover(data: &[u8]) -> (r: Option<(usize, usize)>)
    ensures
        run(r) == mobi_cover_at(data@),
        match r {
            Some((a, b)) => a <= b <= data@.len(),
            None => true,
        },
{
    // PDB record table: a count at 76, then one u32 offset per record at 78.
    let count = match be_u16(data, 76) {
        Some(c) => c,
        None => {
            return None;
        },
    };
    if count == 0 || count > MAX_RECORDS {
        return None;
    }
    let (a, b) = match record(data, count, 0) {
        Some(r) => r,
        None => {
            return None;
        },
    };
    let rec0 = slice_subrange(data, a, b);
    if rec0.len() < 20 || rec0[16] != 0x4D || rec0[17] != 0x4F || rec0[18] != 0x42 || rec0[19]
        != 0x49 {
        return None;
    }
    // The image records sit at the end as a contiguous run; find where it
    // starts rather than trusting the header field, which is often unset.
    let mut first: u64 = 0;
    while first < count && image_record(data, count, first).is_none()
        invariant
            first <= count <= MAX_RECORDS,
            first_image_from(data@, count as int, first as int) == first_image_from(
                data@,
                count as int,
                0,
            ),
        decreases count - first,
    {
        first += 1;
    }
    if first == count {
        return None;
    }
    assert(first_image_from(data@, count as int, first as int) == Some(first as int));
    match exth_cover_index(rec0) {
        Some(i) => {
            let named = image_record(data, count, first + i);
            if named.is_some() {
                return named;
            }
        },
        None => {},
    }
    largest_image(data, count, first)
}

// ---------------------------------------------------------------------------
// EPUB / CBZ (zip)
//
// A zip is read from the back: the End Of Central Directory record points at
// the central directory, whose entries name every file and where each begins.
// Nothing is ever inflated: the cover image inside an EPUB is itself already
// compressed (JPEG/PNG) and so is almost always *stored*, and a stored entry is
// just a run of the file. An entry that turns out to be deflated is skipped.
// ---------------------------------------------------------------------------

pub const EOCD_SIG: u64 = 0x0605_4b50;

pub const CENTRAL_SIG: u64 = 0x0201_4b50;

pub const LOCAL_SIG: u64 = 0x0403_4b50;

pub const STORED: u16 = 0;

pub const MAX_ENTRIES: u64 = 16_384;

/// The EOCD is 22 bytes plus a comment of up to 64 KB.
pub const EOCD_WINDOW: usize = 65_557;

/// Text out of bytes that may not all be UTF-8, as `String::from_utf8_lossy`
/// reads it.
pub uninterp spec fn lossy_text(b: Seq<u8>) -> Seq<char>;

/// `String::from_utf8_lossy`: bytes that are UTF-8 give the text they encode.
/// What stands in for those that are not is left to the name.
#[verifier::external_body]
fn from_utf8_lossy(b: &[u8]) -> (r: String)
    ensures
        r@ == lossy_text(b@),
        vstd::utf8::valid_utf8(b@) ==> r@ == vstd::utf8::decode_utf8(b@),
{
    String::from_utf8_lossy(b).into_owned()
}

/// One file inside the archive: its name and its raw bytes' location.
#[derive(Debug)]
pub struct ZipEntry {
    pub name: String,
    pub method: u16,
    pub local_header: u32,
    pub size: u32,
}

pub struct EntryView {
    pub name: Seq<char>,
    pub method: int,
    pub local_header: int,
    pub size: int,
}

impl View for ZipEntry {
    type V = EntryView;

    open spec fn view(&self) -> EntryView {
        EntryView {
            name: self.name@,
            method: self.method as int,
            local_header: self.local_header as int,
            size: self.size as int,
        }
    }
}

pub open spec fn entry_views(v: Seq<ZipEntry>) -> Seq<EntryView> {
    v.map_values(|e: ZipEntry| e@)
}

/// The last place before `i` and not before `start` where the End Of Central
/// Directory record's signature stands.
pub open spec fn eocd_before(data: Seq<u8>, start: int, i: int) -> Option<int>
    decreases i - start,
{
    if i <= start {
        None
    } else if le32_at(data, i - 1) == Some(EOCD_SIG as int) {
        Some(i - 1)
    } else {
        eocd_before(data, start, i - 1)
    }
}

/// Where the End Of Central Directory record stands, near the file's tail.
pub open spec fn eocd_at(data: Seq<u8>) -> Option<int> {
    let start = if data.len() > EOCD_WINDOW {
        data.len() - EOCD_WINDOW
    } else {
        0
    };
    eocd_before(data, start, data.len() as int)
}

/// The name of a central directory entry; one that runs past the file is empty.
pub open spec fn entry_name(data: Seq<u8>, from: int, len: int) -> Seq<char> {
    if from + len <= data.len() {
        lossy_text(data.subrange(from, from + len))
    } else {
        seq![]
    }
}

/// The entries of a central directory once those from position `p` on, at most
/// `left` of them, come after the ones before. An entry that is cut short spoils
/// the directory; one without its signature ends it.
pub open spec fn entries_from(
    data: Seq<u8>,
    p: int,
    left: nat,
    before: Seq<EntryView>,
) -> Option<Seq<EntryView>>
    decreases left,
{
    if left == 0 {
        Some(before)
    } else {
        match le32_at(data, p) {
            None => None,
            Some(sig) => if sig != CENTRAL_SIG {
                Some(before)
            } else if p + 46 > data.len() {
                None
            } else {
                let name = le16_at(data, p + 28)->0;
                let extra = le16_at(data, p + 30)->0;
                let comment = le16_at(data, p + 32)->0;
                entries_from(
                    data,
                    p + (46 + name + extra + comment),
                    (left - 1) as nat,
                    before.push(
                        EntryView {
                            name: entry_name(data, p + 46, name),
                            method: le16_at(data, p + 10)->0,
                            local_header: le32_at(data, p + 42)->0,
                            size: le32_at(data, p + 20)->0,
                        },
                    ),
                )
            },
        }
    }
}

/// The entries of a zip; an empty one counts as none.
pub open spec fn entries_of(data: Seq<u8>) -> Option<Seq<EntryView>> {
    match eocd_at(data) {
        None => None,
        Some(e) => match (le16_at(data, e + 10), le32_at(data, e + 16)) {
            (Some(count), Some(p)) => match entries_from(
                data,
                p,
                if count < MAX_ENTRIES {
                    count as nat
                } else {
                    MAX_ENTRIES as nat
                },
                seq![],
            ) {
                Some(list) => if list.len() == 0 {
                    None
                } else {
                    Some(list)
                },
                None => None,
            },
            _ => None,
        },
    }
}

/// Where the bytes of a stored entry stand, if they are an image. The local
/// header repeats the name and extra fields with its own lengths.
pub open spec fn stored_at(data: Seq<u8>, e: EntryView) -> Option<(int, int)> {
    let h = e.local_header;
    match (le32_at(data, h), le16_at(data, h + 26), le16_at(data, h + 28)) {
        (Some(sig), Some(name), Some(extra)) => {
            let start = h + 30 + name + extra;
            if e.method == STORED && sig == LOCAL_SIG && image_run(data, start, start + e.size) {
                Some((start, start + e.size))
            } else {
                None
            }
        },
        _ => None,
    }
}

pub open spec fn image_name(name: Seq<char>) -> bool {
    let l = text::ascii_lower(name);
    text::has_suffix(l, ".jpg"@) || text::has_suffix(l, ".jpeg"@) || text::has_suffix(l, ".png"@)
        || text::has_suffix(l, ".gif"@) || text::has_suffix(l, ".webp"@)
}

/// A stored entry whose name says image.
pub open spec fn candidate(e: EntryView) -> bool {
    e.method == STORED && image_name(e.name)
}

/// The first candidate from `i` on whose path says "cover".
pub open spec fn named_cover(v: Seq<EntryView>, i: int) -> Option<int>
    decreases v.len() - i,
{
    if i >= v.len() {
        None
    } else if candidate(v[i]) && text::has(text::ascii_lower(v[i].name), "cover"@) {
        Some(i)
    } else {
        named_cover(v, i + 1)
    }
}

/// The largest of one at hand and the candidates from `i` on; of equals, the
/// last.
pub open spec fn largest_entry(v: Seq<EntryView>, i: int, best: Option<int>) -> Option<int>
    decreases v.len() - i,
{
    if i >= v.len() {
        best
    } else {
        largest_entry(
            v,
            i + 1,
            if candidate(v[i]) && (match best {
                Some(b) => v[i].size >= v[b].size,
                None => true,
            }) {
                Some(i)
            } else {
                best
            },
        )
    }
}

/// The cover among an EPUB's entries.
///
/// Reading the OPF manifest to find the declared cover would mean inflating the
/// package document, so instead it goes by name: an image whose path says
/// "cover" wins, and failing that the largest stored image, which is
/// overwhelmingly the jacket rather than an inline figure.
pub open spec fn epub_pick(v: Seq<EntryView>) -> Option<int> {
    match named_cover(v, 0) {
        Some(i) => Some(i),
        None => largest_entry(v, 0, None),
    }
}

/// The first, in the order of their names, of one at hand and the candidates
/// from `i` on; of equals, the first.
pub open spec fn first_page(v: Seq<EntryView>, i: int, best: Option<int>) -> Option<int>
    decreases v.len() - i,
{
    if i >= v.len() {
        best
    } else {
        first_page(
            v,
            i + 1,
            if candidate(v[i]) && (match best {
                Some(b) => text::precedes(
                    text::ascii_lower(v[i].name),
                    text::ascii_lower(v[b].name),
                    0,
                ),
                None => true,
            }) {
                Some(i)
            } else {
                best
            },
        )
    }
}

/// Where the cover stands in a zip: a comic archive is pages in order, and its
/// first image is the cover.
pub open spec fn zip_cover_at(data: Seq<u8>, comic: bool) -> Option<(int, int)> {
    match entries_of(data) {
        None => None,
        Some(v) => match (if comic {
            first_page(v, 0, None)
        } else {
            epub_pick(v)
        }) {
            Some(i) => stored_at(data, v[i]),
            None => None,
        },
    }
}

fn find_eocd(data: &[u8]) -> (r: Option<usize>)
    ensures
        eocd_at(data@) == (match r {
            Some(i) => Some(i as int),
            None => None,
        }),
        r is Some ==> r->0 < data@.len(),
{
    let n: usize = data.len();
    let start: usize = if n > EOCD_WINDOW {
        n - EOCD_WINDOW
    } else {
        0
    };
    let mut i: usize = n;
    while i > start
        invariant
            start <= i <= n,
            n == data@.len(),
            eocd_before(data@, start as int, i as int) == eocd_at(data@),
        decreases i - start,
    {
        match le_u32(data, (i - 1) as u64) {
            Some(sig) => {
                if sig == EOCD_SIG {
                    return Some(i - 1);
                }
            },
            None => {},
        }
        i -= 1;
    }
    None
}

/// One entry of the central directory, and how long it is.
fn read_entry(data: &[u8], p: u64) -> (r: (ZipEntry, u64))
    requires
        p + 46 <= data@.len(),
    ensures
        r.0@ == (EntryView {
            name: entry_name(data@, p + 46, le16_at(data@, p + 28)->0),
            method: le16_at(data@, p + 10)->0,
            local_header: le32_at(data@, p + 42)->0,
            size: le32_at(data@, p + 20)->0,
        }),
        r.1 == 46 + le16_at(data@, p + 28)->0 + le16_at(data@, p + 30)->0 + le16_at(
            data@,
            p + 32,
        )->0,
        r.1 <= 0x4_0000,
{
    let n: usize = data.len();
    let method = or_zero(le_u16(data, p + 10)) as u16;
    let size = or_zero(le_u32(data, p + 20)) as u32;
    let name_len = or_zero(le_u16(data, p + 28));
    let extra_len = or_zero(le_u16(data, p + 30));
    let comment_len = or_zero(le_u16(data, p + 32));
    let local_header = or_zero(le_u32(data, p + 42)) as u32;
    let from = (p + 46) as usize;
    let name = if name_len <= (n - from) as u64 {
        from_utf8_lossy(slice_subrange(data, from, from + name_len as usize))
    } else {
        String::new()
    };
    (ZipEntry { name, method, local_header, size }, 46 + name_len + extra_len + comment_len)
}

fn or_zero(n: Option<u64>) -> (r: u64)
    ensures
        n is Some ==> r == n->0,
        n is None ==> r == 0,
{
    match n {
        Some(n) => n,
        None => 0,
    }
}

/// Walk the central directory into a list of entries.
pub fn zip_entries(data: &[u8]) -> (r: Option<Vec<ZipEntry>>)
    ensures
        entries_of(data@) == (match r {
            Some(v) => Some(entry_views(v@)),
            None => None,
        }),
{
    let n: usize = data.len();
    let eocd = match find_eocd(data) {
        Some(e) => e as u64,
        None => {
            return None;
        },
    };
    if n as u64 - eocd < 20 {
        return None;
    }
    let count = or_zero(le_u16(data, eocd + 10));
    let mut p: u64 = or_zero(le_u32(data, eocd + 16));
    let mut left: u64 = if count < MAX_ENTRIES {
        count
    } else {
        MAX_ENTRIES
    };
    let mut out: Vec<ZipEntry> = Vec::new();
    let ghost total = left;
    let ghost goal = entries_from(data@, p as int, left as nat, seq![]);
    assert(entry_views(out@) =~= seq![]);
    while left > 0
        invariant_except_break
            entries_from(data@, p as int, left as nat, entry_views(out@)) == goal,
        invariant
            n == data@.len(),
            left <= total <= 16_384,
            p <= 0x1_0000_0000 + 0x4_0000 * (total - left),
            entries_of(data@) == (match goal {
                Some(list) => if list.len() == 0 {
                    None
                } else {
                    Some(list)
                },
                None => None,
            }),
        ensures
            goal == Some(entry_views(out@)),
        decreases left,
    {
        let sig = match le_u32(data, p) {
            Some(s) => s,
            None => {
                return None;
            },
        };
        if sig != CENTRAL_SIG {
            break;
        }
        if p + 46 > n as u64 {
            return None;
        }
        let (entry, length) = read_entry(data, p);
        let ghost before = out@;
        let ghost e = entry@;
        out.push(entry);
        assert(entry_views(out@) =~= entry_views(before).push(e));
        p = p + length;
        left -= 1;
    }
    if out.len() == 0 {
        return None;
    }
    Some(out)
}

/// The bytes of a stored entry, where they stand in the file.
pub fn read_stored(data: &[u8], entry: &ZipEntry) -> (r: Option<(usize, usize)>)
    ensures
        run(r) == stored_at(data@, entry@),
        match r {
            Some((a, b)) => a <= b <= data@.len(),
            None => true,
        },
{
    let n: usize = data.len();
    if entry.method != STORED {
        return None;
    }
    let h = entry.local_header as u64;
    let sig = match le_u32(data, h) {
        Some(s) => s,
        None => {
            return None;
        },
    };
    if sig != LOCAL_SIG {
        return None;
    }
    let name_len = match le_u16(data, h + 26) {
        Some(s) => s,
        None => {
            return None;
        },
    };
    let extra_len = match le_u16(data, h + 28) {
        Some(s) => s,
        None => {
            return None;
        },
    };
    let start: u64 = h + 30 + name_len + extra_len;
    let end: u64 = start + entry.size as u64;
    if end > n as u64 {
        return None;
    }
    if is_image(data, start as usize, end as usize) {
        Some((start as usize, end as usize))
    } else {
        None
    }
}

pub fn is_image_name(name: &str) -> (r: bool)
    ensures
        r == image_name(name@),
{
    let lower = to_ascii_lower(name);
    ends_with(&lower, ".jpg") || ends_with(&lower, ".jpeg") || ends_with(&lower, ".png")
        || ends_with(&lower, ".gif") || ends_with(&lower, ".webp")
}

fn is_candidate(e: &ZipEntry) -> (r: bool)
    ensures
        r == candidate(e@),
{
    e.method == STORED && is_image_name(&e.name)
}

pub open spec fn place(r: Option<usize>) -> Option<int> {
    match r {
        Some(i) => Some(i as int),
        None => None,
    }
}

/// Choose the cover among an EPUB's entries.
pub fn epub_cover(entries: &Vec<ZipEntry>) -> (r: Option<usize>)
    ensures
        place(r) == epub_pick(entry_views(entries@)),
        r is Some ==> r->0 < entries@.len(),
{
    let ghost v = entry_views(entries@);
    let mut i: usize = 0;
    while i < entries.len()
        invariant
            i <= entries@.len(),
            v == entry_views(entries@),
            named_cover(v, i as int) == named_cover(v, 0),
        decreases entries@.len() - i,
    {
        if is_candidate(&entries[i]) && contains(&to_ascii_lower(&entries[i].name), "cover") {
            return Some(i);
        }
        i += 1;
    }
    let mut best: Option<usize> = None;
    let mut i: usize = 0;
    while i < entries.len()
        invariant
            i <= entries@.len(),
            v == entry_views(entries@),
            best is Some ==> best->0 < entries@.len(),
            largest_entry(v, i as int, place(best)) == largest_entry(v, 0, None),
        decreases entries@.len() - i,
    {
        if is_candidate(&entries[i]) {
            let larger = match best {
                Some(b) => entries[i].size >= entries[b].size,
                None => true,
            };
            if larger {
                best = Some(i);
            }
        }
        i += 1;
    }
    best
}

/// The first page of a comic archive, in the order a reader would show them.
pub fn comic_first_image(entries: &Vec<ZipEntry>) -> (r: Option<usize>)
    ensures
        place(r) == first_page(entry_views(entries@), 0, None),
        r is Some ==> r->0 < entries@.len(),
{
    let ghost v = entry_views(entries@);
    let mut best: Option<usize> = None;
    let mut i: usize = 0;
    while i < entries.len()
        invariant
            i <= entries@.len(),
            v == entry_views(entries@),
            best is Some ==> best->0 < entries@.len(),
            first_page(v, i as int, place(best)) == first_page(v, 0, None),
        decreases entries@.len() - i,
    {
        if is_candidate(&entries[i]) {
            let sooner = match best {
                Some(b) => text::comes_first(
                    &to_ascii_lower(&entries[i].name),
                    &to_ascii_lower(&entries[b].name),
                ),
                None => true,
            };
            if sooner {
                best = Some(i);
            }
        }
        i += 1;
    }
    best
}

/// Where the cover stands in a zip.
pub fn zip_cover(data: &[u8], ext: &str) -> (r: Option<(usize, usize)>)
    ensures
        run(r) == zip_cover_at(data@, ext@ == "cbz"@),
        match r {
            Some((a, b)) => a <= b <= data@.len(),
            None => true,
        },
{
    let entries = match zip_entries(data) {
        Some(v) => v,
        None => {
            return None;
        },
    };
    let pick = if same(ext, "cbz") {
        comic_first_image(&entries)
    } else {
        epub_cover(&entries)
    };
    match pick {
        Some(i) => read_stored(data, &entries[i]),
        None => None,
    }
}

// ---------------------------------------------------------------------------
// Any book
// ---------------------------------------------------------------------------

/// The extension that says what container a file is.
pub open spec fn container(file: Seq<char>) -> Seq<char> {
    match path::extension_of(file) {
        Some(e) => text::ascii_lower(e),
        None => seq![],
    }
}

/// Where the cover stands in a book file. The container is what decides how to
/// look, not the contents.
pub open spec fn cover_at(file: Seq<char>, data: Seq<u8>) -> Option<(int, int)> {
    let ext = container(file);
    if ext == "epub"@ || ext == "cbz"@ {
        zip_cover_at(data, ext == "cbz"@)
    } else if ext == "mobi"@ || ext == "azw"@ || ext == "azw3"@ || ext == "azw4"@ || ext == "prc"@ {
        mobi_cover_at(data)
    } else {
        None
    }
}

/// The cover carried inside a book file, if it has one this can reach.
pub open spec fn carried(file: Seq<char>, data: Seq<u8>) -> Option<cover::CoverView> {
    if data.len() > MAX_FILE_BYTES {
        None
    } else {
        match cover_at(file, data) {
            Some((a, b)) => if b - a > MAX_IMAGE_BYTES {
                None
            } else {
                cover::classified(data.subrange(a, b))
            },
            None => None,
        }
    }
}

/// True when a file is too large to be read for its cover: something the size
/// of a disk image is not slurped into memory.
pub fn too_large(len: u64) -> (r: bool)
    ensures
        r == (len > MAX_FILE_BYTES),
{
    len > MAX_FILE_BYTES
}

/// The cover carried inside a book file, if it has one this can reach. An
/// unknown or coverless format has none.
pub fn cover(file: &str, data: &[u8]) -> (r: Option<Cover>)
    ensures
        cover::cover_view(r) == carried(file@, data@),
{
    if too_large(data.len() as u64) {
        return None;
    }
    let ext = match path::extension(file) {
        Some(e) => to_ascii_lower(&e),
        None => String::new(),
    };
    let found = if same(&ext, "epub") || same(&ext, "cbz") {
        zip_cover(data, &ext)
    } else if same(&ext, "mobi") || same(&ext, "azw") || same(&ext, "azw3") || same(&ext, "azw4")
        || same(&ext, "prc") {
        mobi_cover(data)
    } else {
        None
    };
    match found {
        Some((a, b)) => {
            if b - a > MAX_IMAGE_BYTES {
                return None;
            }
            Cover::from_bytes(copied(data, a, b))
        },
        None => None,
    }
}

/// A cover is a run of the book file's own bytes, no larger than a cover is
/// allowed to be, and opens with an image signature.
pub proof fn lemma_a_cover_is_an_image(file: Seq<char>, data: Seq<u8>)
    requires
        carried(file, data) is Some,
    ensures
        cover_at(file, data) is Some,
        carried(file, data)->0.encoded == data.subrange(
            (cover_at(file, data)->0).0,
            (cover_at(file, data)->0).1,
        ),
        carried(file, data)->0.encoded.len() <= MAX_IMAGE_BYTES,
        cover::kind_of(carried(file, data)->0.encoded) == Some(carried(file, data)->0.kind),
{
    lemma_cover_within(file, data);
}

proof fn lemma_cover_within(file: Seq<char>, data: Seq<u8>)
    ensures
        match cover_at(file, data) {
            Some((a, b)) => image_run(data, a, b),
            None => true,
        },
{
    match be16_at(data, 76) {
        Some(count) => {
            match first_image_from(data, count, 0) {
                Some(first) => {
                    lemma_largest_is_image(data, count, first, None);
                },
                None => {},
            }
        },
        None => {},
    }
}

proof fn lemma_largest_is_image(data: Seq<u8>, count: int, i: int, best: Option<(int, int)>)
    requires
        match best {
            Some((a, b)) => image_run(data, a, b),
            None => true,
        },
    ensures
        match largest_image_from(data, count, i, best) {
            Some((a, b)) => image_run(data, a, b),
            None => true,
        },
    decreases count - i,
{
    if i < count {
        let next = match (image_at(data, count, i), best) {
            (None, _) => best,
            (Some(r), None) => Some(r),
            (Some(r), Some(b)) => if r.1 - r.0 >= b.1 - b.0 {
                Some(r)
            } else {
                Some(b)
            },
        };
        lemma_largest_is_image(data, count, i + 1, next);
    }
}

} // verus!
