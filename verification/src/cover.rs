//! Finding, judging and caching cover art.
//!
//! Search results carry no cover, so a cover costs a request for the record
//! page followed by a request for the image itself. The interface only asks once
//! a selection has settled, and every answer, including "this book has no
//! cover", is cached on disk.
//!
//! The URL of the image comes out of a page served by a mirror, so what comes
//! back is judged: it has to come from the mirror's own host, it has to be
//! small, and it has to actually start with an image signature, so that a web
//! page is discarded rather than cached. The names of the cached files come from
//! the MD5 and not from the URL.

use vstd::prelude::*;
use vstd::string::*;

use crate::config::{cover_cache_dir, Env};
use crate::error::Error;
use crate::graphics;
use crate::graphics::Image;
use crate::html;
use crate::html::img_srcs;
use crate::jpeg;
use crate::model;
use crate::model::{is_md5, Book};
use crate::net;
use crate::net::{hosts_agree, parse_host};
use crate::path;
use crate::text;
use crate::text::{contains, digit, to_ascii_lower, to_lower};

verus! {

/// Covers are small. Anything larger is not a thumbnail and is not wanted.
pub const MAX_COVER_BYTES: u64 = 4_194_304;

/// The extension of an empty file recording that a book has no cover, so the
/// record page is not fetched again on every visit.
pub const MISSING: &'static str = "none";

#[derive(Debug, Clone, Copy, PartialEq, Eq, Structural)]
pub enum Kind {
    Jpeg,
    Png,
    /// Some other image format: passed to a terminal that can read it,
    /// otherwise unusable.
    Other,
}

/// What a cover lookup produced.
#[derive(Debug, PartialEq, Eq)]
pub struct Cover {
    /// The image file exactly as served, for protocols that take it directly.
    pub encoded: Vec<u8>,
    pub kind: Kind,
}

impl Clone for Cover {
    fn clone(&self) -> (r: Self)
        ensures
            r@ == self@,
    {
        let encoded = self.encoded.clone();
        assert(encoded@ =~= self.encoded@);
        Cover { encoded, kind: self.kind }
    }
}

/// A cover: its bytes and its kind.
pub struct CoverView {
    pub encoded: Seq<u8>,
    pub kind: Kind,
}

impl View for Cover {
    type V = CoverView;

    open spec fn view(&self) -> CoverView {
        CoverView { encoded: self.encoded@, kind: self.kind }
    }
}

/// A cover that may be there, taken by its view.
pub open spec fn cover_view(c: Option<Cover>) -> Option<CoverView> {
    match c {
        Some(c) => Some(c@),
        None => None,
    }
}

/// True of a GIF.
pub open spec fn gif_signature(b: Seq<u8>) -> bool {
    b.len() >= 4 && b[0] == 0x47 && b[1] == 0x49 && b[2] == 0x46 && b[3] == 0x38
}

/// True of a WebP picture.
pub open spec fn webp_signature(b: Seq<u8>) -> bool {
    b.len() >= 12 && b[0] == 0x52 && b[1] == 0x49 && b[2] == 0x46 && b[3] == 0x46 && b[8] == 0x57
        && b[9] == 0x45 && b[10] == 0x42 && b[11] == 0x50
}

/// The kind of image that bytes are, by their signature.
pub open spec fn kind_of(b: Seq<u8>) -> Option<Kind> {
    if jpeg::jpeg_signature(b) {
        Some(Kind::Jpeg)
    } else if jpeg::png_signature(b) {
        Some(Kind::Png)
    } else if gif_signature(b) || webp_signature(b) {
        Some(Kind::Other)
    } else {
        None
    }
}

/// The kind of image that bytes are. Bytes that are no image at all are an error
/// page, a captcha, or something pretending: nothing worth keeping.
pub fn image_kind(b: &[u8]) -> (r: Option<Kind>)
    ensures
        r == kind_of(b@),
{
    if jpeg::is_jpeg(b) {
        return Some(Kind::Jpeg);
    }
    if jpeg::is_png(b) {
        return Some(Kind::Png);
    }
    let gif = b.len() >= 4 && b[0] == 0x47 && b[1] == 0x49 && b[2] == 0x46 && b[3] == 0x38;
    let webp = b.len() >= 12 && b[0] == 0x52 && b[1] == 0x49 && b[2] == 0x46 && b[3] == 0x46 && b[8]
        == 0x57 && b[9] == 0x45 && b[10] == 0x42 && b[11] == 0x50;
    if gif || webp {
        return Some(Kind::Other);
    }
    None
}

/// The cover that bytes are, if they are an image.
pub open spec fn classified(b: Seq<u8>) -> Option<CoverView> {
    match kind_of(b) {
        Some(kind) => Some(CoverView { encoded: b, kind }),
        None => None,
    }
}

pub open spec fn extension_of(kind: Kind) -> Seq<char> {
    match kind {
        Kind::Jpeg => "jpg"@,
        Kind::Png => "png"@,
        Kind::Other => "img"@,
    }
}

/// The pixels of a cover, where it can be decoded.
pub open spec fn pixels_of(c: CoverView) -> Option<graphics::ImageView> {
    if c.kind == Kind::Jpeg {
        match jpeg::decoded(c.encoded) {
            Ok(image) => Some(image),
            Err(_) => None,
        }
    } else {
        None
    }
}

impl Cover {
    /// Decode to pixels, for the kitty protocol and the half-block fallback.
    ///
    /// Only JPEG is decoded here. PNG is handed to the terminal untouched by
    /// both pixel protocols, and writing an inflate implementation so that the
    /// block fallback can draw the occasional PNG cover is not a good trade.
    pub fn pixels(&self) -> (r: Option<Image>)
        ensures
            match r {
                Some(image) => self.kind == Kind::Jpeg && jpeg::shows(
                    Ok(image),
                    jpeg::picture(self.encoded@),
                ),
                None => self.kind != Kind::Jpeg || jpeg::picture(self.encoded@) is Err,
            },
            graphics::image_view(r) == pixels_of(self@),
    {
        match self.kind {
            Kind::Jpeg => match jpeg::decode(&self.encoded) {
                Ok(image) => {
                    proof {
                        jpeg::lemma_shown(image, jpeg::picture(self.encoded@)->Ok_0);
                    }
                    Some(image)
                },
                Err(_) => None,
            },
            _ => None,
        }
    }

    /// Wrap raw image bytes as a cover, identifying the format from its
    /// signature and rejecting anything that is not actually an image. Used by
    /// the network path and by covers pulled out of a book file on disk.
    pub fn from_bytes(bytes: Vec<u8>) -> (r: Option<Cover>)
        ensures
            cover_view(r) == classified(bytes@),
    {
        Cover::classify(bytes)
    }

    pub fn classify(bytes: Vec<u8>) -> (r: Option<Cover>)
        ensures
            cover_view(r) == classified(bytes@),
    {
        match image_kind(&bytes) {
            Some(kind) => Some(Cover { encoded: bytes, kind }),
            None => None,
        }
    }

    pub fn extension(&self) -> (r: &'static str)
        ensures
            r@ == extension_of(self.kind),
    {
        match self.kind {
            Kind::Jpeg => "jpg",
            Kind::Png => "png",
            Kind::Other => "img",
        }
    }
}

// ---------------------------------------------------------------------------
// The record page
// ---------------------------------------------------------------------------

pub open spec fn numeric(s: Seq<char>) -> bool {
    s.len() > 0 && text::all_digits(s)
}

/// The record page of a book, relative to its mirror. `file.php` is the record
/// page proper. `ads.php` also carries the cover but mints a single-use download
/// key as a side effect, so it is only the fallback, for records whose file id
/// the search row did not carry.
pub open spec fn page_path(file_id: Option<Seq<char>>, md5: Seq<char>) -> Seq<char> {
    match file_id {
        Some(id) if numeric(id) => "file.php?id="@ + id,
        _ => "ads.php?md5="@ + md5,
    }
}

fn is_numeric(s: &str) -> (r: bool)
    ensures
        r == numeric(s@),
{
    let v = text::chars_of(s);
    let mut i: usize = 0;
    while i < v.len()
        invariant
            i <= v@.len(),
            v@ == s@,
            forall|k: int| 0 <= k < i ==> text::is_digit(#[trigger] v@[k]),
        decreases v@.len() - i,
    {
        if !digit(v[i]) {
            return false;
        }
        i += 1;
    }
    v.len() > 0
}

/// Whether an image stands under a `covers/` path.
pub open spec fn under_covers(src: Seq<char>) -> bool {
    text::has(text::lowercased(src), "/covers/"@)
}

/// Whether an image's name says cover.
pub open spec fn says_cover(src: Seq<char>) -> bool {
    text::has(text::lowercased(src), "cover"@)
}

pub open spec fn names_image(src: Seq<char>) -> bool {
    let l = text::lowercased(src);
    text::has(l, ".jpg"@) || text::has(l, ".jpeg"@) || text::has(l, ".png"@) || text::has(
        l,
        ".gif"@,
    ) || text::has(l, ".webp"@)
}

/// What is asked of a cover: to stand under a `covers/` path, or else to say
/// cover in its name; and to be named like an image file, where that is asked.
pub open spec fn answers(src: Seq<char>, path: bool, image: bool) -> bool {
    &&& if path {
        under_covers(src)
    } else {
        says_cover(src)
    }
    &&& image ==> names_image(src)
}

/// The first of a list from `i` on that answers.
pub open spec fn first_cover(
    srcs: Seq<Seq<char>>,
    path: bool,
    image: bool,
    i: int,
) -> Option<Seq<char>>
    decreases srcs.len() - i,
{
    if i >= srcs.len() {
        None
    } else if answers(srcs[i], path, image) {
        Some(srcs[i])
    } else {
        first_cover(srcs, path, image, i + 1)
    }
}

pub open spec fn or_else(a: Option<Seq<char>>, b: Option<Seq<char>>) -> Option<Seq<char>> {
    if a is Some {
        a
    } else {
        b
    }
}

/// The cover among the images of a page: one under a `covers/` path, and an
/// image file before anything else there; failing that one whose name says
/// cover, an image file first again.
pub open spec fn cover_among(srcs: Seq<Seq<char>>) -> Option<Seq<char>> {
    or_else(
        or_else(first_cover(srcs, true, true, 0), first_cover(srcs, true, false, 0)),
        or_else(first_cover(srcs, false, true, 0), first_cover(srcs, false, false, 0)),
    )
}

fn looks_like_cover(src: &str, path: bool, image: bool) -> (r: bool)
    ensures
        r == answers(src@, path, image),
{
    let lower = to_lower(src);
    let named = if path {
        contains(&lower, "/covers/")
    } else {
        contains(&lower, "cover")
    };
    named && (!image || is_image_file(src))
}

fn is_image_file(src: &str) -> (r: bool)
    ensures
        r == names_image(src@),
{
    let lower = to_lower(src);
    contains(&lower, ".jpg") || contains(&lower, ".jpeg") || contains(&lower, ".png") || contains(
        &lower,
        ".gif",
    ) || contains(&lower, ".webp")
}

fn find_cover(srcs: &Vec<String>, path: bool, image: bool) -> (r: Option<String>)
    ensures
        r.deep_view() == first_cover(text::texts(srcs@), path, image, 0),
{
    let ghost all = text::texts(srcs@);
    let mut i: usize = 0;
    while i < srcs.len()
        invariant
            i <= srcs@.len(),
            all == text::texts(srcs@),
            first_cover(all, path, image, i as int) == first_cover(all, path, image, 0),
        decreases srcs@.len() - i,
    {
        if looks_like_cover(&srcs[i], path, image) {
            return Some(srcs[i].clone());
        }
        i += 1;
    }
    None
}

/// Choose the cover out of every image on a record page.
///
/// Record pages are full of icons, flags and spacers. The cover is the one under
/// a `covers/` path; failing that, an image whose name says so.
pub fn pick_cover_src(page: &str) -> (r: Option<String>)
    ensures
        r.deep_view() == cover_among(html::srcs_from(page@, 0)),
{
    let images = img_srcs(page);
    let placed = find_cover(&images, true, true);
    if placed.is_some() {
        return placed;
    }
    let under = find_cover(&images, true, false);
    if under.is_some() {
        return under;
    }
    let named = find_cover(&images, false, true);
    if named.is_some() {
        return named;
    }
    find_cover(&images, false, false)
}

/// An image under a `covers/` path is chosen before any other, whatever the
/// others are called.
pub proof fn lemma_a_covers_path_comes_first(srcs: Seq<Seq<char>>, k: int)
    requires
        0 <= k < srcs.len(),
        under_covers(srcs[k]),
    ensures
        cover_among(srcs) is Some,
        under_covers(cover_among(srcs)->0),
{
    lemma_first_cover(srcs, true, true, 0, k);
    lemma_first_cover(srcs, true, false, 0, k);
}

proof fn lemma_first_cover(srcs: Seq<Seq<char>>, path: bool, image: bool, i: int, k: int)
    requires
        0 <= i <= k < srcs.len(),
    ensures
        answers(srcs[k], path, image) ==> first_cover(srcs, path, image, i) is Some,
        first_cover(srcs, path, image, i) is Some ==> answers(
            first_cover(srcs, path, image, i)->0,
            path,
            image,
        ),
    decreases srcs.len() - i,
{
    if !answers(srcs[i], path, image) {
        if i < k {
            lemma_first_cover(srcs, path, image, i + 1, k);
        } else if i + 1 < srcs.len() {
            lemma_first_cover(srcs, path, image, i + 1, srcs.len() - 1);
        }
    }
}

/// Reject an image URL that points somewhere other than the mirror it came
/// from, which is the only reason a record page would name another host.
pub fn same_host(base: &str, image: &str) -> (r: bool)
    ensures
        r == match (net::uri_host(base@), net::uri_host(image@)) {
            (Some(a), Some(b)) => text::ascii_lower(a) == text::ascii_lower(b),
            _ => false,
        },
{
    hosts_agree(&parse_host(base), &parse_host(image))
}

// ---------------------------------------------------------------------------
// What a mirror answered
// ---------------------------------------------------------------------------

/// Whether a response is worth reading, by its headers. They are the mirror's
/// to choose, so they are a reason to stop early, never a reason to trust what
/// follows.
pub open spec fn promising(
    status: u16,
    length: Option<u64>,
    content_type: Option<Seq<char>>,
) -> bool {
    &&& 200 <= status < 300
    &&& match length {
        Some(n) => n <= MAX_COVER_BYTES,
        None => true,
    }
    &&& match content_type {
        Some(t) => !text::has(text::ascii_lower(t), "text/html"@),
        None => true,
    }
}

/// Whether a response is worth reading.
pub fn worth_reading(status: u16, length: Option<u64>, content_type: &Option<String>) -> (r: bool)
    ensures
        r == promising(status, length, content_type.deep_view()),
{
    if status < 200 || status >= 300 {
        return false;
    }
    match length {
        Some(n) => {
            if n > MAX_COVER_BYTES {
                return false;
            }
        },
        None => {},
    }
    match content_type {
        Some(t) => !contains(&to_ascii_lower(t), "text/html"),
        None => true,
    }
}

/// The cover in a response, refusing anything that is not one. `body` is what
/// could be read of it within [`MAX_COVER_BYTES`].
pub fn download(
    status: u16,
    length: Option<u64>,
    content_type: &Option<String>,
    body: Vec<u8>,
) -> (r: Option<Cover>)
    ensures
        cover_view(r) == (if promising(status, length, content_type.deep_view()) {
            classified(body@)
        } else {
            None
        }),
{
    if worth_reading(status, length, content_type) {
        Cover::classify(body)
    } else {
        None
    }
}

// ---------------------------------------------------------------------------
// The on-disk cache
// ---------------------------------------------------------------------------

/// Where the cache keeps a file for a book.
pub open spec fn cache_path_of(env: Env, md5: Seq<char>, extension: Seq<char>) -> Seq<char> {
    path::joined(
        path::joined(env.cache_path_text(), "covers"@),
        md5 + "."@ + extension,
    )
}

pub fn cache_path(env: &Env, md5: &str, extension: &str) -> (r: String)
    ensures
        r@ == cache_path_of(*env, md5@, extension@),
{
    let mut name = md5.to_owned();
    name.append(".");
    name.append(extension);
    path::join(&cover_cache_dir(env), &name)
}

/// What the cache holds of a book: whether it is marked as having no cover, and
/// the files it may have instead, under their three extensions.
#[derive(Debug)]
pub struct Cached {
    pub missing: bool,
    pub jpg: Option<Vec<u8>>,
    pub png: Option<Vec<u8>>,
    pub img: Option<Vec<u8>>,
}

pub open spec fn file_view(f: Option<Vec<u8>>) -> Option<Seq<u8>> {
    match f {
        Some(v) => Some(v@),
        None => None,
    }
}

/// The cover in a cached file, where it is one.
pub open spec fn cover_in(f: Option<Seq<u8>>) -> Option<CoverView> {
    match f {
        Some(b) => classified(b),
        None => None,
    }
}

/// What a cache says of a book: `Some(None)` is "looked before, there is none",
/// and `None` is "not cached, go and look".
pub open spec fn recalled(
    missing: bool,
    jpg: Option<Seq<u8>>,
    png: Option<Seq<u8>>,
    img: Option<Seq<u8>>,
) -> Option<Option<CoverView>> {
    if missing {
        Some(None)
    } else if cover_in(jpg) is Some {
        Some(cover_in(jpg))
    } else if cover_in(png) is Some {
        Some(cover_in(png))
    } else if cover_in(img) is Some {
        Some(cover_in(img))
    } else {
        None
    }
}

pub open spec fn answer_view(r: Option<Option<Cover>>) -> Option<Option<CoverView>> {
    match r {
        Some(c) => Some(cover_view(c)),
        None => None,
    }
}

impl Cached {
    pub open spec fn says(self) -> Option<Option<CoverView>> {
        recalled(self.missing, file_view(self.jpg), file_view(self.png), file_view(self.img))
    }
}

fn classify_file(f: Option<Vec<u8>>) -> (r: Option<Cover>)
    ensures
        cover_view(r) == cover_in(file_view(f)),
{
    match f {
        Some(bytes) => Cover::classify(bytes),
        None => None,
    }
}

/// The cover for a book if one was fetched in a past search, without going near
/// the network.
///
/// This is what lets the library show a cover for a book whose file carries none
/// of its own: if you saw it while searching, it is already on disk.
pub fn cached(files: Cached) -> (r: Option<Option<Cover>>)
    ensures
        answer_view(r) == files.says(),
{
    if files.missing {
        return Some(None);
    }
    let jpg = classify_file(files.jpg);
    if jpg.is_some() {
        return Some(jpg);
    }
    let png = classify_file(files.png);
    if png.is_some() {
        return Some(png);
    }
    let img = classify_file(files.img);
    if img.is_some() {
        return Some(img);
    }
    None
}

/// The extension under which a lookup is remembered.
pub open spec fn stored_as(c: Option<CoverView>) -> Seq<char> {
    match c {
        Some(c) => extension_of(c.kind),
        None => MISSING@,
    }
}

/// What a lookup is remembered by.
pub open spec fn stored_bytes(c: Option<CoverView>) -> Seq<u8> {
    match c {
        Some(c) => c.encoded,
        None => seq![],
    }
}

/// How to remember a lookup: the file to write, and what to write to it.
pub fn store(env: &Env, md5: &str, cover: &Option<Cover>) -> (r: (String, Vec<u8>))
    ensures
        r.0@ == cache_path_of(*env, md5@, stored_as(cover_view(*cover))),
        r.1@ == stored_bytes(cover_view(*cover)),
{
    match cover {
        Some(c) => {
            let bytes = c.encoded.clone();
            assert(bytes@ =~= c.encoded@);
            (cache_path(env, md5, c.extension()), bytes)
        },
        None => {
            let bytes: Vec<u8> = Vec::new();
            assert(bytes@ =~= seq![]);
            (cache_path(env, md5, MISSING), bytes)
        },
    }
}

/// A lookup, once stored in an empty cache, is answered from it: with the same
/// cover, or with the same absence of one.
pub proof fn lemma_stored_is_recalled(c: Option<CoverView>)
    requires
        c is Some ==> kind_of(c->0.encoded) == Some(c->0.kind),
    ensures
        recalled(
            stored_as(c) == MISSING@,
            if stored_as(c) == "jpg"@ {
                Some(stored_bytes(c))
            } else {
                None
            },
            if stored_as(c) == "png"@ {
                Some(stored_bytes(c))
            } else {
                None
            },
            if stored_as(c) == "img"@ {
                Some(stored_bytes(c))
            } else {
                None
            },
        ) == Some(c),
{
    reveal_strlit("jpg");
    reveal_strlit("png");
    reveal_strlit("img");
    reveal_strlit("none");
    assert("jpg"@[0] == 'j' && "png"@[0] == 'p' && "img"@[0] == 'i' && "none"@[0] == 'n');
}

/// Whatever a mirror answers, a lookup is remembered by a file of the cache
/// directory itself, whose name is made of the MD5.
pub proof fn lemma_covers_stay_in_the_cache(env: Env, md5: Seq<char>, c: Option<CoverView>)
    requires
        model::md5_shaped(md5),
    ensures
        ({
            let dir = path::joined(env.cache_path_text(), "covers"@);
            let name = md5 + "."@ + stored_as(c);
            &&& cache_path_of(env, md5, stored_as(c)) == dir + "/"@ + name
            &&& text::free_of(name, '/')
        }),
{
    reveal_strlit("covers");
    reveal_strlit("/");
    reveal_strlit(".");
    reveal_strlit("jpg");
    reveal_strlit("png");
    reveal_strlit("img");
    reveal_strlit("none");
    let base = env.cache_path_text();
    let dir = path::joined(base, "covers"@);
    let name = md5 + "."@ + stored_as(c);
    assert("covers"@[0] == 'c' && "covers"@.last() == 's');
    assert(dir.last() == 's');
    assert(name[0] == md5[0]);
    assert forall|i: int| 0 <= i < name.len() implies #[trigger] name[i] != '/' by {
        if i < md5.len() {
            assert(name[i] == md5[i]);
            assert(text::is_hex(md5[i]));
        } else if i > md5.len() {
            assert(name[i] == stored_as(c)[i - md5.len() - 1]);
        }
    }
}

pub open spec fn sum_of(sizes: Seq<u64>) -> nat
    decreases sizes.len(),
{
    if sizes.len() == 0 {
        0
    } else {
        sum_of(sizes.drop_last()) + sizes.last() as nat
    }
}

proof fn lemma_sum_grows(sizes: Seq<u64>, k: int)
    requires
        0 <= k <= sizes.len(),
    ensures
        sum_of(sizes.take(k)) <= sum_of(sizes),
    decreases sizes.len() - k,
{
    if k < sizes.len() {
        assert(sizes.take(k + 1).drop_last() =~= sizes.take(k));
        lemma_sum_grows(sizes, k + 1);
    } else {
        assert(sizes.take(k) =~= sizes);
    }
}

/// How much of the cover cache is on disk, given the size of each file in it.
pub fn cache_size(sizes: &Vec<u64>) -> (r: (usize, u64))
    requires
        sum_of(sizes@) <= u64::MAX,
    ensures
        r.0 == sizes@.len(),
        r.1 == sum_of(sizes@),
{
    let mut bytes: u64 = 0;
    let mut i: usize = 0;
    while i < sizes.len()
        invariant
            i <= sizes@.len(),
            sum_of(sizes@) <= u64::MAX,
            bytes == sum_of(sizes@.take(i as int)),
        decreases sizes@.len() - i,
    {
        proof {
            assert(sizes@.take(i + 1).drop_last() =~= sizes@.take(i as int));
            lemma_sum_grows(sizes@, i + 1);
        }
        bytes = bytes + sizes[i];
        i += 1;
    }
    assert(sizes@.take(sizes@.len() as int) =~= sizes@);
    (sizes.len(), bytes)
}

// ---------------------------------------------------------------------------
// A lookup
// ---------------------------------------------------------------------------

/// Where a lookup goes first.
#[derive(Debug)]
pub enum Lookup {
    /// It cannot be made.
    Refused(Error),
    /// It has been made before; this is what came of it.
    Known(Option<Cover>),
    /// The record page has to be read: this one, relative to the mirror.
    Page(String),
}

/// Begin to fetch a book's cover, from the cache when possible.
///
/// A book without one is only ever looked up once, since that answer is cached
/// too.
pub fn fetch(book: &Book, files: Cached) -> (r: Lookup)
    ensures
        match r {
            Lookup::Refused(e) => !model::md5_shaped(book.md5@) && e.text@
                == "a cover needs a valid MD5"@,
            Lookup::Known(c) => model::md5_shaped(book.md5@) && files.says() == Some(cover_view(c)),
            Lookup::Page(p) => model::md5_shaped(book.md5@) && files.says() is None && p@
                == page_path(book.file_id.deep_view(), book.md5@),
        },
{
    if !is_md5(&book.md5) {
        return Lookup::Refused(Error::new("a cover needs a valid MD5".to_owned()));
    }
    match cached(files) {
        Some(c) => Lookup::Known(c),
        None => Lookup::Page(find_page(book)),
    }
}

/// The record page of a book, relative to its mirror.
pub fn find_page(book: &Book) -> (r: String)
    ensures
        r@ == page_path(book.file_id.deep_view(), book.md5@),
{
    match &book.file_id {
        Some(id) => {
            if is_numeric(id) {
                let mut p = "file.php?id=".to_owned();
                p.append(id);
                return p;
            }
        },
        None => {},
    }
    let mut p = "ads.php?md5=".to_owned();
    p.append(&book.md5);
    p
}

} // verus!
