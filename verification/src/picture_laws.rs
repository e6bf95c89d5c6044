//! What holds of pictures and of the terminals that show them.

use vstd::prelude::*;

use crate::cover;
use crate::cover::{CoverView, Kind};
use crate::graphics;
use crate::graphics::{ImageView, Protocol, Rgb};
use crate::text;

verus! {

// ---------------------------------------------------------------------------
// Pictures
// ---------------------------------------------------------------------------

proof fn lemma_pixel(w: int, h: int, x: int, y: int, c: int)
    requires
        0 <= x < w,
        0 <= y < h,
        0 <= c < 3,
    ensures
        ({
            let i = (y * w + x) * 3 + c;
            &&& 0 <= i < w * h * 3
            &&& i / 3 % w == x
            &&& i / 3 / w == y
            &&& i % 3 == c
        }),
{
    let p = y * w + x;
    vstd::arithmetic::div_mod::lemma_fundamental_div_mod_converse(p * 3 + c, 3, p, c);
    vstd::arithmetic::div_mod::lemma_fundamental_div_mod_converse(p, w, y, x);
    assert(0 <= p < w * h) by (nonlinear_arith)
        requires
            0 <= x < w,
            0 <= y < h,
            p == y * w + x,
    ;
}

/// A picture that is made of given colours has them: each pixel its own.
pub proof fn lemma_a_picture_has_its_colours(
    w: int,
    h: int,
    colour: spec_fn(int, int) -> Rgb,
    x: int,
    y: int,
)
    requires
        0 <= x < w,
        0 <= y < h,
    ensures
        (ImageView { width: w, height: h, pixels: graphics::pixel_bytes(w, h, colour) }).at(x, y)
            == colour(x, y),
{
    let image = ImageView { width: w, height: h, pixels: graphics::pixel_bytes(w, h, colour) };
    lemma_pixel(w, h, x, y, 0);
    lemma_pixel(w, h, x, y, 1);
    lemma_pixel(w, h, x, y, 2);
    let i = (y * w + x) * 3;
    assert(graphics::offset_of(w, x, y) == i);
    assert(image.pixels[i] == colour(x, y).0);
    assert(image.pixels[i + 1] == colour(x, y).1);
    assert(image.pixels[i + 2] == colour(x, y).2);
}

/// A pixel of a picture made smaller is the one at the same proportion of the
/// picture, across and down.
pub proof fn lemma_scaling_keeps_proportions(image: ImageView, mw: nat, mh: nat, x: int, y: int)
    requires
        image.width > 0,
        image.height > 0,
        mw > 0,
        mh > 0,
        ({
            let small = graphics::fitted_image(image, mw, mh);
            0 <= x < small.width && 0 <= y < small.height
        }),
    ensures
        ({
            let small = graphics::fitted_image(image, mw, mh);
            small.at(x, y) == image.at(
                x * image.width / small.width,
                y * image.height / small.height,
            )
        }),
{
    let small = graphics::fitted_image(image, mw, mh);
    let w = small.width;
    let h = small.height;
    let colour = |a: int, b: int| graphics::sampled(image, w, h, a, b);
    assert(small.pixels == graphics::pixel_bytes(w, h, colour));
    lemma_a_picture_has_its_colours(w, h, colour, x, y);
}

/// A cell of half blocks shows two pixels, the upper one in its upper half.
pub proof fn lemma_a_cell_shows_two_pixels(image: ImageView, x: int, row: int)
    requires
        image.width > 0,
        0 <= x < image.width,
        0 <= row,
        2 * row + 1 < image.height,
    ensures
        graphics::cell_at(image, image.width, image.height, x, row) == (
            image.at(x, 2 * row),
            image.at(x, 2 * row + 1),
        ),
{
    let w = image.width;
    let h = image.height;
    assert(x * w / w == x) by (nonlinear_arith)
        requires
            w > 0,
    ;
    assert(2 * row * h / h == 2 * row) by (nonlinear_arith)
        requires
            h > 0,
    ;
    assert((2 * row + 1) * h / h == 2 * row + 1) by (nonlinear_arith)
        requires
            h > 0,
    ;
}

// ---------------------------------------------------------------------------
// Terminals
// ---------------------------------------------------------------------------

/// A terminal that asked for no colour, or is a dumb one, is shown no pictures,
/// whatever else it says.
pub proof fn lemma_no_colour_no_pictures(vars: Seq<(String, String)>)
    requires
        graphics::is_set(vars, "NO_COLOR"@) || graphics::var(vars, "TERM"@) == "dumb"@,
    ensures
        graphics::supported(vars) == Protocol::Nothing,
{
    reveal_strlit("dumb");
    assert(text::ascii_lower("dumb"@) =~= "dumb"@);
}

/// Whether a terminal can be shown anything in colour.
pub open spec fn in_colour(vars: Seq<(String, String)>) -> bool {
    !graphics::is_set(vars, "NO_COLOR"@) && text::ascii_lower(graphics::var(vars, "TERM"@))
        != "dumb"@
}

/// Kitty and those that took over its protocol are known by what they set.
pub proof fn lemma_terminals_that_speak_kitty(vars: Seq<(String, String)>)
    requires
        in_colour(vars),
    ensures
        graphics::is_set(vars, "KITTY_WINDOW_ID"@) ==> graphics::supported(vars)
            == Protocol::Kitty,
        graphics::is_set(vars, "GHOSTTY_RESOURCES_DIR"@) ==> graphics::supported(vars)
            == Protocol::Kitty,
        graphics::var_lower(vars, "TERM_PROGRAM"@) == "ghostty"@ ==> graphics::supported(vars)
            == Protocol::Kitty,
        graphics::var_lower(vars, "TERM_PROGRAM"@) == "wezterm"@ ==> graphics::supported(vars)
            == Protocol::Kitty,
        text::has(graphics::var_lower(vars, "TERM"@), "kitty"@) ==> graphics::supported(vars)
            == Protocol::Kitty,
{
}

/// Whether a terminal shows any sign of kitty's protocol.
pub open spec fn like_kitty(vars: Seq<(String, String)>) -> bool {
    ||| text::has(graphics::var_lower(vars, "TERM"@), "kitty"@)
    ||| graphics::is_set(vars, "KITTY_WINDOW_ID"@)
    ||| graphics::is_set(vars, "GHOSTTY_RESOURCES_DIR"@)
    ||| graphics::var_lower(vars, "TERM_PROGRAM"@) == "ghostty"@
    ||| graphics::var_lower(vars, "TERM_PROGRAM"@) == "wezterm"@
}

/// iTerm2 is known by its program's name; without pixels, colours are enough for
/// half blocks.
pub proof fn lemma_terminals_without_kitty(vars: Seq<(String, String)>)
    requires
        in_colour(vars),
        !like_kitty(vars),
    ensures
        graphics::var_lower(vars, "TERM_PROGRAM"@) == "iterm.app"@ ==> graphics::supported(vars)
            == Protocol::ITerm2,
        graphics::var_lower(vars, "TERM_PROGRAM"@) == "iterm2"@ ==> graphics::supported(vars)
            == Protocol::ITerm2,
        graphics::var_lower(vars, "TERM_PROGRAM"@) != "iterm.app"@ && graphics::var_lower(
            vars,
            "TERM_PROGRAM"@,
        ) != "iterm2"@ && !graphics::is_set(vars, "WEZTERM_PANE"@) && !graphics::is_set(
            vars,
            "ITERM_SESSION_ID"@,
        ) ==> {
            &&& text::has(graphics::var_lower(vars, "COLORTERM"@), "truecolor"@)
                ==> graphics::supported(vars) == Protocol::Blocks
            &&& text::has(graphics::var_lower(vars, "TERM"@), "256color"@) ==> graphics::supported(
                vars,
            ) == Protocol::Blocks
            &&& graphics::var(vars, "COLORTERM"@).len() == 0 && graphics::var(
                vars,
                "TERM"@,
            ).len() == 0 ==> graphics::supported(vars) == Protocol::Nothing
        },
{
    let none = Seq::<char>::empty();
    if graphics::var(vars, "COLORTERM"@).len() == 0 && graphics::var(vars, "TERM"@).len() == 0 {
        assert(graphics::var_lower(vars, "COLORTERM"@) =~= none);
        assert(graphics::var_lower(vars, "TERM"@) =~= none);
        lemma_nothing_in_nothing("truecolor"@, 0);
        lemma_nothing_in_nothing("24bit"@, 0);
        lemma_nothing_in_nothing("256color"@, 0);
        lemma_nothing_in_nothing("color"@, 0);
        reveal_strlit("truecolor");
        reveal_strlit("24bit");
        reveal_strlit("256color");
        reveal_strlit("color");
    }
}

proof fn lemma_nothing_in_nothing(p: Seq<char>, from: int)
    requires
        0 <= from,
    ensures
        p.len() > 0 ==> text::find_from(Seq::<char>::empty(), p, from) is None,
    decreases 1 - from,
{
    if from <= 0 {
        lemma_nothing_in_nothing(p, from + 1);
    }
}

/// A picture that goes in one instalment says that no more is coming; a longer one
/// goes in pieces of so many characters, and each but the last says that more is.
pub proof fn lemma_instalments(id: nat, header: Seq<char>, payload: Seq<char>)
    requires
        payload.len() > 0,
    ensures
        payload.len() <= 4096 ==> graphics::instalments(id, header, payload, 0) == "\x1b_G"@ + header
            + ",i="@ + text::decimal(id) + ",m="@ + "0"@ + ";"@ + payload + "\x1b\\"@,
        payload.len() > 4096 ==> graphics::instalments(id, header, payload, 0) == ("\x1b_G"@
            + header + ",i="@ + text::decimal(id) + ",m="@ + "1"@ + ";"@ + payload.take(4096)
            + "\x1b\\"@) + graphics::instalments(id, header, payload, 4096),
        4096 < payload.len() <= 8192 ==> graphics::instalments(id, header, payload, 4096)
            == "\x1b_Gm="@ + "0"@ + ";"@ + payload.skip(4096) + "\x1b\\"@,
{
    reveal_with_fuel(graphics::instalments, 2);
    if payload.len() <= 4096 {
        assert(payload.subrange(0, payload.len() as int) =~= payload);
        let one = "\x1b_G"@ + header + ",i="@ + text::decimal(id) + ",m="@ + "0"@ + ";"@ + payload
            + "\x1b\\"@;
        assert(one + Seq::<char>::empty() =~= one);
    } else {
        assert(payload.subrange(0, 4096) =~= payload.take(4096));
        if payload.len() <= 8192 {
            assert(payload.subrange(4096, payload.len() as int) =~= payload.skip(4096));
            let one = "\x1b_Gm="@ + "0"@ + ";"@ + payload.skip(4096) + "\x1b\\"@;
            assert(one + Seq::<char>::empty() =~= one);
        }
    }
}

// ---------------------------------------------------------------------------
// Covers
// ---------------------------------------------------------------------------

/// Pictures are told by the bytes they begin with.
pub proof fn lemma_kinds_of_pictures(rest: Seq<u8>, length: Seq<u8>)
    requires
        length.len() == 4,
    ensures
        cover::kind_of(seq![0xFFu8, 0xD8u8, 0xFFu8] + rest) == Some(Kind::Jpeg),
        cover::kind_of(
            seq![0x89u8, 0x50u8, 0x4Eu8, 0x47u8, 0x0Du8, 0x0Au8, 0x1Au8, 0x0Au8] + rest,
        ) == Some(Kind::Png),
        cover::kind_of(seq![0x47u8, 0x49u8, 0x46u8, 0x38u8] + rest) == Some(Kind::Other),
        cover::kind_of(
            seq![0x52u8, 0x49u8, 0x46u8, 0x46u8] + length + seq![0x57u8, 0x45u8, 0x42u8, 0x50u8]
                + rest,
        ) == Some(Kind::Other),
{
    let a = seq![0xFFu8, 0xD8u8, 0xFFu8] + rest;
    assert(a[0] == 0xFF && a[1] == 0xD8 && a[2] == 0xFF);
    let b = seq![0x89u8, 0x50u8, 0x4Eu8, 0x47u8, 0x0Du8, 0x0Au8, 0x1Au8, 0x0Au8] + rest;
    assert(b[0] == 0x89 && b[1] == 0x50 && b[2] == 0x4E && b[3] == 0x47 && b[4] == 0x0D && b[5]
        == 0x0A && b[6] == 0x1A && b[7] == 0x0A);
    let c = seq![0x47u8, 0x49u8, 0x46u8, 0x38u8] + rest;
    assert(c[0] == 0x47 && c[1] == 0x49 && c[2] == 0x46 && c[3] == 0x38);
    let d = seq![0x52u8, 0x49u8, 0x46u8, 0x46u8] + length + seq![0x57u8, 0x45u8, 0x42u8, 0x50u8]
        + rest;
    assert(d[0] == 0x52 && d[1] == 0x49 && d[2] == 0x46 && d[3] == 0x46 && d[8] == 0x57 && d[9]
        == 0x45 && d[10] == 0x42 && d[11] == 0x50);
}

/// A page, or any text, is no picture.
pub proof fn lemma_a_page_is_no_picture(b: Seq<u8>)
    requires
        b.len() > 0,
        b[0] != 0xFF,
        b[0] != 0x89,
        b[0] != 0x47,
        b[0] != 0x52,
    ensures
        cover::kind_of(b) is None,
        cover::classified(b) is None,
{
}

/// A record page is asked for by the file's number where there is one, and by the
/// MD5 otherwise.
pub proof fn lemma_the_record_page(id: Seq<char>, md5: Seq<char>)
    ensures
        id.len() > 0 && text::all_digits(id) ==> cover::page_path(Some(id), md5)
            == "file.php?id="@ + id,
        id.len() == 0 || !text::all_digits(id) ==> cover::page_path(Some(id), md5)
            == "ads.php?md5="@ + md5,
        cover::page_path(None, md5) == "ads.php?md5="@ + md5,
{
}

proof fn lemma_first_that_answers(
    srcs: Seq<Seq<char>>,
    path: bool,
    image: bool,
    i: int,
    k: int,
)
    requires
        0 <= i <= k < srcs.len(),
        cover::answers(srcs[k], path, image),
        forall|j: int| 0 <= j < k ==> !cover::answers(#[trigger] srcs[j], path, image),
    ensures
        cover::first_cover(srcs, path, image, i) == Some(srcs[k]),
    decreases k - i,
{
    if i < k {
        assert(!cover::answers(srcs[i], path, image));
        lemma_first_that_answers(srcs, path, image, i + 1, k);
    }
}

/// The cover of a page is the first of its pictures that stands under a `covers/`
/// path and is named like a picture.
pub proof fn lemma_the_first_cover_of_a_page(srcs: Seq<Seq<char>>, k: int)
    requires
        0 <= k < srcs.len(),
        cover::under_covers(srcs[k]),
        cover::names_image(srcs[k]),
        forall|j: int|
            0 <= j < k ==> !(cover::under_covers(#[trigger] srcs[j]) && cover::names_image(
                srcs[j],
            )),
    ensures
        cover::cover_among(srcs) == Some(srcs[k]),
{
    assert forall|j: int| 0 <= j < k implies !cover::answers(#[trigger] srcs[j], true, true) by {
        assert(!(cover::under_covers(srcs[j]) && cover::names_image(srcs[j])));
    }
    lemma_first_that_answers(srcs, true, true, 0, k);
}

/// A page without a picture that says cover has none.
pub proof fn lemma_a_page_without_covers(srcs: Seq<Seq<char>>)
    requires
        forall|j: int|
            0 <= j < srcs.len() ==> !cover::under_covers(#[trigger] srcs[j]) && !cover::says_cover(
                srcs[j],
            ),
    ensures
        cover::cover_among(srcs) is None,
{
    lemma_none_answers(srcs, true, true, 0);
    lemma_none_answers(srcs, true, false, 0);
    lemma_none_answers(srcs, false, true, 0);
    lemma_none_answers(srcs, false, false, 0);
}

proof fn lemma_none_answers(srcs: Seq<Seq<char>>, path: bool, image: bool, i: int)
    requires
        0 <= i <= srcs.len(),
        forall|j: int|
            0 <= j < srcs.len() ==> !cover::under_covers(#[trigger] srcs[j]) && !cover::says_cover(
                srcs[j],
            ),
    ensures
        cover::first_cover(srcs, path, image, i) is None,
    decreases srcs.len() - i,
{
    if i < srcs.len() {
        assert(!cover::under_covers(srcs[i]) && !cover::says_cover(srcs[i]));
        lemma_none_answers(srcs, path, image, i + 1);
    }
}

/// A response is worth reading where it succeeded, is no larger than a cover can
/// be, and is no page.
pub proof fn lemma_responses_worth_reading(status: u16, length: u64)
    ensures
        cover::promising(status, None, None) <==> 200 <= status <= 299,
        cover::promising(200, Some(length), None) <==> length <= cover::MAX_COVER_BYTES,
        !cover::promising(200, None, Some("text/html"@)),
        cover::promising(200, None, Some("image/jpeg"@)),
{
    reveal_strlit("text/html");
    reveal_strlit("image/jpeg");
    assert(text::ascii_lower("text/html"@) =~= "text/html"@);
    let l = text::ascii_lower("image/jpeg"@);
    assert("text/html"@.subrange(0, 9) =~= "text/html"@);
    assert(text::stands_at("text/html"@, "text/html"@, 0));
    assert(text::ascii_lower("image/jpeg"@) =~= "image/jpeg"@);
    lemma_not_within("image/jpeg"@, "text/html"@, 0);
}

proof fn lemma_not_within(s: Seq<char>, p: Seq<char>, from: int)
    requires
        p.len() > 0,
        0 <= from,
        forall|i: int| 0 <= i < s.len() ==> (#[trigger] s[i]) != p[0],
    ensures
        text::find_from(s, p, from) is None,
    decreases s.len() + 1 - from,
{
    if from <= s.len() {
        if text::stands_at(s, p, from) {
            assert(s.subrange(from, from + p.len())[0] == p[0]);
            assert(s[from] == p[0]);
        }
        lemma_not_within(s, p, from + 1);
    }
}

/// What the cache holds of a book is what it says: that there is no cover, the
/// cover, or nothing at all.
pub proof fn lemma_what_the_cache_says(b: Seq<u8>, other: Option<Seq<u8>>)
    ensures
        cover::recalled(true, Some(b), other, other) == Some(None::<CoverView>),
        cover::recalled(false, None, None, None) is None,
        cover::kind_of(b) is Some ==> cover::recalled(false, Some(b), other, other) == Some(
            Some(CoverView { encoded: b, kind: cover::kind_of(b)->0 }),
        ),
        cover::kind_of(b) is Some ==> cover::recalled(false, None, Some(b), other) == Some(
            Some(CoverView { encoded: b, kind: cover::kind_of(b)->0 }),
        ),
        cover::kind_of(b) is Some ==> cover::recalled(false, None, None, Some(b)) == Some(
            Some(CoverView { encoded: b, kind: cover::kind_of(b)->0 }),
        ),
        cover::kind_of(b) is None ==> cover::recalled(false, Some(b), None, None) is None,
{
}

} // verus!
