//! The visual language, in one place so the whole interface stays coherent.
//!
//! The interface paints its own canvas, a deep blue-grey, rather than inheriting
//! the terminal background, so contrast is something it owns. Colour then
//! carries meaning: teal is interactive (the cursor, the keys, the active tab),
//! amber is emphasis (a narrowed count, a marked row), every file format keeps
//! one hue of its own so a column of results reads at a glance, and languages
//! share one calm blue because they are the other thing people narrow by. Text
//! sits on three levels, primary through faint, so hierarchy comes from weight
//! rather than a rainbow.

use vstd::prelude::*;
use vstd::string::*;

use crate::graphics::Rgb;
use crate::text;
use crate::text::{same, to_ascii_lower};

verus! {

/// The canvas painted under every frame.
pub const BG: Rgb = (16, 20, 27);

/// Every other table row, one step off the canvas: enough for the eye to track a
/// row across a wide screen, not enough to read as stripes.
pub const BG_ALT: Rgb = (22, 27, 36);

/// Teal: interactive.
pub const ACCENT: Rgb = (88, 216, 216);

pub const ACCENT_DEEP: Rgb = (56, 148, 152);

/// Emphasis.
pub const AMBER: Rgb = (242, 190, 106);

pub const TEXT: Rgb = (238, 241, 246);

pub const MUTED: Rgb = (173, 181, 196);

pub const FAINT: Rgb = (112, 121, 137);

pub const SUCCESS: Rgb = (140, 220, 150);

pub const DANGER: Rgb = (244, 120, 130);

/// Languages get one colour of their own, because they are one of the two facets
/// the interface filters by.
pub const LANG: Rgb = (142, 180, 252);

/// The wash behind the highlighted row: a teal tint, bright enough to be plainly
/// the cursor, dim enough to sit under white text.
pub const SELECT_BG: Rgb = (31, 54, 61);

/// The dark text of the active tab.
pub const TAB_TEXT: Rgb = (18, 24, 28);

/// The gutter that marks the selected row. A solid bar reads as "here" even when
/// the list holds a single item, which a mere background tint does not.
pub const CURSOR: &'static str = "▌ ";

/// How a piece of text looks. What it leaves open comes from what it is drawn
/// on.
#[derive(Debug, Clone, Copy, PartialEq, Eq)]
pub struct Look {
    pub fg: Option<Rgb>,
    pub bg: Option<Rgb>,
    pub bold: bool,
}

pub open spec fn plain_look() -> Look {
    Look { fg: None, bg: None, bold: false }
}

pub open spec fn coloured(fg: Rgb) -> Look {
    Look { fg: Some(fg), bg: None, bold: false }
}

pub open spec fn bold_coloured(fg: Rgb) -> Look {
    Look { fg: Some(fg), bg: None, bold: true }
}

pub open spec fn backed(bg: Rgb) -> Look {
    Look { fg: None, bg: Some(bg), bold: false }
}

pub open spec fn chip_look(fg: Rgb, bg: Rgb) -> Look {
    Look { fg: Some(fg), bg: Some(bg), bold: true }
}

pub fn plain() -> (r: Look)
    ensures
        r == plain_look(),
{
    Look { fg: None, bg: None, bold: false }
}

pub fn ink(fg: Rgb) -> (r: Look)
    ensures
        r == coloured(fg),
{
    Look { fg: Some(fg), bg: None, bold: false }
}

pub fn bold_ink(fg: Rgb) -> (r: Look)
    ensures
        r == bold_coloured(fg),
{
    Look { fg: Some(fg), bg: None, bold: true }
}

pub fn wash(bg: Rgb) -> (r: Look)
    ensures
        r == backed(bg),
{
    Look { fg: None, bg: Some(bg), bold: false }
}

pub fn chip(fg: Rgb, bg: Rgb) -> (r: Look)
    ensures
        r == chip_look(fg, bg),
{
    Look { fg: Some(fg), bg: Some(bg), bold: true }
}

pub fn text() -> (r: Look)
    ensures
        r == coloured(TEXT),
{
    ink(TEXT)
}

pub fn muted() -> (r: Look)
    ensures
        r == coloured(MUTED),
{
    ink(MUTED)
}

pub fn faint() -> (r: Look)
    ensures
        r == coloured(FAINT),
{
    ink(FAINT)
}

pub fn accent() -> (r: Look)
    ensures
        r == coloured(ACCENT),
{
    ink(ACCENT)
}

/// The hue of a format.
pub open spec fn format_hue(ext: Seq<char>) -> Rgb {
    let l = text::ascii_lower(ext);
    if l == "epub"@ {
        (129, 201, 141)
    } else if l == "pdf"@ {
        (240, 138, 126)
    } else if l == "mobi"@ || l == "azw"@ || l == "azw3"@ {
        (235, 180, 100)
    } else if l == "djvu"@ {
        (198, 160, 246)
    } else if l == "cbz"@ || l == "cbr"@ {
        (240, 150, 200)
    } else {
        (148, 156, 170)
    }
}

/// Each format keeps one hue everywhere it appears, so "the green ones are
/// epubs" becomes something the eye learns in seconds.
pub fn format_color(ext: &str) -> (r: Rgb)
    ensures
        r == format_hue(ext@),
{
    let l = to_ascii_lower(ext);
    if same(&l, "epub") {
        (129, 201, 141)
    } else if same(&l, "pdf") {
        (240, 138, 126)
    } else if same(&l, "mobi") || same(&l, "azw") || same(&l, "azw3") {
        (235, 180, 100)
    } else if same(&l, "djvu") {
        (198, 160, 246)
    } else if same(&l, "cbz") || same(&l, "cbr") {
        (240, 150, 200)
    } else {
        (148, 156, 170)
    }
}

/// A format as a small solid chip: dark text on the format's hue.
pub fn format_chip(ext: &str) -> (r: Look)
    ensures
        r == chip_look(BG, format_hue(ext@)),
{
    chip(BG, format_color(ext))
}

/// The wash behind the selected row, and only the wash. The highlight is applied
/// over every cell, so anything set here would repaint the row's own colours;
/// the white title, the blue language and the format's hue are the information,
/// and selection must not flatten them into teal.
pub fn selected_row() -> (r: Look)
    ensures
        r == backed(SELECT_BG),
{
    wash(SELECT_BG)
}

/// A column header: quiet, so the data below it does the talking.
pub fn header() -> (r: Look)
    ensures
        r == bold_coloured(ACCENT_DEEP),
{
    bold_ink(ACCENT_DEEP)
}

} // verus!
