//! Terminal presentation: colour, width-aware layout, selections, and the text
//! of a progress bar.

use vstd::prelude::*;
use vstd::string::*;

use crate::double;
use crate::model;
use crate::model::human_bytes;
use crate::text;
use crate::text::{
    chars_of, concat, control, cut_out, dec, dec_padded, parse_usize, repeat, split_once, string_of,
    trim,
};

verus! {

// ---------------------------------------------------------------------------
// Colour
// ---------------------------------------------------------------------------

/// ANSI colour codes, emitted only when the stream is a terminal and the user
/// has not asked for plain output.
#[derive(Debug, Clone, Copy, PartialEq, Eq, Structural)]
pub struct Style {
    pub enabled: bool,
}

impl Style {
    /// `text` between the code that turns a colour on and the one that turns it
    /// off again; the bare text when colour is off.
    pub open spec fn painted(self, code: Seq<char>, t: Seq<char>) -> Seq<char> {
        if self.enabled {
            "\x1b["@ + code + "m"@ + t + "\x1b[0m"@
        } else {
            t
        }
    }

    pub open spec fn bold_text(self, t: Seq<char>) -> Seq<char> {
        self.painted("1"@, t)
    }

    pub open spec fn dim_text(self, t: Seq<char>) -> Seq<char> {
        self.painted("2"@, t)
    }

    pub open spec fn red_text(self, t: Seq<char>) -> Seq<char> {
        self.painted("31"@, t)
    }

    pub open spec fn green_text(self, t: Seq<char>) -> Seq<char> {
        self.painted("32"@, t)
    }

    pub open spec fn yellow_text(self, t: Seq<char>) -> Seq<char> {
        self.painted("33"@, t)
    }

    pub open spec fn cyan_text(self, t: Seq<char>) -> Seq<char> {
        self.painted("36"@, t)
    }

    /// Decide whether to colour: never when plain output was asked for or
    /// `NO_COLOR` is set, always when `CLICOLOR_FORCE` is, and otherwise when
    /// the output is a terminal.
    pub fn detect(force_plain: bool, no_color: bool, clicolor_force: bool, terminal: bool) -> (r:
        Self)
        ensures
            r.enabled == (!force_plain && !no_color && (clicolor_force || terminal)),
    {
        if force_plain || no_color {
            return Style { enabled: false };
        }
        if clicolor_force {
            return Style { enabled: true };
        }
        Style { enabled: terminal }
    }

    /// No colour at all.
    pub fn plain() -> (r: Self)
        ensures
            !r.enabled,
    {
        Style { enabled: false }
    }

    fn wrap(&self, code: &str, t: &str) -> (r: String)
        ensures
            r@ == self.painted(code@, t@),
    {
        if self.enabled {
            let mut out = "\x1b[".to_owned();
            out.append(code);
            out.append("m");
            out.append(t);
            out.append("\x1b[0m");
            out
        } else {
            t.to_owned()
        }
    }

    pub fn bold(&self, t: &str) -> (r: String)
        ensures
            r@ == self.bold_text(t@),
    {
        self.wrap("1", t)
    }

    pub fn dim(&self, t: &str) -> (r: String)
        ensures
            r@ == self.dim_text(t@),
    {
        self.wrap("2", t)
    }

    pub fn red(&self, t: &str) -> (r: String)
        ensures
            r@ == self.red_text(t@),
    {
        self.wrap("31", t)
    }

    pub fn green(&self, t: &str) -> (r: String)
        ensures
            r@ == self.green_text(t@),
    {
        self.wrap("32", t)
    }

    pub fn yellow(&self, t: &str) -> (r: String)
        ensures
            r@ == self.yellow_text(t@),
    {
        self.wrap("33", t)
    }

    pub fn cyan(&self, t: &str) -> (r: String)
        ensures
            r@ == self.cyan_text(t@),
    {
        self.wrap("36", t)
    }
}

// ---------------------------------------------------------------------------
// Size of the terminal
// ---------------------------------------------------------------------------

pub open spec fn held(n: int, lo: int, hi: int) -> int {
    if n < lo {
        lo
    } else if n > hi {
        hi
    } else {
        n
    }
}

fn clamp(n: usize, lo: usize, hi: usize) -> (r: usize)
    ensures
        r == held(n as int, lo as int, hi as int),
{
    if n < lo {
        lo
    } else if n > hi {
        hi
    } else {
        n
    }
}

/// The number an environment variable holds, or a default where it is unset or
/// holds none.
pub open spec fn number_or(var: Option<Seq<char>>, default: int) -> int {
    match var {
        Some(v) => match text::number(v) {
            Some(n) => if n <= usize::MAX {
                n as int
            } else {
                default
            },
            None => default,
        },
        None => default,
    }
}

fn read_number(var: &Option<String>, default: usize) -> (r: usize)
    ensures
        r == number_or(var.deep_view(), default as int),
{
    match var {
        Some(v) => match parse_usize(v) {
            Some(n) => n,
            None => default,
        },
        None => default,
    }
}

/// Terminal size as `(columns, rows)`: the window's own size where it is known,
/// else what `COLUMNS` and `LINES` say, else 90 by 30. Held within bounds so a
/// very small or absurdly large terminal still produces a sane layout.
pub fn terminal_size(
    window: Option<(usize, usize)>,
    columns: &Option<String>,
    lines: &Option<String>,
) -> (r: (usize, usize))
    ensures
        match window {
            Some((c, l)) => r == (
                held(c as int, 40, 200) as usize,
                held(l as int, 10, 200) as usize,
            ),
            None => r == (
                held(number_or(columns.deep_view(), 90), 40, 200) as usize,
                held(number_or(lines.deep_view(), 30), 10, 200) as usize,
            ),
        },
        40 <= r.0 <= 200,
        10 <= r.1 <= 200,
{
    match window {
        Some((c, l)) => (clamp(c, 40, 200), clamp(l, 10, 200)),
        None => (clamp(read_number(columns, 90), 40, 200), clamp(read_number(lines, 30), 10, 200)),
    }
}

/// Terminal width in columns.
pub fn terminal_width(window: Option<(usize, usize)>, columns: &Option<String>) -> (r: usize)
    ensures
        r == held(
            match window {
                Some((c, _)) => c as int,
                None => number_or(columns.deep_view(), 90),
            },
            40,
            200,
        ),
        40 <= r <= 200,
{
    terminal_size(window, columns, &None).0
}

// ---------------------------------------------------------------------------
// Width of text
// ---------------------------------------------------------------------------

pub open spec fn between(c: u32, lo: u32, hi: u32) -> bool {
    lo <= c <= hi
}

/// How many terminal cells a character takes: none for control characters and
/// combining marks, two for wide and full-width forms, one for the rest.
pub open spec fn cell_width(c: char) -> nat {
    let cp = c as u32;
    if text::is_control(c) {
        0
    } else if between(cp, 0x0300, 0x036F) || between(cp, 0x1AB0, 0x1AFF) || between(
        cp,
        0x20D0,
        0x20FF,
    ) || between(cp, 0xFE20, 0xFE2F) {
        0
    } else if between(cp, 0x1100, 0x115F) || between(cp, 0x2E80, 0x303E) || between(
        cp,
        0x3041,
        0x33FF,
    ) || between(cp, 0x3400, 0x4DBF) || between(cp, 0x4E00, 0x9FFF) || between(
        cp,
        0xA000,
        0xA4CF,
    ) || between(cp, 0xAC00, 0xD7A3) || between(cp, 0xF900, 0xFAFF) || between(
        cp,
        0xFE30,
        0xFE6F,
    ) || between(cp, 0xFF00, 0xFF60) || between(cp, 0xFFE0, 0xFFE6) || between(
        cp,
        0x1F300,
        0x1F64F,
    ) || between(cp, 0x1F900, 0x1F9FF) || between(cp, 0x20000, 0x3FFFD) {
        2
    } else {
        1
    }
}

fn within(c: u32, lo: u32, hi: u32) -> (r: bool)
    ensures
        r == between(c, lo, hi),
{
    lo <= c && c <= hi
}

pub fn char_width(c: char) -> (r: usize)
    ensures
        r == cell_width(c),
        r <= 2,
{
    let cp = c as u32;
    if control(c) {
        return 0;
    }
    if within(cp, 0x0300, 0x036F) || within(cp, 0x1AB0, 0x1AFF) || within(cp, 0x20D0, 0x20FF)
        || within(cp, 0xFE20, 0xFE2F) {
        return 0;
    }
    if within(cp, 0x1100, 0x115F) || within(cp, 0x2E80, 0x303E) || within(cp, 0x3041, 0x33FF)
        || within(cp, 0x3400, 0x4DBF) || within(cp, 0x4E00, 0x9FFF) || within(cp, 0xA000, 0xA4CF)
        || within(cp, 0xAC00, 0xD7A3) || within(cp, 0xF900, 0xFAFF) || within(cp, 0xFE30, 0xFE6F)
        || within(cp, 0xFF00, 0xFF60) || within(cp, 0xFFE0, 0xFFE6) || within(
        cp,
        0x1F300,
        0x1F64F,
    ) || within(cp, 0x1F900, 0x1F9FF) || within(cp, 0x20000, 0x3FFFD) {
        return 2;
    }
    1
}

/// How many terminal cells a text takes.
pub open spec fn cells(s: Seq<char>) -> nat
    decreases s.len(),
{
    if s.len() == 0 {
        0
    } else {
        cells(s.drop_last()) + cell_width(s.last())
    }
}

/// A text takes as many cells as its parts together.
pub proof fn lemma_cells_concat(a: Seq<char>, b: Seq<char>)
    ensures
        cells(a + b) == cells(a) + cells(b),
    decreases b.len(),
{
    if b.len() == 0 {
        assert(a + b =~= a);
    } else {
        assert((a + b).drop_last() =~= a + b.drop_last());
        lemma_cells_concat(a, b.drop_last());
    }
}

pub proof fn lemma_cells_repeated(c: char, n: int)
    requires
        n >= 0,
    ensures
        cells(text::repeated(c, n)) == n * cell_width(c),
    decreases n,
{
    let w = cell_width(c) as int;
    if n > 0 {
        assert(text::repeated(c, n).drop_last() =~= text::repeated(c, n - 1));
        lemma_cells_repeated(c, n - 1);
        assert((n - 1) * w + w == n * w) by (nonlinear_arith);
    } else {
        assert(0 * w == 0) by (nonlinear_arith);
    }
}

/// A part of a text takes no more cells than the whole.
pub proof fn lemma_cells_take(s: Seq<char>, k: int)
    requires
        0 <= k <= s.len(),
    ensures
        cells(s.take(k)) <= cells(s),
    decreases s.len() - k,
{
    if k < s.len() {
        assert(s.take(k + 1).drop_last() =~= s.take(k));
        lemma_cells_take(s, k + 1);
    } else {
        assert(s.take(k) =~= s);
    }
}

/// A number held at the largest a machine word holds.
pub open spec fn in_word(n: nat) -> usize {
    if n <= usize::MAX {
        n as usize
    } else {
        usize::MAX
    }
}

/// Display width of a string in terminal cells.
pub fn display_width(s: &str) -> (r: usize)
    ensures
        r == in_word(cells(s@)),
{
    let v = chars_of(s);
    let mut n: usize = 0;
    let mut i: usize = 0;
    assert(v@.take(0) =~= seq![]);
    while i < v.len()
        invariant
            i <= v@.len(),
            v@ == s@,
            n == in_word(cells(v@.take(i as int))),
        decreases v@.len() - i,
    {
        assert(v@.take(i + 1).drop_last() =~= v@.take(i as int));
        n = n.saturating_add(char_width(v[i]));
        i += 1;
    }
    assert(v@.take(v@.len() as int) =~= v@);
    n
}

/// The display width of two texts one after the other is the sum of theirs, as
/// long as a machine word holds it; an empty text has none; and no character
/// takes more than two cells.
pub proof fn lemma_display_width(a: Seq<char>, b: Seq<char>)
    ensures
        cells(a) + cells(b) <= usize::MAX ==> in_word(cells(a + b)) == in_word(cells(a)) + in_word(
            cells(b),
        ),
        cells(a) + cells(b) > usize::MAX ==> in_word(cells(a + b)) == usize::MAX,
        in_word(cells(seq![])) == 0,
        in_word(cells(a)) <= 2 * a.len(),
{
    lemma_cells_concat(a, b);
    lemma_cells_bound(a);
}

proof fn lemma_cells_bound(s: Seq<char>)
    ensures
        cells(s) <= 2 * s.len(),
    decreases s.len(),
{
    if s.len() > 0 {
        lemma_cells_bound(s.drop_last());
    }
}

/// Whether a text takes at most `width` cells.
pub fn fits(v: &Vec<char>, width: usize) -> (r: bool)
    ensures
        r == (cells(v@) <= width),
{
    let mut left: usize = width;
    let mut i: usize = 0;
    assert(v@.take(0) =~= seq![]);
    while i < v.len()
        invariant
            i <= v@.len(),
            left + cells(v@.take(i as int)) == width,
        decreases v@.len() - i,
    {
        assert(v@.take(i + 1).drop_last() =~= v@.take(i as int));
        let w = char_width(v[i]);
        if w > left {
            proof {
                lemma_cells_take(v@, i + 1);
            }
            return false;
        }
        left = left - w;
        i += 1;
    }
    assert(v@.take(v@.len() as int) =~= v@);
    true
}

/// How many characters from position `i` on fit into `room` cells of which
/// `used` are taken, counted from the start of the text.
pub open spec fn fitting(s: Seq<char>, room: int, i: int, used: int) -> int
    decreases s.len() - i,
{
    if i >= s.len() {
        i
    } else if used + cell_width(s[i]) > room {
        i
    } else {
        fitting(s, room, i + 1, used + cell_width(s[i]))
    }
}

/// A text cut to `width` cells, with an ellipsis where anything was cut.
pub open spec fn truncated(s: Seq<char>, width: int) -> Seq<char> {
    if cells(s) <= width {
        s
    } else if width <= 0 {
        seq![]
    } else {
        s.take(fitting(s, width - 1, 0, 0)).push('…')
    }
}

/// How many characters at the start of a text fit into `room` cells.
pub fn fitting_chars(v: &Vec<char>, room: usize) -> (r: usize)
    ensures
        r == fitting(v@, room as int, 0, 0),
        r <= v@.len(),
{
    let mut used: usize = 0;
    let mut i: usize = 0;
    while i < v.len()
        invariant
            i <= v@.len(),
            used <= room,
            fitting(v@, room as int, 0, 0) == fitting(v@, room as int, i as int, used as int),
        decreases v@.len() - i,
    {
        let w = char_width(v[i]);
        if w > room - used {
            return i;
        }
        used = used + w;
        i += 1;
    }
    i
}

/// Truncate to `width` display cells, appending `…` when anything was cut.
pub fn truncate(s: &str, width: usize) -> (r: String)
    ensures
        r@ == truncated(s@, width as int),
{
    let v = chars_of(s);
    if fits(&v, width) {
        return s.to_owned();
    }
    if width == 0 {
        return String::new();
    }
    let i = fitting_chars(&v, width - 1);
    assert(v@.subrange(0, i as int) =~= v@.take(i as int));
    let mut out = string_of(cut_out(&v, 0, i));
    out.push('…');
    out
}

proof fn lemma_fitting(s: Seq<char>, room: int, i: int, used: int)
    requires
        0 <= i <= s.len(),
        0 <= used <= room,
        used == cells(s.take(i)),
    ensures
        i <= fitting(s, room, i, used) <= s.len(),
        cells(s.take(fitting(s, room, i, used))) <= room,
    decreases s.len() - i,
{
    if i < s.len() && used + cell_width(s[i]) <= room {
        assert(s.take(i + 1).drop_last() =~= s.take(i));
        lemma_fitting(s, room, i + 1, used + cell_width(s[i]) as int);
    }
}

/// What fits of a text is a beginning of it.
pub proof fn lemma_fitting_range(s: Seq<char>, room: int)
    requires
        room >= 0,
    ensures
        0 <= fitting(s, room, 0, 0) <= s.len(),
{
    assert(s.take(0) =~= seq![]);
    lemma_fitting(s, room, 0, 0);
}

proof fn lemma_fitting_second(a: Seq<char>, b: Seq<char>, room: int, j: int, used: int)
    requires
        0 <= j <= b.len(),
    ensures
        fitting(a + b, room + cells(a), a.len() + j, used + cells(a)) == a.len() + fitting(
            b,
            room,
            j,
            used,
        ),
    decreases b.len() - j,
{
    if j < b.len() {
        assert((a + b)[a.len() + j] == b[j]);
        lemma_fitting_second(a, b, room, j + 1, used + cell_width(b[j]) as int);
    }
}

proof fn lemma_fitting_first(a: Seq<char>, b: Seq<char>, room: int, i: int)
    requires
        0 <= i <= a.len(),
        cells(a.take(i)) <= room,
    ensures
        fitting(a + b, room, i, cells(a.take(i)) as int) == (if cells(a) <= room {
            a.len() + fitting(b, room - cells(a), 0, 0)
        } else {
            fitting(a, room, i, cells(a.take(i)) as int)
        }),
    decreases a.len() - i,
{
    if i < a.len() {
        assert((a + b)[i] == a[i]);
        assert(a.take(i + 1).drop_last() =~= a.take(i));
        lemma_cells_take(a, i + 1);
        if cells(a.take(i + 1)) <= room {
            lemma_fitting_first(a, b, room, i + 1);
        }
    } else {
        assert(a.take(i) =~= a);
        lemma_fitting_second(a, b, room - cells(a), 0, 0);
    }
}

/// Of two texts one after the other, all of the first fits and what fits of
/// the second, or only what fits of the first.
pub proof fn lemma_fitting_concat(a: Seq<char>, b: Seq<char>, room: int)
    requires
        room >= 0,
    ensures
        fitting(a + b, room, 0, 0) == (if cells(a) <= room {
            a.len() + fitting(b, room - cells(a), 0, 0)
        } else {
            fitting(a, room, 0, 0)
        }),
{
    assert(a.take(0) =~= seq![]);
    lemma_fitting_first(a, b, room, 0);
}

/// A truncated text never takes more cells than it was allowed.
pub proof fn lemma_truncated_fits(s: Seq<char>, width: int)
    requires
        width >= 0,
    ensures
        cells(truncated(s, width)) <= width,
{
    if cells(s) > width && width > 0 {
        assert(s.take(0) =~= seq![]);
        lemma_fitting(s, width - 1, 0, 0);
        let t = s.take(fitting(s, width - 1, 0, 0));
        assert(t.push('…').drop_last() =~= t);
        assert(cell_width('…') == 1);
    }
}

/// A text with spaces after it up to `width` cells.
pub open spec fn padded(s: Seq<char>, width: int) -> Seq<char> {
    s + text::repeated(' ', width - cells(s))
}

/// A text with spaces before it up to `width` cells.
pub open spec fn padded_left(s: Seq<char>, width: int) -> Seq<char> {
    text::repeated(' ', width - cells(s)) + s
}

/// Pad on the right to `width` display cells.
pub fn pad(s: &str, width: usize) -> (r: String)
    ensures
        r@ == padded(s@, width as int),
{
    let w = display_width(s);
    if w >= width {
        assert(padded(s@, width as int) =~= s@);
        s.to_owned()
    } else {
        let fill = repeat(' ', width - w);
        concat(s, &fill)
    }
}

/// Pad on the left to `width` display cells.
pub fn pad_left(s: &str, width: usize) -> (r: String)
    ensures
        r@ == padded_left(s@, width as int),
{
    let w = display_width(s);
    if w >= width {
        assert(padded_left(s@, width as int) =~= s@);
        s.to_owned()
    } else {
        let fill = repeat(' ', width - w);
        concat(&fill, s)
    }
}

/// A padded text takes exactly the width asked for, or its own where that is
/// more; and the text itself is all there.
pub proof fn lemma_padded_width(s: Seq<char>, width: int)
    ensures
        cells(padded(s, width)) == (if cells(s) >= width {
            cells(s) as int
        } else {
            width
        }),
        cells(padded_left(s, width)) == (if cells(s) >= width {
            cells(s) as int
        } else {
            width
        }),
        padded(s, width).take(s.len() as int) == s,
{
    let n = width - cells(s);
    let fill = text::repeated(' ', n);
    lemma_cells_concat(s, fill);
    lemma_cells_concat(fill, s);
    if n >= 0 {
        lemma_cells_repeated(' ', n);
        assert(cell_width(' ') == 1);
        assert(n * 1 == n);
    } else {
        assert(fill =~= seq![]);
    }
    assert(padded(s, width).take(s.len() as int) =~= s);
}

/// A text cut and padded to a column takes exactly that column.
pub proof fn lemma_column_width(s: Seq<char>, width: int)
    requires
        width >= 0,
    ensures
        cells(padded(truncated(s, width), width)) == width,
        cells(padded_left(truncated(s, width), width)) == width,
{
    lemma_truncated_fits(s, width);
    lemma_padded_width(truncated(s, width), width);
}

// ---------------------------------------------------------------------------
// What colour leaves alone
// ---------------------------------------------------------------------------

/// The character that begins a colour code.
pub const ESCAPE: char = '\u{1b}';

/// How long the colour code is that a text begins with: an escape, a bracket,
/// digits and an `m`. Zero where it begins with none.
pub open spec fn code_length(s: Seq<char>) -> int {
    let e = model::digits_end(s, 2);
    if s.len() > 2 && s[0] == ESCAPE && s[1] == '[' && 2 < e < s.len() && s[e] == 'm' {
        e + 1
    } else {
        0
    }
}

/// A text with every colour code taken out.
pub open spec fn uncoloured(s: Seq<char>) -> Seq<char>
    decreases s.len(),
{
    if s.len() == 0 {
        s
    } else if code_length(s) > 0 {
        uncoloured(s.skip(code_length(s)))
    } else {
        seq![s[0]] + uncoloured(s.skip(1))
    }
}

/// Whether a text is another, which holds no escape, with colour codes in it,
/// whatever comes after.
pub open spec fn colours(s: Seq<char>, t: Seq<char>) -> bool {
    &&& text::free_of(t, ESCAPE)
    &&& forall|rest: Seq<char>| #[trigger] uncoloured(s + rest) == t + uncoloured(rest)
}

/// Taking the codes out of a coloured text gives the text.
pub proof fn lemma_uncoloured(s: Seq<char>, t: Seq<char>)
    requires
        colours(s, t),
    ensures
        uncoloured(s) == t,
        text::free_of(t, ESCAPE),
{
    let none = Seq::<char>::empty();
    assert(uncoloured(s + none) == t + uncoloured(none));
    assert(s + none =~= s);
    assert(t + uncoloured(none) =~= t);
}

/// Coloured texts one after the other are their texts coloured.
pub proof fn lemma_colours_join(a: Seq<char>, x: Seq<char>, b: Seq<char>, y: Seq<char>)
    requires
        colours(a, x),
        colours(b, y),
    ensures
        colours(a + b, x + y),
{
    assert forall|rest: Seq<char>| #[trigger] uncoloured((a + b) + rest) == (x + y) + uncoloured(
        rest,
    ) by {
        assert((a + b) + rest =~= a + (b + rest));
        assert(uncoloured(b + rest) == y + uncoloured(rest));
        assert(uncoloured(a + (b + rest)) == x + uncoloured(b + rest));
        assert(x + (y + uncoloured(rest)) =~= (x + y) + uncoloured(rest));
    }
}

proof fn lemma_plain_before(t: Seq<char>, rest: Seq<char>)
    requires
        text::free_of(t, ESCAPE),
    ensures
        uncoloured(t + rest) == t + uncoloured(rest),
    decreases t.len(),
{
    if t.len() == 0 {
        assert(t + rest =~= rest);
        assert(t + uncoloured(rest) =~= uncoloured(rest));
    } else {
        assert((t + rest)[0] == t[0]);
        assert((t + rest).skip(1) =~= t.skip(1) + rest);
        lemma_plain_before(t.skip(1), rest);
        assert(seq![t[0]] + (t.skip(1) + uncoloured(rest)) =~= t + uncoloured(rest));
    }
}

/// A text without an escape is itself, coloured nowhere.
pub proof fn lemma_plain_colours(t: Seq<char>)
    requires
        text::free_of(t, ESCAPE),
    ensures
        colours(t, t),
{
    assert forall|rest: Seq<char>| #[trigger] uncoloured(t + rest) == t + uncoloured(rest) by {
        lemma_plain_before(t, rest);
    }
}

proof fn lemma_code_end(code: Seq<char>, w: Seq<char>, i: int)
    requires
        text::all_digits(code),
        2 <= i <= 2 + code.len(),
        2 + code.len() < w.len(),
        w.subrange(2, 2 + code.len() as int) == code,
        w[2 + code.len() as int] == 'm',
    ensures
        model::digits_end(w, i) == 2 + code.len(),
    decreases 2 + code.len() - i,
{
    if i < 2 + code.len() {
        assert(w[i] == code[i - 2]);
        assert(text::is_digit(code[i - 2]));
        lemma_code_end(code, w, i + 1);
    }
}

proof fn lemma_code_colours(code: Seq<char>)
    requires
        text::all_digits(code),
        code.len() > 0,
    ensures
        colours("\x1b["@ + code + "m"@, seq![]),
{
    let c = "\x1b["@ + code + "m"@;
    reveal_strlit("\x1b[");
    reveal_strlit("m");
    assert forall|rest: Seq<char>| #[trigger] uncoloured(c + rest) == Seq::<char>::empty()
        + uncoloured(rest) by {
        let w = c + rest;
        assert(w.subrange(2, 2 + code.len() as int) =~= code);
        lemma_code_end(code, w, 2);
        assert(code_length(w) == c.len());
        assert(w.skip(c.len() as int) =~= rest);
        assert(Seq::<char>::empty() + uncoloured(rest) =~= uncoloured(rest));
    }
}

/// A painted text is the text coloured.
pub proof fn lemma_painted_colours(style: Style, code: Seq<char>, t: Seq<char>)
    requires
        text::all_digits(code),
        code.len() > 0,
        text::free_of(t, ESCAPE),
    ensures
        colours(style.painted(code, t), t),
{
    lemma_plain_colours(t);
    if style.enabled {
        let on = "\x1b["@ + code + "m"@;
        let off = "\x1b["@ + "0"@ + "m"@;
        reveal_strlit("\x1b[");
        reveal_strlit("0");
        reveal_strlit("m");
        reveal_strlit("\x1b[0m");
        assert(off =~= "\x1b[0m"@);
        assert(text::is_digit("0"@[0]));
        lemma_code_colours(code);
        lemma_code_colours("0"@);
        lemma_colours_join(on, seq![], t, t);
        lemma_colours_join(on + t, seq![] + t, off, seq![]);
        assert(Seq::<char>::empty() + t + seq![] =~= t);
        assert(on + t + off =~= style.painted(code, t));
    }
}

// ---------------------------------------------------------------------------
// Selections
// ---------------------------------------------------------------------------

/// The parts of a selection: what stands between commas and spaces, trimmed,
/// leaving out what is blank.
pub open spec fn parts_from(s: Seq<char>, from: int, i: int) -> Seq<Seq<char>>
    decreases s.len() + 1 - i,
{
    if i > s.len() {
        seq![]
    } else if i == s.len() || s[i] == ',' || s[i] == ' ' {
        let piece = text::trimmed(s.subrange(from, i));
        if piece.len() == 0 {
            parts_from(s, i + 1, i + 1)
        } else {
            seq![piece] + parts_from(s, i + 1, i + 1)
        }
    } else {
        parts_from(s, from, i + 1)
    }
}

/// The number a text stands for, where a machine word holds it.
pub open spec fn word_of(s: Seq<char>) -> Option<int> {
    match text::number(s) {
        Some(n) => if n <= usize::MAX {
            Some(n as int)
        } else {
            None
        },
        None => None,
    }
}

pub open spec fn not_a_number(s: Seq<char>) -> Seq<char> {
    "`"@ + s + "` is not a number"@
}

pub open spec fn is_outside(s: Seq<char>, max: int) -> Seq<char> {
    "`"@ + s + "` is outside 1-"@ + text::decimal(max as nat)
}

/// What one part selects, counting from one: a first and a last number; or what
/// is wrong with it.
pub open spec fn part_range(part: Seq<char>, max: int) -> Result<(int, int), Seq<char>> {
    match text::cut(part, '-') {
        Some((a, b)) => {
            let lo = text::trimmed(a);
            let hi = text::trimmed(b);
            match (word_of(lo), word_of(hi)) {
                (None, _) => Err(not_a_number(lo)),
                (_, None) => Err(not_a_number(hi)),
                (Some(l), Some(h)) => if l == 0 || h == 0 || l > max || h > max {
                    Err(is_outside(part, max))
                } else if l > h {
                    Err("`"@ + part + "` counts backwards"@)
                } else {
                    Ok((l, h))
                },
            }
        },
        None => match word_of(part) {
            None => Err(not_a_number(part)),
            Some(n) => if n == 0 || n > max {
                Err(is_outside(text::decimal(n as nat), max))
            } else {
                Ok((n, n))
            },
        },
    }
}

/// What is wrong with the first part that cannot be read, if one cannot.
pub open spec fn selection_fault(parts: Seq<Seq<char>>, max: int) -> Option<Seq<char>>
    decreases parts.len(),
{
    if parts.len() == 0 {
        None
    } else {
        match selection_fault(parts.drop_last(), max) {
            Some(e) => Some(e),
            None => match part_range(parts.last(), max) {
                Ok(_) => None,
                Err(e) => Some(e),
            },
        }
    }
}

/// Whether a part selects number `n`.
pub open spec fn part_selects(part: Seq<char>, max: int, n: int) -> bool {
    match part_range(part, max) {
        Ok((lo, hi)) => lo <= n <= hi,
        Err(_) => false,
    }
}

/// Whether any part selects number `n`.
pub open spec fn selects(parts: Seq<Seq<char>>, max: int, n: int) -> bool {
    exists|i: int| 0 <= i < parts.len() && part_selects(#[trigger] parts[i], max, n)
}

pub open spec fn ascending(v: Seq<usize>) -> bool {
    forall|i: int, j: int| 0 <= i < j < v.len() ==> v[i] < v[j]
}

fn selection_parts(s: &str) -> (r: Vec<String>)
    ensures
        text::texts(r@) == parts_from(s@, 0, 0),
{
    let v = chars_of(s);
    let n: usize = v.len();
    let mut out: Vec<String> = Vec::new();
    let mut from: usize = 0;
    let mut i: usize = 0;
    assert(text::texts(out@) + parts_from(v@, 0, 0) =~= parts_from(v@, 0, 0));
    loop
        invariant
            from <= i <= n,
            n == v@.len(),
            v@ == s@,
            text::texts(out@) + parts_from(v@, from as int, i as int) == parts_from(v@, 0, 0),
        decreases n - i,
    {
        if i == n || v[i] == ',' || v[i] == ' ' {
            let piece = trim(&string_of(cut_out(&v, from, i)));
            let ghost before = text::texts(out@);
            let ghost said = piece@;
            if !piece.as_str().is_empty() {
                out.push(piece);
                assert(text::texts(out@) =~= before.push(said));
            }
            assert(text::texts(out@) + parts_from(v@, i + 1, i + 1) =~= before + parts_from(
                v@,
                from as int,
                i as int,
            ));
            if i == n {
                assert(parts_from(v@, i + 1, i + 1) =~= seq![]);
                assert(text::texts(out@) + parts_from(v@, i + 1, i + 1) =~= text::texts(out@));
                return out;
            }
            i += 1;
            from = i;
        } else {
            i += 1;
        }
    }
}

fn number_fault(s: &str) -> (r: String)
    ensures
        r@ == not_a_number(s@),
{
    let mut out = "`".to_owned();
    out.append(s);
    out.append("` is not a number");
    out
}

fn outside_fault(s: &str, max: usize) -> (r: String)
    ensures
        r@ == is_outside(s@, max as int),
{
    let mut out = "`".to_owned();
    out.append(s);
    out.append("` is outside 1-");
    out.append(&dec(max as u64));
    out
}

fn read_part(part: &str, max: usize) -> (r: Result<(usize, usize), String>)
    ensures
        match r {
            Ok((lo, hi)) => part_range(part@, max as int) == Ok::<(int, int), Seq<char>>(
                (lo as int, hi as int),
            ) && 1 <= lo <= hi <= max,
            Err(e) => part_range(part@, max as int) == Err::<(int, int), Seq<char>>(e@),
        },
{
    match split_once(part, '-') {
        Some((a, b)) => {
            let lo = trim(&a);
            let hi = trim(&b);
            let l = match parse_usize(&lo) {
                Some(l) => l,
                None => return Err(number_fault(&lo)),
            };
            let h = match parse_usize(&hi) {
                Some(h) => h,
                None => return Err(number_fault(&hi)),
            };
            if l == 0 || h == 0 || l > max || h > max {
                return Err(outside_fault(part, max));
            }
            if l > h {
                let mut out = "`".to_owned();
                out.append(part);
                out.append("` counts backwards");
                return Err(out);
            }
            Ok((l, h))
        },
        None => {
            let n = match parse_usize(part) {
                Some(n) => n,
                None => return Err(number_fault(part)),
            };
            if n == 0 || n > max {
                return Err(outside_fault(&dec(n as u64), max));
            }
            Ok((n, n))
        },
    }
}

/// Put a number in its place in an ascending list, once.
fn place(v: &mut Vec<usize>, n: usize)
    requires
        ascending(old(v)@),
    ensures
        ascending(final(v)@),
        forall|k: usize| #[trigger] final(v)@.contains(k) <==> old(v)@.contains(k) || k == n,
{
    let mut at: usize = 0;
    while at < v.len() && v[at] < n
        invariant
            at <= v@.len(),
            v@ == old(v)@,
            forall|k: int| 0 <= k < at ==> v@[k] < n,
        decreases v@.len() - at,
    {
        at += 1;
    }
    if at < v.len() && v[at] == n {
        assert(v@[at as int] == n);
        return ;
    }
    let ghost before = v@;
    v.insert(at, n);
    assert(before == old(v)@);
    assert forall|k: usize| #[trigger] v@.contains(k) <==> before.contains(k) || k == n by {
        if before.contains(k) {
            let i = choose|i: int| 0 <= i < before.len() && before[i] == k;
            assert(v@[if i < at { i } else { i + 1 }] == k);
        }
        if k == n {
            assert(v@[at as int] == n);
        }
        if v@.contains(k) {
            let i = choose|i: int| 0 <= i < v@.len() && v@[i] == k;
            if i != at {
                assert(before[if i < at { i } else { i - 1 }] == k);
            }
        }
    }
}

/// Parse a selection like `3`, `1,4,7`, `2-5`, or `1-3, 8` into indices.
///
/// Values are 1-based on the way in and 0-based on the way out, ascending and
/// without repeats. Out-of-range entries are an error rather than silently
/// dropped, so a typo does not quietly download the wrong thing.
pub fn parse_selection(input: &str, max: usize) -> (r: Result<Vec<usize>, String>)
    ensures
        ({
            let s = text::trimmed(input@);
            let parts = parts_from(s, 0, 0);
            match r {
                Ok(v) => {
                    &&& s.len() > 0
                    &&& selection_fault(parts, max as int) is None
                    &&& ascending(v@)
                    &&& forall|k: usize| #[trigger] v@.contains(k) <==> selects(
                        parts,
                        max as int,
                        k + 1,
                    )
                    &&& forall|i: int| 0 <= i < v@.len() ==> v@[i] < max
                },
                Err(e) => if s.len() == 0 {
                    e@ == "nothing entered"@
                } else {
                    selection_fault(parts, max as int) == Some(e@)
                },
            }
        }),
{
    let cleaned = trim(input);
    if cleaned.as_str().is_empty() {
        return Err("nothing entered".to_owned());
    }
    let parts = selection_parts(&cleaned);
    let ghost all = text::texts(parts@);
    let mut out: Vec<usize> = Vec::new();
    let mut i: usize = 0;
    assert(all.take(0) =~= seq![]);
    while i < parts.len()
        invariant
            i <= parts@.len(),
            all == text::texts(parts@),
            cleaned@ == text::trimmed(input@),
            cleaned@.len() > 0,
            all == parts_from(cleaned@, 0, 0),
            selection_fault(all.take(i as int), max as int) is None,
            ascending(out@),
            forall|k: usize| #[trigger] out@.contains(k) <==> selects(
                all.take(i as int),
                max as int,
                k + 1,
            ),
            forall|k: int| 0 <= k < out@.len() ==> out@[k] < max,
        decreases parts@.len() - i,
    {
        proof {
            assert(all.take(i + 1).drop_last() =~= all.take(i as int));
            assert(all.take(i + 1).last() == parts@[i as int]@);
        }
        let (lo, hi) = match read_part(&parts[i], max) {
            Ok(range) => range,
            Err(e) => {
                proof {
                    lemma_fault_stays(all, max as int, i + 1);
                }
                return Err(e);
            },
        };
        let ghost before = out@;
        let mut n: usize = lo;
        loop
            invariant_except_break
                lo <= n <= hi,
                forall|k: usize| #[trigger]
                    out@.contains(k) <==> before.contains(k) || lo <= k + 1 < n,
            invariant
                1 <= lo,
                ascending(out@),
            ensures
                forall|k: usize| #[trigger]
                    out@.contains(k) <==> before.contains(k) || lo <= k + 1 <= hi,
            decreases hi - n,
        {
            place(&mut out, n - 1);
            if n == hi {
                break;
            }
            n += 1;
        }
        proof {
            assert forall|k: usize| #[trigger] out@.contains(k) <==> selects(
                all.take(i + 1),
                max as int,
                k + 1,
            ) by {
                lemma_selects_step(all, max as int, i as int, k + 1);
            }
            assert forall|k: int| 0 <= k < out@.len() implies out@[k] < max by {
                assert(out@.contains(out@[k]));
                if before.contains(out@[k]) {
                    let j = choose|j: int| 0 <= j < before.len() && before[j] == out@[k];
                    assert(before[j] < max);
                }
            }
        }
        i += 1;
    }
    assert(all.take(all.len() as int) =~= all);
    Ok(out)
}

proof fn lemma_fault_stays(parts: Seq<Seq<char>>, max: int, k: int)
    requires
        0 <= k <= parts.len(),
        selection_fault(parts.take(k), max) is Some,
    ensures
        selection_fault(parts, max) == selection_fault(parts.take(k), max),
    decreases parts.len() - k,
{
    if k < parts.len() {
        assert(parts.take(k + 1).drop_last() =~= parts.take(k));
        lemma_fault_stays(parts, max, k + 1);
    } else {
        assert(parts.take(k) =~= parts);
    }
}

proof fn lemma_selects_step(all: Seq<Seq<char>>, max: int, i: int, n: int)
    requires
        0 <= i < all.len(),
    ensures
        selects(all.take(i + 1), max, n) == (selects(all.take(i), max, n) || part_selects(
            all[i],
            max,
            n,
        )),
{
    let a = all.take(i);
    let b = all.take(i + 1);
    if selects(a, max, n) {
        let j = choose|j: int| 0 <= j < a.len() && part_selects(#[trigger] a[j], max, n);
        assert(b[j] == a[j]);
    }
    if part_selects(all[i], max, n) {
        assert(b[i] == all[i]);
    }
    if selects(b, max, n) {
        let j = choose|j: int| 0 <= j < b.len() && part_selects(#[trigger] b[j], max, n);
        if j < i {
            assert(a[j] == b[j]);
        }
    }
}

// ---------------------------------------------------------------------------
// Progress
// ---------------------------------------------------------------------------

/// A single-line progress bar that redraws in place. Times are nanoseconds on
/// a clock that only moves forward.
#[derive(Debug)]
pub struct Progress {
    pub label: String,
    pub total: Option<u64>,
    pub current: u64,
    pub started: u64,
    pub last_draw: Option<u64>,
    pub style: Style,
    pub active: bool,
    pub width: usize,
}

/// How long a drawn bar is left alone: about twenty frames a second is smooth
/// enough.
pub const FRAME: u64 = 50_000_000;

/// A number of seconds, readably.
pub open spec fn eta_text(seconds: nat) -> Seq<char> {
    if seconds <= 59 {
        text::decimal(seconds) + "s"@
    } else if seconds <= 3599 {
        text::decimal(seconds / 60) + "m"@ + text::zero_padded(seconds % 60, 2) + "s"@
    } else {
        text::decimal(seconds / 3600) + "h"@ + text::zero_padded((seconds % 3600) / 60, 2) + "m"@
    }
}

pub fn format_eta(seconds: u64) -> (r: String)
    ensures
        r@ == eta_text(seconds as nat),
{
    if seconds <= 59 {
        let mut out = dec(seconds);
        out.append("s");
        out
    } else if seconds <= 3599 {
        let mut out = dec(seconds / 60);
        out.append("m");
        out.append(&dec_padded(seconds % 60, 2));
        out.append("s");
        out
    } else {
        let mut out = dec(seconds / 3600);
        out.append("h");
        out.append(&dec_padded((seconds % 3600) / 60, 2));
        out.append("m");
        out
    }
}

/// The share of a transfer that is done, at most one.
pub open spec fn share(done: nat, total: nat) -> double::Double {
    let x = double::quotient(double::of_nat(done), double::of_nat(total));
    if double::less(double::one(), x) {
        double::one()
    } else {
        x
    }
}

/// Work out the share of a transfer that is done.
pub fn share_of(done: u64, total: u64) -> (r: double::Double)
    requires
        total > 0,
    ensures
        r == share(done as nat, total as nat),
        r.wf(),
        -200 <= r.e <= 100,
{
    let d = double::from_u64(done);
    let t = double::from_u64(total);
    double::at_most_one(double::over(d, t))
}

/// How many of `width` cells a share fills.
pub open spec fn filled_cells(x: double::Double, width: nat) -> nat {
    double::capped(
        double::rounded(double::product(x, double::of_nat(width))),
        width as u64,
    ) as nat
}

pub fn filled_of(x: double::Double, width: usize) -> (r: usize)
    requires
        x.wf(),
        -200 <= x.e <= 100,
    ensures
        r == filled_cells(x, width as nat),
        r <= width,
{
    let w = double::from_u64(width as u64);
    double::round(double::times(x, w), width as u64) as usize
}

/// A share as a whole percentage.
pub open spec fn percent(x: double::Double) -> nat {
    double::capped(double::whole(double::product(x, double::of_nat(100))), u32::MAX as u64) as nat
}

pub fn percent_of(x: double::Double) -> (r: u64)
    requires
        x.wf(),
        -200 <= x.e <= 200,
    ensures
        r == percent(x),
{
    let h = double::from_u64(100);
    double::trunc(double::times(x, h), u32::MAX as u64)
}

/// Spaces before a text up to a number of characters.
pub open spec fn right_aligned(s: Seq<char>, width: int) -> Seq<char> {
    text::repeated(' ', width - s.len()) + s
}

pub fn align_right(s: &str, width: usize) -> (r: String)
    ensures
        r@ == right_aligned(s@, width as int),
{
    let n = s.unicode_len();
    let fill = repeat(' ', if width > n { width - n } else { 0 });
    assert(fill@ =~= text::repeated(' ', width - n));
    concat(&fill, s)
}

/// Spaces after a text up to a number of characters.
pub open spec fn left_aligned(s: Seq<char>, width: int) -> Seq<char> {
    s + text::repeated(' ', width - s.len())
}

pub fn align_left(s: &str, width: usize) -> (r: String)
    ensures
        r@ == left_aligned(s@, width as int),
{
    let n = s.unicode_len();
    let fill = repeat(' ', if width > n { width - n } else { 0 });
    assert(fill@ =~= text::repeated(' ', width - n));
    concat(s, &fill)
}

/// The seconds that have passed, as a fraction, and never less than one
/// thousandth.
pub open spec fn seconds(nanos: nat) -> double::Double {
    let x = double::quotient(double::of_nat(nanos), double::of_nat(1_000_000_000));
    let least = double::quotient(double::of_nat(1), double::of_nat(1000));
    if double::less(x, least) {
        least
    } else {
        x
    }
}

/// Bytes per second.
pub open spec fn rate(done: nat, nanos: nat) -> double::Double {
    double::quotient(double::of_nat(done), seconds(nanos))
}

fn rate_of(done: u64, nanos: u64) -> (r: double::Double)
    ensures
        r == rate(done as nat, nanos as nat),
        r.wf(),
        -117 <= r.e <= 77,
        (done == 0) == (r.m == 0),
{
    let x = double::over(double::from_u64(nanos), double::from_u64(1_000_000_000));
    let least = double::over(double::from_u64(1), double::from_u64(1000));
    let secs = if double::lt(x, least) {
        least
    } else {
        x
    };
    double::over(double::from_u64(done), secs)
}

pub open spec fn least(a: nat, b: nat) -> nat {
    if a <= b {
        a
    } else {
        b
    }
}

/// How long the rest of a transfer will take at the rate so far.
pub open spec fn eta(done: nat, total: nat, nanos: nat) -> Seq<char> {
    if done == 0 {
        "--"@
    } else {
        eta_text(
            double::capped(
                double::whole(
                    double::quotient(
                        double::of_nat((total - least(done, total)) as nat),
                        rate(done, nanos),
                    ),
                ),
                u64::MAX,
            ) as nat,
        )
    }
}

impl Progress {
    pub open spec fn speed_text(self, nanos: nat) -> Seq<char> {
        model::bytes_text(
            double::capped(double::whole(rate(self.current as nat, nanos)), u64::MAX) as nat,
        ) + "/s"@
    }

    /// The figures beside the bar.
    pub open spec fn stats_text(self, total: nat, nanos: nat) -> Seq<char> {
        right_aligned(text::decimal(percent(share(self.current as nat, total))), 3) + "%  "@
            + model::bytes_text(self.current as nat) + " / "@ + model::bytes_text(total) + "  "@
            + self.speed_text(nanos) + "  eta "@ + eta(self.current as nat, total, nanos)
    }

    /// How wide the bar is: whatever the label and the figures leave over,
    /// within reason.
    pub open spec fn bar_width(self, stats: Seq<char>) -> int {
        held(self.width - cells(self.label@) - cells(stats) - 6, 8, 40)
    }

    /// The line as it looks `nanos` after the start.
    pub open spec fn line_text(self, nanos: nat) -> Seq<char> {
        match self.total {
            Some(total) => if total > 0 {
                let stats = self.stats_text(total as nat, nanos);
                let w = self.bar_width(stats);
                let filled = filled_cells(share(self.current as nat, total as nat), w as nat);
                "  "@ + self.style.cyan_text(self.label@) + " "@ + (text::repeated(
                    '█',
                    filled as int,
                ) + self.style.dim_text(text::repeated('░', w - filled))) + "  "@
                    + self.style.dim_text(stats)
            } else {
                self.plain_line(nanos)
            },
            None => self.plain_line(nanos),
        }
    }

    pub open spec fn plain_line(self, nanos: nat) -> Seq<char> {
        "  "@ + self.style.cyan_text(self.label@) + " "@ + self.style.dim_text(
            model::bytes_text(self.current as nat) + "  "@ + self.speed_text(nanos),
        )
    }

    /// Whether a bar is due for drawing.
    pub open spec fn due(self, now: u64) -> bool {
        self.active && match self.last_draw {
            Some(at) => now - at >= FRAME,
            None => true,
        }
    }

    /// A bar that has drawn nothing yet. It draws only on a terminal.
    pub fn new(
        label: String,
        total: Option<u64>,
        style: Style,
        now: u64,
        terminal: bool,
        width: usize,
    ) -> (r: Self)
        ensures
            r.label == label,
            r.total == total,
            r.current == 0,
            r.started == now,
            r.last_draw is None,
            r.style == style,
            r.active == terminal,
            r.width == width,
    {
        Progress {
            label,
            total,
            current: 0,
            started: now,
            last_draw: None,
            style,
            active: terminal,
            width,
        }
    }

    /// Set the absolute byte count, and the total where it is known. Returns
    /// what to write when the bar is due for drawing: back to the start of the
    /// line, clear it, and the new line.
    pub fn set(&mut self, done: u64, total: Option<u64>, now: u64) -> (r: Option<String>)
        requires
            old(self).started <= now,
            old(self).last_draw is Some ==> old(self).last_draw->0 <= now,
        ensures
            final(self).current == done,
            final(self).total == (if total is Some {
                total
            } else {
                old(self).total
            }),
            final(self).label == old(self).label,
            final(self).started == old(self).started,
            final(self).style == old(self).style,
            final(self).active == old(self).active,
            final(self).width == old(self).width,
            final(self).last_draw == (if old(self).due(now) {
                Some(now)
            } else {
                old(self).last_draw
            }),
            r.deep_view() == (if old(self).due(now) {
                Some("\r\x1b[2K"@ + final(self).line_text((now - old(self).started) as nat))
            } else {
                None
            }),
    {
        self.current = done;
        if total.is_some() {
            self.total = total;
        }
        self.draw(now)
    }

    fn draw(&mut self, now: u64) -> (r: Option<String>)
        requires
            old(self).started <= now,
            old(self).last_draw is Some ==> old(self).last_draw->0 <= now,
        ensures
            final(self).current == old(self).current,
            final(self).total == old(self).total,
            final(self).label == old(self).label,
            final(self).started == old(self).started,
            final(self).style == old(self).style,
            final(self).active == old(self).active,
            final(self).width == old(self).width,
            final(self).last_draw == (if old(self).due(now) {
                Some(now)
            } else {
                old(self).last_draw
            }),
            r.deep_view() == (if old(self).due(now) {
                Some("\r\x1b[2K"@ + final(self).line_text((now - old(self).started) as nat))
            } else {
                None
            }),
    {
        if !self.active {
            return None;
        }
        if let Some(at) = self.last_draw {
            if now - at < FRAME {
                return None;
            }
        }
        self.last_draw = Some(now);
        let line = self.line(now - self.started);
        let mut out = "\r\x1b[2K".to_owned();
        out.append(&line);
        Some(out)
    }

    fn line(&self, nanos: u64) -> (r: String)
        ensures
            r@ == self.line_text(nanos as nat),
    {
        let per_second = rate_of(self.current, nanos);
        let done = human_bytes(self.current);
        let speed = concat(&human_bytes(double::trunc(per_second, u64::MAX)), "/s");
        let total = match self.total {
            Some(t) => t,
            None => 0,
        };
        if total == 0 {
            let mut out = "  ".to_owned();
            out.append(&self.style.cyan(&self.label));
            out.append(" ");
            let mut facts = done;
            facts.append("  ");
            facts.append(&speed);
            out.append(&self.style.dim(&facts));
            return out;
        }
        let part = share_of(self.current, total);
        let left = if self.current == 0 {
            "--".to_owned()
        } else {
            let rest: u64 = if self.current <= total {
                total - self.current
            } else {
                0
            };
            format_eta(
                double::trunc(double::over(double::from_u64(rest), per_second), u64::MAX),
            )
        };
        let mut stats = align_right(&dec(percent_of(part)), 3);
        stats.append("%  ");
        stats.append(&done);
        stats.append(" / ");
        stats.append(&human_bytes(total));
        stats.append("  ");
        stats.append(&speed);
        stats.append("  eta ");
        stats.append(&left);
        let fixed: usize = display_width(&self.label).saturating_add(
            display_width(&stats),
        ).saturating_add(6);
        let width = clamp(self.width.saturating_sub(fixed), 8, 40);
        let filled = filled_of(part, width);
        let mut bar = repeat('█', filled);
        bar.append(&self.style.dim(&repeat('░', width - filled)));
        let mut out = "  ".to_owned();
        out.append(&self.style.cyan(&self.label));
        out.append(" ");
        out.append(&bar);
        out.append("  ");
        out.append(&self.style.dim(&stats));
        out
    }

    /// Stop drawing. Returns what erases the bar where one may be showing.
    pub fn clear(&mut self) -> (r: Option<String>)
        ensures
            *final(self) == (Progress { active: false, ..*old(self) }),
            r.deep_view() == (if old(self).active {
                Some("\r\x1b[2K"@)
            } else {
                None
            }),
    {
        let r = if self.active {
            Some("\r\x1b[2K".to_owned())
        } else {
            None
        };
        self.active = false;
        r
    }
}

/// A transient status line, used while probing mirrors or searching.
#[derive(Debug)]
pub struct Spinner {
    pub active: bool,
}

pub open spec fn spinner_text(message: Seq<char>, style: Style) -> Seq<char> {
    "\r\x1b[2K  "@ + style.cyan_text("·"@) + " "@ + style.dim_text(message)
}

fn spinner_line(message: &str, style: Style) -> (r: String)
    ensures
        r@ == spinner_text(message@, style),
{
    let mut out = "\r\x1b[2K  ".to_owned();
    out.append(&style.cyan("·"));
    out.append(" ");
    out.append(&style.dim(message));
    out
}

impl Spinner {
    /// A status line, and what to write to show it; nothing off a terminal.
    pub fn start(message: &str, style: Style, terminal: bool) -> (r: (Self, Option<String>))
        ensures
            r.0.active == terminal,
            r.1.deep_view() == (if terminal {
                Some(spinner_text(message@, style))
            } else {
                None
            }),
    {
        let s = Spinner { active: terminal };
        let line = s.update(message, style);
        (s, line)
    }

    /// What to write to change the message.
    pub fn update(&self, message: &str, style: Style) -> (r: Option<String>)
        ensures
            r.deep_view() == (if self.active {
                Some(spinner_text(message@, style))
            } else {
                None
            }),
    {
        if self.active {
            Some(spinner_line(message, style))
        } else {
            None
        }
    }

    /// What to write to take the line away.
    pub fn clear(self) -> (r: Option<String>)
        ensures
            r.deep_view() == (if self.active {
                Some("\r\x1b[2K"@)
            } else {
                None
            }),
    {
        if self.active {
            Some("\r\x1b[2K".to_owned())
        } else {
            None
        }
    }
}

} // verus!
