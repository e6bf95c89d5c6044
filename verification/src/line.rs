//! Lines of a table: stretches of text, each in a colour of its own, laid out
//! side by side and cut to the width of the terminal.

use vstd::prelude::*;
use vstd::string::*;

use crate::term;
use crate::term::{display_width, fits, fitting_chars, Style};
use crate::text;
use crate::text::{chars_of, cut_out, string_of, trim_end};

verus! {

/// What a stretch of a line is painted in.
#[derive(Debug, Clone, Copy, PartialEq, Eq, Structural)]
pub enum Ink {
    Bare,
    Dim,
    Cyan,
    Green,
    Red,
}

impl Ink {
    pub open spec fn painted(self, t: Seq<char>, style: Style) -> Seq<char> {
        match self {
            Ink::Bare => t,
            Ink::Dim => style.dim_text(t),
            Ink::Cyan => style.cyan_text(t),
            Ink::Green => style.green_text(t),
            Ink::Red => style.red_text(t),
        }
    }

    fn paint(self, t: &str, style: &Style) -> (r: String)
        ensures
            r@ == self.painted(t@, *style),
    {
        match self {
            Ink::Bare => t.to_owned(),
            Ink::Dim => style.dim(t),
            Ink::Cyan => style.cyan(t),
            Ink::Green => style.green(t),
            Ink::Red => style.red(t),
        }
    }
}

/// A stretch of a line in one colour.
pub struct Piece {
    pub text: String,
    pub ink: Ink,
}

#[verifier::ext_equal]
pub struct PieceView {
    pub text: Seq<char>,
    pub ink: Ink,
}

impl View for Piece {
    type V = PieceView;

    open spec fn view(&self) -> PieceView {
        PieceView { text: self.text@, ink: self.ink }
    }
}

pub open spec fn views(ps: Seq<Piece>) -> Seq<PieceView> {
    ps.map_values(|p: Piece| p@)
}

pub fn piece(text: String, ink: Ink) -> (r: Piece)
    ensures
        r@ == (PieceView { text: text@, ink }),
{
    Piece { text, ink }
}

/// The text of the pieces, without their colours.
pub open spec fn bare(ps: Seq<PieceView>) -> Seq<char>
    decreases ps.len(),
{
    if ps.len() == 0 {
        seq![]
    } else {
        ps[0].text + bare(ps.skip(1))
    }
}

/// The pieces in their colours.
pub open spec fn inked(ps: Seq<PieceView>, style: Style) -> Seq<char>
    decreases ps.len(),
{
    if ps.len() == 0 {
        seq![]
    } else {
        ps[0].ink.painted(ps[0].text, style) + inked(ps.skip(1), style)
    }
}

/// The pieces without the white space at the end of the line.
pub open spec fn without_tail(ps: Seq<PieceView>) -> Seq<PieceView>
    decreases ps.len(),
{
    if ps.len() == 0 {
        ps
    } else {
        let t = text::trimmed_end(ps.last().text);
        if t.len() == 0 {
            without_tail(ps.drop_last())
        } else {
            ps.drop_last().push(PieceView { text: t, ink: ps.last().ink })
        }
    }
}

/// The pieces that fit into `room` cells and the beginning of the next one,
/// which ends in an ellipsis.
pub open spec fn kept(ps: Seq<PieceView>, room: int) -> Seq<PieceView>
    decreases ps.len(),
{
    if ps.len() == 0 {
        ps
    } else if term::cells(ps[0].text) <= room {
        seq![ps[0]] + kept(ps.skip(1), room - term::cells(ps[0].text))
    } else {
        seq![
            PieceView {
                text: ps[0].text.take(term::fitting(ps[0].text, room, 0, 0)).push('…'),
                ink: ps[0].ink,
            },
        ]
    }
}

/// The pieces cut to a width, with an ellipsis where anything was cut.
pub open spec fn cut(ps: Seq<PieceView>, width: int) -> Seq<PieceView> {
    if term::cells(bare(ps)) <= width {
        ps
    } else if width <= 0 {
        seq![]
    } else {
        kept(ps, width - 1)
    }
}

/// What is shown of a line on a terminal of a width: all of it where it has
/// the room; otherwise the line without the white space at its end, cut.
pub open spec fn shown(ps: Seq<PieceView>, width: int) -> Seq<PieceView> {
    if term::cells(bare(ps)) <= width {
        ps
    } else {
        cut(without_tail(ps), width)
    }
}

/// A line as it is printed.
pub open spec fn line_of(ps: Seq<PieceView>, width: int, style: Style) -> Seq<char> {
    text::trimmed_end(inked(shown(ps, width), style))
}

/// The cells of a row with two spaces before each.
pub open spec fn spaced(cells: Seq<PieceView>) -> Seq<PieceView>
    decreases cells.len(),
{
    if cells.len() == 0 {
        cells
    } else {
        spaced(cells.drop_last()).push(PieceView { text: "  "@, ink: Ink::Bare }).push(cells.last())
    }
}

/// Whether the pieces take at most `width` cells.
fn all_fit(ps: &Vec<Piece>, width: usize) -> (r: bool)
    ensures
        r == (term::cells(bare(views(ps@))) <= width),
{
    let ghost all = views(ps@);
    let mut left: usize = width;
    let mut i: usize = 0;
    assert(all.skip(0) =~= all);
    while i < ps.len()
        invariant
            i <= ps@.len(),
            all == views(ps@),
            (term::cells(bare(all)) <= width) == (term::cells(bare(all.skip(i as int))) <= left),
        decreases ps@.len() - i,
    {
        assert(all.skip(i as int).skip(1) =~= all.skip(i + 1));
        assert(all.skip(i as int)[0] == ps@[i as int]@);
        proof {
            term::lemma_cells_concat(ps@[i as int].text@, bare(all.skip(i + 1)));
        }
        let v = chars_of(&ps[i].text);
        if !fits(&v, left) {
            return false;
        }
        left = left - display_width(&ps[i].text);
        i += 1;
    }
    true
}

/// The pieces without the white space at the end of the line.
fn drop_tail(ps: Vec<Piece>) -> (r: Vec<Piece>)
    ensures
        views(r@) == without_tail(views(ps@)),
{
    let mut rest = ps;
    while rest.len() > 0
        invariant
            without_tail(views(rest@)) == without_tail(views(ps@)),
        decreases rest@.len(),
    {
        let ghost before = views(rest@);
        match rest.pop() {
            Some(last) => {
                let t = trim_end(&last.text);
                assert(views(rest@) =~= before.drop_last());
                assert(before.last() == last@);
                if t.unicode_len() > 0 {
                    rest.push(Piece { text: t, ink: last.ink });
                    assert(views(rest@) =~= without_tail(before));
                    return rest;
                }
            },
            None => {
                return rest;
            },
        }
    }
    assert(views(rest@) =~= without_tail(views(rest@)));
    rest
}

/// The pieces in their colours.
fn ink_all(ps: &Vec<Piece>, style: &Style) -> (r: String)
    ensures
        r@ == inked(views(ps@), *style),
{
    let ghost all = views(ps@);
    let mut out = String::new();
    let mut i: usize = 0;
    assert(all.skip(0) =~= all);
    while i < ps.len()
        invariant
            i <= ps@.len(),
            all == views(ps@),
            out@ + inked(all.skip(i as int), *style) == inked(all, *style),
        decreases ps@.len() - i,
    {
        assert(all.skip(i as int).skip(1) =~= all.skip(i + 1));
        assert(all.skip(i as int)[0] == ps@[i as int]@);
        let ghost before = out@;
        let painted = ps[i].ink.paint(&ps[i].text, style);
        out.append(&painted);
        assert(before + (painted@ + inked(all.skip(i + 1), *style)) =~= out@ + inked(
            all.skip(i + 1),
            *style,
        ));
        i += 1;
    }
    assert(out@ + inked(all.skip(i as int), *style) =~= out@);
    out
}

/// The pieces that fit into `room` cells, and the beginning of the next one.
fn ink_kept(ps: &Vec<Piece>, room: usize, style: &Style) -> (r: String)
    ensures
        r@ == inked(kept(views(ps@), room as int), *style),
{
    let ghost all = views(ps@);
    let ghost goal = inked(kept(all, room as int), *style);
    let mut out = String::new();
    let mut left: usize = room;
    let mut i: usize = 0;
    assert(all.skip(0) =~= all);
    while i < ps.len()
        invariant
            i <= ps@.len(),
            all == views(ps@),
            goal == inked(kept(all, room as int), *style),
            out@ + inked(kept(all.skip(i as int), left as int), *style) == goal,
        decreases ps@.len() - i,
    {
        let ghost rest = all.skip(i as int);
        assert(rest.skip(1) =~= all.skip(i + 1));
        assert(rest[0] == ps@[i as int]@);
        let ghost before = out@;
        let v = chars_of(&ps[i].text);
        if !fits(&v, left) {
            let n = fitting_chars(&v, left);
            assert(v@.subrange(0, n as int) =~= v@.take(n as int));
            let mut t = string_of(cut_out(&v, 0, n));
            t.push('…');
            let painted = ps[i].ink.paint(&t, style);
            out.append(&painted);
            assert(kept(rest, left as int).skip(1) =~= seq![]);
            assert(inked(kept(rest, left as int).skip(1), *style) =~= seq![]);
            assert(out@ =~= before + (painted@ + inked(
                kept(rest, left as int).skip(1),
                *style,
            )));
            return out;
        }
        let w = display_width(&ps[i].text);
        let painted = ps[i].ink.paint(&ps[i].text, style);
        out.append(&painted);
        proof {
            let further = kept(all.skip(i + 1), left - w);
            assert(kept(rest, left as int) == seq![rest[0]] + further);
            assert((seq![rest[0]] + further).skip(1) =~= further);
            assert(before + (painted@ + inked(further, *style)) =~= out@ + inked(further, *style));
        }
        left = left - w;
        i += 1;
    }
    assert(all.skip(i as int) =~= seq![]);
    assert(kept(all.skip(i as int), left as int) =~= seq![]);
    assert(out@ + inked(kept(all.skip(i as int), left as int), *style) =~= out@);
    out
}

/// Lay a line out for a terminal of the given width.
pub fn lay_out(ps: Vec<Piece>, width: usize, style: &Style) -> (r: String)
    ensures
        r@ == line_of(views(ps@), width as int, *style),
{
    if all_fit(&ps, width) {
        return trim_end(&ink_all(&ps, style));
    }
    let ps = drop_tail(ps);
    if all_fit(&ps, width) {
        trim_end(&ink_all(&ps, style))
    } else if width == 0 {
        assert(inked(cut(views(ps@), 0), *style) =~= seq![]);
        trim_end(&String::new())
    } else {
        trim_end(&ink_kept(&ps, width - 1, style))
    }
}

/// Put two spaces before each cell of a row.
pub fn space_out(cells: Vec<Piece>) -> (r: Vec<Piece>)
    ensures
        views(r@) == spaced(views(cells@)),
{
    let ghost all = views(cells@);
    let mut out: Vec<Piece> = Vec::new();
    let mut i: usize = 0;
    assert(all.take(0) =~= seq![]);
    assert(views(out@) =~= spaced(all.take(0)));
    while i < cells.len()
        invariant
            i <= cells@.len(),
            all == views(cells@),
            views(out@) == spaced(all.take(i as int)),
        decreases cells@.len() - i,
    {
        assert(all.take(i + 1).drop_last() =~= all.take(i as int));
        assert(all.take(i + 1).last() == cells@[i as int]@);
        out.push(Piece { text: "  ".to_owned(), ink: Ink::Bare });
        out.push(Piece { text: cells[i].text.clone(), ink: cells[i].ink });
        assert(views(out@) =~= spaced(all.take(i + 1)));
        i += 1;
    }
    assert(all.take(i as int) =~= all);
    out
}

// ---------------------------------------------------------------------------
// Laws
// ---------------------------------------------------------------------------

proof fn lemma_bare_push(ps: Seq<PieceView>, p: PieceView)
    ensures
        bare(ps.push(p)) == bare(ps) + p.text,
    decreases ps.len(),
{
    let all = ps.push(p);
    if ps.len() == 0 {
        assert(all.skip(1) =~= seq![]);
        assert(bare(all.skip(1)) =~= seq![]);
        assert(bare(all) =~= bare(ps) + p.text);
    } else {
        assert(all.skip(1) =~= ps.skip(1).push(p));
        lemma_bare_push(ps.skip(1), p);
        assert(bare(all) =~= bare(ps) + p.text);
    }
}

/// A row begins with two spaces and its first cell.
pub proof fn lemma_spaced_begins(cells: Seq<PieceView>)
    requires
        cells.len() > 0,
    ensures
        ({
            let all = bare(spaced(cells));
            let head = "  "@ + cells[0].text;
            &&& all.len() >= head.len()
            &&& all.take(head.len() as int) == head
        }),
    decreases cells.len(),
{
    let gap = PieceView { text: "  "@, ink: Ink::Bare };
    let before = spaced(cells.drop_last());
    lemma_bare_push(before, gap);
    lemma_bare_push(before.push(gap), cells.last());
    let head = "  "@ + cells[0].text;
    if cells.len() == 1 {
        assert(cells.drop_last() =~= seq![]);
        assert(bare(before) =~= seq![]);
        assert(bare(spaced(cells)) =~= head);
    } else {
        lemma_spaced_begins(cells.drop_last());
        assert(bare(before).take(head.len() as int) == head);
        assert(bare(spaced(cells)).take(head.len() as int) =~= bare(before).take(
            head.len() as int,
        ));
    }
}

/// A row holds only what its cells hold, and spaces.
pub proof fn lemma_spaced_is_free(cells: Seq<PieceView>, c: char)
    requires
        c != ' ',
        forall|i: int| 0 <= i < cells.len() ==> text::free_of((#[trigger] cells[i]).text, c),
    ensures
        text::free_of(bare(spaced(cells)), c),
    decreases cells.len(),
{
    if cells.len() > 0 {
        let gap = PieceView { text: "  "@, ink: Ink::Bare };
        let before = spaced(cells.drop_last());
        lemma_bare_push(before, gap);
        lemma_bare_push(before.push(gap), cells.last());
        reveal_strlit("  ");
        assert forall|i: int| 0 <= i < cells.drop_last().len() implies text::free_of(
            (#[trigger] cells.drop_last()[i]).text,
            c,
        ) by {
            assert(cells.drop_last()[i] == cells[i]);
        }
        lemma_spaced_is_free(cells.drop_last(), c);
        assert(text::free_of(cells[cells.len() - 1].text, c));
    }
}

/// Without the white space at the end, the pieces hold the text without it.
proof fn lemma_without_tail(ps: Seq<PieceView>)
    ensures
        bare(without_tail(ps)) == text::trimmed_end(bare(ps)),
    decreases ps.len(),
{
    if ps.len() == 0 {
        assert(bare(ps) =~= text::trimmed_end(bare(ps)));
    } else {
        let head = ps.drop_last();
        let last = ps.last();
        assert(ps =~= head.push(last));
        lemma_bare_push(head, last);
        text::lemma_trimmed_end_concat(bare(head), last.text);
        let t = text::trimmed_end(last.text);
        if t.len() == 0 {
            lemma_without_tail(head);
        } else {
            lemma_bare_push(head, PieceView { text: t, ink: last.ink });
        }
    }
}

/// The pieces that are kept hold what is kept of their text.
proof fn lemma_kept(ps: Seq<PieceView>, room: int)
    requires
        room >= 0,
        term::cells(bare(ps)) > room,
    ensures
        bare(kept(ps, room)) == bare(ps).take(term::fitting(bare(ps), room, 0, 0)).push('…'),
    decreases ps.len(),
{
    let t = ps[0].text;
    let rest = bare(ps.skip(1));
    term::lemma_cells_concat(t, rest);
    term::lemma_fitting_concat(t, rest, room);
    term::lemma_fitting_range(t, room);
    if term::cells(t) <= room {
        let left = room - term::cells(t);
        lemma_kept(ps.skip(1), left);
        term::lemma_fitting_range(rest, left);
        let further = kept(ps.skip(1), left);
        assert((seq![ps[0]] + further).skip(1) =~= further);
        assert(bare(kept(ps, room)) =~= bare(ps).take(
            term::fitting(bare(ps), room, 0, 0),
        ).push('…'));
    } else {
        assert(kept(ps, room).skip(1) =~= seq![]);
        assert(bare(kept(ps, room).skip(1)) =~= seq![]);
        assert(bare(kept(ps, room)) =~= bare(ps).take(
            term::fitting(bare(ps), room, 0, 0),
        ).push('…'));
    }
}

/// What a line shows, colours aside, is its text cut to the width; and that
/// never takes more cells than the terminal has.
pub proof fn lemma_line_fits(ps: Seq<PieceView>, width: int)
    requires
        width >= 0,
    ensures
        term::cells(bare(shown(ps, width))) <= width,
        text::trimmed_end(bare(shown(ps, width))) == term::truncated(
            text::trimmed_end(bare(ps)),
            width,
        ),
{
    let t = text::trimmed_end(bare(ps));
    text::lemma_trimmed_end(bare(ps));
    term::lemma_cells_take(bare(ps), t.len() as int);
    if term::cells(bare(ps)) > width {
        let qs = without_tail(ps);
        lemma_without_tail(ps);
        text::lemma_trimmed_end(t);
        if term::cells(t) <= width {
            text::lemma_trimmed_twice(bare(ps));
        } else if width > 0 {
            lemma_kept(qs, width - 1);
            let c = bare(cut(qs, width));
            assert(c == term::truncated(t, width));
            term::lemma_truncated_fits(t, width);
            assert(!text::is_white('…'));
            assert(c.last() == '…');
            assert(text::trimmed_end(c) =~= c);
        } else {
            assert(bare(cut(qs, width)) =~= seq![]);
            assert(text::trimmed_end(seq![]) =~= Seq::<char>::empty());
        }
    }
}

/// On a plain terminal a line is its text, cut to the width.
pub proof fn lemma_plain_line(ps: Seq<PieceView>, width: int, style: Style)
    requires
        width >= 0,
        !style.enabled,
    ensures
        line_of(ps, width, style) == term::truncated(text::trimmed_end(bare(ps)), width),
        term::cells(line_of(ps, width, style)) <= width,
{
    lemma_plain_ink(shown(ps, width), style);
    lemma_line_fits(ps, width);
    term::lemma_truncated_fits(text::trimmed_end(bare(ps)), width);
}

proof fn lemma_plain_ink(ps: Seq<PieceView>, style: Style)
    requires
        !style.enabled,
    ensures
        inked(ps, style) == bare(ps),
    decreases ps.len(),
{
    if ps.len() > 0 {
        lemma_plain_ink(ps.skip(1), style);
    }
}

} // verus!
