//! What a frame is made of: areas, lines of styled text, and the few kinds of
//! widgets they stand in.

use vstd::prelude::*;
use vstd::string::*;

use crate::graphics::Rgb;
use crate::theme;
use crate::theme::Look;

verus! {

// ---------------------------------------------------------------------------
// Areas
// ---------------------------------------------------------------------------

/// A rectangle of character cells.
#[derive(Debug, Clone, Copy, PartialEq, Eq, Structural)]
pub struct Rect {
    pub x: u16,
    pub y: u16,
    pub width: u16,
    pub height: u16,
}

/// A sum of two screen coordinates, held to what a coordinate can be.
pub open spec fn sum(a: int, b: int) -> u16 {
    if a + b > 65535 {
        65535
    } else {
        (a + b) as u16
    }
}

/// A difference of two lengths, held at zero.
pub open spec fn difference(a: int, b: int) -> u16 {
    if a < b {
        0
    } else {
        (a - b) as u16
    }
}

pub open spec fn lesser(a: u16, b: u16) -> u16 {
    if a < b {
        a
    } else {
        b
    }
}

pub fn min16(a: u16, b: u16) -> (r: u16)
    ensures
        r == lesser(a, b),
{
    if a < b {
        a
    } else {
        b
    }
}

impl Rect {
    pub open spec fn bottom_edge(self) -> u16 {
        sum(self.y as int, self.height as int)
    }

    pub open spec fn right_edge(self) -> u16 {
        sum(self.x as int, self.width as int)
    }

    pub fn bottom(&self) -> (r: u16)
        ensures
            r == self.bottom_edge(),
    {
        self.y.saturating_add(self.height)
    }

    pub fn right(&self) -> (r: u16)
        ensures
            r == self.right_edge(),
    {
        self.x.saturating_add(self.width)
    }
}

/// What is left of an area inside a border.
pub open spec fn inside(a: Rect) -> Rect {
    Rect {
        x: lesser(sum(a.x as int, 1), a.right_edge()),
        y: lesser(sum(a.y as int, 1), a.bottom_edge()),
        width: difference(a.width as int, 2),
        height: difference(a.height as int, 2),
    }
}

/// What is left of an area inside a border.
pub fn inner(a: Rect) -> (r: Rect)
    ensures
        r == inside(a),
{
    Rect {
        x: min16(a.x.saturating_add(1), a.right()),
        y: min16(a.y.saturating_add(1), a.bottom()),
        width: a.width.saturating_sub(2),
        height: a.height.saturating_sub(2),
    }
}

/// An area within margins; margins larger than the area leave nothing.
pub open spec fn within(a: Rect, horizontal: u16, vertical: u16) -> Rect {
    if a.width < 2 * horizontal || a.height < 2 * vertical {
        Rect { x: 0, y: 0, width: 0, height: 0 }
    } else {
        Rect {
            x: sum(a.x as int, horizontal as int),
            y: sum(a.y as int, vertical as int),
            width: (a.width - 2 * horizontal) as u16,
            height: (a.height - 2 * vertical) as u16,
        }
    }
}

/// An area within margins.
pub fn margins(a: Rect, horizontal: u16, vertical: u16) -> (r: Rect)
    ensures
        r == within(a, horizontal, vertical),
{
    if (a.width as u32) < 2 * horizontal as u32 || (a.height as u32) < 2 * vertical as u32 {
        Rect { x: 0, y: 0, width: 0, height: 0 }
    } else {
        Rect {
            x: a.x.saturating_add(horizontal),
            y: a.y.saturating_add(vertical),
            width: a.width - 2 * horizontal,
            height: a.height - 2 * vertical,
        }
    }
}

/// A rectangle of a given size in the middle of an area.
pub open spec fn middle(area: Rect, width: u16, height: u16) -> Rect {
    Rect {
        x: sum(area.x as int, difference(area.width as int, width as int) as int / 2),
        y: sum(area.y as int, difference(area.height as int, height as int) as int / 2),
        width: lesser(width, area.width),
        height: lesser(height, area.height),
    }
}

/// A centred rectangle of the given size.
pub fn centered(area: Rect, width: u16, height: u16) -> (r: Rect)
    ensures
        r == middle(area, width, height),
{
    Rect {
        x: area.x.saturating_add(area.width.saturating_sub(width) / 2),
        y: area.y.saturating_add(area.height.saturating_sub(height) / 2),
        width: min16(width, area.width),
        height: min16(height, area.height),
    }
}

/// Whether one area lies within another.
pub open spec fn lies_in(a: Rect, b: Rect) -> bool {
    &&& b.x <= a.x
    &&& b.y <= a.y
    &&& a.x + a.width <= b.x + b.width
    &&& a.y + a.height <= b.y + b.height
}

/// A centred rectangle lies within the area it is centred in, whatever size was
/// asked for; so does what a border leaves of an area.
pub proof fn lemma_areas_stay_inside(area: Rect, width: u16, height: u16)
    requires
        area.x + area.width <= 65535,
        area.y + area.height <= 65535,
    ensures
        lies_in(middle(area, width, height), area),
        lies_in(inside(area), area),
{
}

// ---------------------------------------------------------------------------
// Splitting an area
// ---------------------------------------------------------------------------

/// Parts on top of one another in an area, the third taking what the others
/// leave.
pub open spec fn stacked(area: Rect, first: int, second: int, fourth: int, fifth: int) -> Seq<
    Rect,
> {
    let third = area.height - first - second - fourth - fifth;
    let row = |from: int, height: int|
        Rect { x: area.x, y: (area.y + from) as u16, width: area.width, height: height as u16 };
    seq![
        row(0, first),
        row(first, second),
        row(first + second, third),
        row(first + second + third, fourth),
        row(first + second + third + fourth, fifth),
    ]
}

/// Whether five parts lie on top of one another in an area, with nothing between
/// them, from its top to its bottom.
pub open spec fn piled(parts: Seq<Rect>, area: Rect) -> bool {
    &&& parts[0].y == area.y
    &&& parts[1].y == parts[0].y + parts[0].height
    &&& parts[2].y == parts[1].y + parts[1].height
    &&& parts[3].y == parts[2].y + parts[2].height
    &&& parts[4].y == parts[3].y + parts[3].height
    &&& area.y + area.height <= 65535 ==> parts[4].y + parts[4].height == area.y + area.height
}

/// `ratatui::layout::Layout::vertical` with a fixed length for every part but
/// the third, which takes what is left and at least `least`, applied to an area
/// by `split`. There is one part to each constraint, and each is as wide as the
/// area and starts where it starts. Where there is room for all of them they lie
/// on top of one another, each of its own length and the third of what is left:
/// fixed lengths and least lengths weigh more with the layout's solver than
/// growing does, and the part that is to grow outweighs the space after the
/// last. Where the area is too small, which part gives way is the solver's to
/// choose, and of the heights no more is said than that the parts fill the area
/// from its top to its bottom, each starting where the one above ends: the
/// layout requires every edge to lie within the area, wants no space before and
/// between the parts more than it wants any length, and leaves space behind the
/// last only where no length is short.
#[verifier::external_body]
fn split_rows(area: Rect, first: u16, second: u16, least: u16, fourth: u16, fifth: u16) -> (r: Vec<
    Rect,
>)
    requires
        least <= 32767,
    ensures
        r@.len() == 5,
        forall|i: int|
            0 <= i < 5 ==> (#[trigger] r@[i]).x == area.x && r@[i].width == area.width && lies_in(
                r@[i],
                area,
            ),
        piled(r@, area),
        (first + second + least + fourth + fifth <= area.height && area.y + area.height <= 65535)
            ==> r@ == stacked(area, first as int, second as int, fourth as int, fifth as int),
{
    let c = ratatui::layout::Constraint::Length;
    let m = ratatui::layout::Constraint::Min;
    let Rect { x, y, width, height } = area;
    let a = ratatui::layout::Rect { x, y, width, height };
    let l = ratatui::layout::Layout::vertical([c(first), c(second), m(least), c(fourth), c(fifth)]);
    let rect = |r: &ratatui::layout::Rect| Rect { x: r.x, y: r.y, width: r.width, height: r.height };
    l.split(a).iter().map(rect).collect()
}

/// `ratatui::layout::Layout::horizontal` with a part that takes what is left,
/// and at least `least`, before one of a fixed length, applied to an area by
/// `split`. There are two parts, each as tall as the area and starting at its
/// top. Where there is room for both they lie side by side, the second of its
/// own length and the first of what is left; where there is not, which of them
/// gives way is the solver's to choose, as above, and the two fill the area from
/// one side to the other, the second starting where the first ends.
#[verifier::external_body]
fn split_columns(area: Rect, least: u16, second: u16) -> (r: Vec<Rect>)
    requires
        least <= 32767,
    ensures
        r@.len() == 2,
        forall|i: int|
            0 <= i < 2 ==> (#[trigger] r@[i]).y == area.y && r@[i].height == area.height
                && lies_in(r@[i], area),
        r@[0].x == area.x,
        r@[1].x == r@[0].x + r@[0].width,
        area.x + area.width <= 65535 ==> r@[1].x + r@[1].width == area.x + area.width,
        (least + second <= area.width && area.x + area.width <= 65535) ==> r@ == seq![
            (Rect { width: (area.width - second) as u16, ..area }),
            (Rect { x: (area.x + area.width - second) as u16, width: second, ..area }),
        ],
{
    let c = ratatui::layout::Constraint::Length;
    let m = ratatui::layout::Constraint::Min;
    let Rect { x, y, width, height } = area;
    let a = ratatui::layout::Rect { x, y, width, height };
    let l = ratatui::layout::Layout::horizontal([m(least), c(second)]);
    let rect = |r: &ratatui::layout::Rect| Rect { x: r.x, y: r.y, width: r.width, height: r.height };
    l.split(a).iter().map(rect).collect()
}

/// The parts of a frame, from the top down.
#[derive(Debug, Clone, Copy, PartialEq, Eq, Structural)]
pub struct Parts {
    pub input: Rect,
    pub filters: Rect,
    pub list: Rect,
    pub details: Rect,
    pub hints: Rect,
}

impl Parts {
    /// Whether the parts share out a frame: each lies within it, and starts where
    /// the one above ends.
    pub open spec fn share(self, area: Rect) -> bool {
        &&& self.lie_in(area)
        &&& piled(seq![self.input, self.filters, self.list, self.details, self.hints], area)
    }

    /// Whether every part lies within a frame.
    pub open spec fn lie_in(self, area: Rect) -> bool {
        &&& lies_in(self.input, area)
        &&& lies_in(self.filters, area)
        &&& lies_in(self.list, area)
        &&& lies_in(self.details, area)
        &&& lies_in(self.hints, area)
    }
}

/// The rows the box over the list takes.
pub const BOX_ROWS: u16 = 3;

/// The fewest rows a list makes do with.
pub const LEAST_ROWS: u16 = 3;

/// The rows the hints take.
pub const HINT_ROWS: u16 = 1;

/// Whether a frame has room for everything it holds.
pub open spec fn roomy(area: Rect, filters: u16, details: u16) -> bool {
    &&& BOX_ROWS + filters + LEAST_ROWS + details + HINT_ROWS <= area.height
    &&& area.y + area.height <= 65535
}

/// The parts of a frame with room for everything: the box takes three rows, the
/// filters and the details what they are given, the hints one, and the list the
/// rest.
pub open spec fn parts_of(area: Rect, filters: u16, details: u16) -> Parts {
    let rows = stacked(
        area,
        BOX_ROWS as int,
        filters as int,
        details as int,
        HINT_ROWS as int,
    );
    Parts { input: rows[0], filters: rows[1], list: rows[2], details: rows[3], hints: rows[4] }
}

/// The parts of a frame. Each is as wide as the frame, and they fill it from top
/// to bottom; in a frame that is too small for all of them, how tall each comes
/// out is the layout's to say.
pub fn frame_parts(area: Rect, filters: u16, details: u16) -> (r: Parts)
    ensures
        r.input.x == area.x && r.input.width == area.width,
        r.filters.x == area.x && r.filters.width == area.width,
        r.list.x == area.x && r.list.width == area.width,
        r.details.x == area.x && r.details.width == area.width,
        r.hints.x == area.x && r.hints.width == area.width,
        r.share(area),
        roomy(area, filters, details) ==> r == parts_of(area, filters, details),
{
    let rows = split_rows(area, BOX_ROWS, filters, LEAST_ROWS, details, HINT_ROWS);
    Parts {
        input: rows[0],
        filters: rows[1],
        list: rows[2],
        details: rows[3],
        hints: rows[4],
    }
}

/// The fewest columns a list beside a panel makes do with.
pub const LIST_COLUMNS: u16 = 40;

/// The columns the panel beside a list takes.
pub const PANEL_COLUMNS: u16 = 42;

/// Whether an area has room for a list and the panel beside it.
pub open spec fn wide(area: Rect) -> bool {
    LIST_COLUMNS + PANEL_COLUMNS <= area.width && area.x + area.width <= 65535
}

/// A list and the panel beside it, where there is room for both.
pub open spec fn columns_of(area: Rect) -> (Rect, Rect) {
    (
        Rect { width: (area.width - PANEL_COLUMNS) as u16, ..area },
        Rect {
            x: (area.x + area.width - PANEL_COLUMNS) as u16,
            width: PANEL_COLUMNS,
            ..area
        },
    )
}

/// Whether two columns share out an area: the first starts where it starts, the
/// second where the first ends, and ends where the area ends.
pub open spec fn split_in(columns: (Rect, Rect), area: Rect) -> bool {
    &&& columns.0.x == area.x
    &&& columns.1.x == columns.0.x + columns.0.width
    &&& area.x + area.width <= 65535 ==> columns.1.x + columns.1.width == area.x + area.width
}

/// The list and the panel beside it.
pub fn side_by_side(area: Rect) -> (r: (Rect, Rect))
    ensures
        r.0.y == area.y && r.0.height == area.height,
        r.1.y == area.y && r.1.height == area.height,
        lies_in(r.0, area),
        lies_in(r.1, area),
        split_in(r, area),
        wide(area) ==> r == columns_of(area),
{
    let columns = split_columns(area, LIST_COLUMNS, PANEL_COLUMNS);
    (columns[0], columns[1])
}

// ---------------------------------------------------------------------------
// Text
// ---------------------------------------------------------------------------

/// A run of text in one look.
#[derive(Debug, PartialEq, Eq)]
pub struct Span {
    pub text: String,
    pub look: Look,
}

pub struct SpanView {
    pub text: Seq<char>,
    pub look: Look,
}

impl View for Span {
    type V = SpanView;

    open spec fn view(&self) -> SpanView {
        SpanView { text: self.text@, look: self.look }
    }
}

/// A line of text.
#[derive(Debug, PartialEq, Eq)]
pub struct Line {
    pub spans: Vec<Span>,
}

/// A line of text, by value.
pub type LineView = Seq<SpanView>;

pub open spec fn span_views(v: Seq<Span>) -> Seq<SpanView> {
    v.map_values(|s: Span| s@)
}

impl View for Line {
    type V = Seq<SpanView>;

    open spec fn view(&self) -> Seq<SpanView> {
        span_views(self.spans@)
    }
}

pub open spec fn line_views(v: Seq<Line>) -> Seq<Seq<SpanView>> {
    v.map_values(|l: Line| l@)
}

/// A list of spans with one more at its end.
pub broadcast proof fn lemma_spans_push(v: Seq<Span>, s: Span)
    ensures
        #[trigger] span_views(v.push(s)) == span_views(v).push(s@),
{
    assert(span_views(v.push(s)) =~= span_views(v).push(s@));
}

/// A list of lines with one more at its end.
pub broadcast proof fn lemma_lines_push(v: Seq<Line>, l: Line)
    ensures
        #[trigger] line_views(v.push(l)) == line_views(v).push(l@),
{
    assert(line_views(v.push(l)) =~= line_views(v).push(l@));
}

pub open spec fn styled(text: Seq<char>, look: Look) -> SpanView {
    SpanView { text, look }
}

pub fn span(text: &str, look: Look) -> (r: Span)
    ensures
        r@ == styled(text@, look),
{
    Span { text: text.to_owned(), look }
}

pub fn owned_span(text: String, look: Look) -> (r: Span)
    ensures
        r@ == styled(text@, look),
{
    Span { text, look }
}

/// A line without text.
pub fn blank_line() -> (r: Line)
    ensures
        r@ == Seq::<SpanView>::empty(),
{
    let r = Line { spans: Vec::new() };
    assert(r@ =~= Seq::<SpanView>::empty());
    r
}

/// A line of one span.
pub fn line(a: Span) -> (r: Line)
    ensures
        r@ == seq![a@],
{
    let mut spans: Vec<Span> = Vec::new();
    spans.push(a);
    let r = Line { spans };
    assert(r@ =~= seq![a@]);
    r
}

/// A line of two spans.
pub fn line2(a: Span, b: Span) -> (r: Line)
    ensures
        r@ == seq![a@, b@],
{
    let mut spans: Vec<Span> = Vec::new();
    spans.push(a);
    spans.push(b);
    let r = Line { spans };
    assert(r@ =~= seq![a@, b@]);
    r
}

/// A line of three spans.
pub fn line3(a: Span, b: Span, c: Span) -> (r: Line)
    ensures
        r@ == seq![a@, b@, c@],
{
    let mut spans: Vec<Span> = Vec::new();
    spans.push(a);
    spans.push(b);
    spans.push(c);
    let r = Line { spans };
    assert(r@ =~= seq![a@, b@, c@]);
    r
}

// ---------------------------------------------------------------------------
// Widgets
// ---------------------------------------------------------------------------

/// Where text stands in its area.
#[derive(Debug, Clone, Copy, PartialEq, Eq, Structural)]
pub enum Align {
    Left,
    Center,
    Right,
}

/// How wide a column is: so many cells, or a share of what is left.
#[derive(Debug, Clone, Copy, PartialEq, Eq, Structural)]
pub enum Width {
    Cells(u16),
    Share(u16),
}

/// A row of a table: the cells, and the background under them.
#[derive(Debug, PartialEq, Eq)]
pub struct Row {
    pub cells: Vec<Span>,
    pub bg: Rgb,
}

pub struct RowView {
    pub cells: Seq<SpanView>,
    pub bg: Rgb,
}

impl View for Row {
    type V = RowView;

    open spec fn view(&self) -> RowView {
        RowView { cells: span_views(self.cells@), bg: self.bg }
    }
}

pub open spec fn row_views(v: Seq<Row>) -> Seq<RowView> {
    v.map_values(|r: Row| r@)
}

/// A list of rows with one more at its end.
pub broadcast proof fn lemma_rows_push(v: Seq<Row>, r: Row)
    ensures
        #[trigger] row_views(v.push(r)) == row_views(v).push(r@),
{
    assert(row_views(v.push(r)) =~= row_views(v).push(r@));
}

/// One thing drawn, over what was drawn before it.
#[derive(Debug, PartialEq, Eq)]
pub enum Widget {
    /// An area in one look.
    Canvas { area: Rect, look: Look },
    /// An area with whatever is on it removed.
    Clear { area: Rect },
    /// A rounded border, with a title at its top left and one at its top right,
    /// around an area in one look.
    Border { area: Rect, colour: Rgb, look: Look, title: Line, right_title: Line },
    /// Lines of text, wrapped between words where that is asked.
    Text { area: Rect, lines: Vec<Line>, look: Look, align: Align, wrap: bool },
    /// A table with a header, a cell between its columns, and one row
    /// highlighted behind a cursor.
    Table {
        area: Rect,
        header: Vec<&'static str>,
        widths: Vec<Width>,
        rows: Vec<Row>,
        selected: Option<usize>,
    },
    /// The terminal's own cursor.
    Cursor { x: u16, y: u16 },
}

/// One thing drawn, by value.
pub enum WidgetView {
    Canvas { area: Rect, look: Look },
    Clear { area: Rect },
    Border {
        area: Rect,
        colour: Rgb,
        look: Look,
        title: Seq<SpanView>,
        right_title: Seq<SpanView>,
    },
    Text { area: Rect, lines: Seq<Seq<SpanView>>, look: Look, align: Align, wrap: bool },
    Table {
        area: Rect,
        header: Seq<&'static str>,
        widths: Seq<Width>,
        rows: Seq<RowView>,
        selected: Option<usize>,
    },
    Cursor { x: u16, y: u16 },
}

impl View for Widget {
    type V = WidgetView;

    open spec fn view(&self) -> WidgetView {
        match self {
            Widget::Canvas { area, look } => WidgetView::Canvas { area: *area, look: *look },
            Widget::Clear { area } => WidgetView::Clear { area: *area },
            Widget::Border { area, colour, look, title, right_title } => WidgetView::Border {
                area: *area,
                colour: *colour,
                look: *look,
                title: title@,
                right_title: right_title@,
            },
            Widget::Text { area, lines, look, align, wrap } => WidgetView::Text {
                area: *area,
                lines: line_views(lines@),
                look: *look,
                align: *align,
                wrap: *wrap,
            },
            Widget::Table { area, header, widths, rows, selected } => WidgetView::Table {
                area: *area,
                header: header@,
                widths: widths@,
                rows: row_views(rows@),
                selected: *selected,
            },
            Widget::Cursor { x, y } => WidgetView::Cursor { x: *x, y: *y },
        }
    }
}

pub open spec fn widget_views(v: Seq<Widget>) -> Seq<WidgetView> {
    v.map_values(|w: Widget| w@)
}

/// A list of widgets with one more at its end.
pub broadcast proof fn lemma_widgets_push(v: Seq<Widget>, w: Widget)
    ensures
        #[trigger] widget_views(v.push(w)) == widget_views(v).push(w@),
{
    assert(widget_views(v.push(w)) =~= widget_views(v).push(w@));
}

/// One list of widgets after another.
pub broadcast proof fn lemma_widgets_concat(a: Seq<Widget>, b: Seq<Widget>)
    ensures
        #[trigger] widget_views(a + b) == widget_views(a) + widget_views(b),
{
    assert(widget_views(a + b) =~= widget_views(a) + widget_views(b));
}

/// A plain rounded border.
pub open spec fn border_view(area: Rect, colour: Rgb) -> WidgetView {
    WidgetView::Border {
        area,
        colour,
        look: theme::plain_look(),
        title: seq![],
        right_title: seq![],
    }
}

pub fn border(area: Rect, colour: Rgb) -> (r: Widget)
    ensures
        r@ == border_view(area, colour),
{
    Widget::Border {
        area,
        colour,
        look: theme::plain(),
        title: blank_line(),
        right_title: blank_line(),
    }
}

pub open spec fn text_view(area: Rect, lines: Seq<Seq<SpanView>>, align: Align, wrap: bool) -> WidgetView {
    WidgetView::Text { area, lines, look: theme::plain_look(), align, wrap }
}

pub fn text(area: Rect, lines: Vec<Line>, align: Align, wrap: bool) -> (r: Widget)
    ensures
        r@ == text_view(area, line_views(lines@), align, wrap),
{
    Widget::Text { area, lines, look: theme::plain(), align, wrap }
}

} // verus!
