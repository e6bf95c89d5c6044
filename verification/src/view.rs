//! What the interface looks like: a frame as a list of widgets, worked out from
//! what the interface knows.
//!
//! Two layouts. A narrow terminal puts the details in a strip under the list; a
//! wide one puts them in a panel beside it, with the cover near poster size.

use vstd::prelude::*;
use vstd::string::*;

use crate::double;
use crate::graphics;
use crate::graphics::{half_blocks, Cell, Image, Protocol};
use crate::history;
use crate::history::{timestamp, Disk, Entry};
use crate::model;
use crate::model::{human_bytes, or_blank, Book};
use crate::order::{Order, Sorting};
use crate::query;
use crate::screen;
use crate::screen::{
    blank_line,
    border,
    centered,
    frame_parts,
    inner,
    line,
    line2,
    line3,
    margins,
    min16,
    owned_span,
    side_by_side,
    span,
    Align,
    Line,
    LineView,
    Parts,
    Rect,
    Row,
    RowView,
    Span,
    SpanView,
    Widget,
    WidgetView,
    Width,
};
use crate::term;
use crate::term::{align_left, align_right, display_width, filled_of, percent_of, share_of};
use crate::text;
use crate::text::{chars_of, concat, cut_out, dec, join, repeat, same, string_of, trim};
use crate::theme;
use crate::tui;
use crate::tui::{find_entry, sort_choices, App, AppView, Job, JobView, Mode, Slot, SlotView, Tab};

verus! {

broadcast use {
    screen::lemma_spans_push,
    screen::lemma_lines_push,
    screen::lemma_rows_push,
    screen::lemma_widgets_push,
    screen::lemma_widgets_concat,
};

/// What is drawn, and where a picture goes on top of it.
#[derive(Debug, PartialEq, Eq)]
pub struct Screen {
    pub widgets: Vec<Widget>,
    pub cover: Option<Rect>,
}

pub struct ScreenView {
    pub widgets: Seq<WidgetView>,
    pub cover: Option<Rect>,
}

impl View for Screen {
    type V = ScreenView;

    open spec fn view(&self) -> ScreenView {
        ScreenView { widgets: screen::widget_views(self.widgets@), cover: self.cover }
    }
}

// ---------------------------------------------------------------------------
// Downloads
// ---------------------------------------------------------------------------

/// The state of a download in a column's width.
pub open spec fn label_of_job(job: Option<JobView>) -> Seq<char> {
    match job {
        Some(JobView::Queued) => "queued"@,
        Some(JobView::Running { done, total }) => match total {
            Some(t) => if t > 0 {
                let x = double::quotient(double::of_nat(done as nat), double::of_nat(t as nat));
                term::right_aligned(text::decimal(term::percent(x)), 3) + "%"@
            } else {
                model::bytes_text(done as nat)
            },
            None => model::bytes_text(done as nat),
        },
        Some(JobView::Saved(_)) => "saved"@,
        Some(JobView::Failed(_)) => "failed"@,
        None => seq![],
    }
}

pub open spec fn job_view(job: Option<&Job>) -> Option<JobView> {
    match job {
        Some(j) => Some(j@),
        None => None,
    }
}

pub fn job_label(job: Option<&Job>) -> (r: String)
    ensures
        r@ == label_of_job(job_view(job)),
{
    match job {
        Some(Job::Queued) => "queued".to_owned(),
        Some(Job::Running { done, total }) => match total {
            Some(t) => {
                if *t > 0 {
                    let d = double::from_u64(*done);
                    let x = double::over(d, double::from_u64(*t));
                    concat(&align_right(&dec(percent_of(x)), 3), "%")
                } else {
                    human_bytes(*done)
                }
            },
            None => human_bytes(*done),
        },
        Some(Job::Saved(_)) => "saved".to_owned(),
        Some(Job::Failed(_)) => "failed".to_owned(),
        None => String::new(),
    }
}

pub open spec fn look_of_job(job: Option<JobView>) -> theme::Look {
    match job {
        Some(JobView::Saved(_)) => theme::coloured(theme::SUCCESS),
        Some(JobView::Failed(_)) => theme::coloured(theme::DANGER),
        Some(_) => theme::coloured(theme::ACCENT),
        None => theme::plain_look(),
    }
}

pub fn job_style(job: Option<&Job>) -> (r: theme::Look)
    ensures
        r == look_of_job(job_view(job)),
{
    match job {
        Some(Job::Saved(_)) => theme::ink(theme::SUCCESS),
        Some(Job::Failed(_)) => theme::ink(theme::DANGER),
        Some(_) => theme::ink(theme::ACCENT),
        None => theme::plain(),
    }
}

/// A text progress bar: filled cells, empty cells, and the two sizes; or the one
/// size, where the other is not known.
pub open spec fn bar_text(done: nat, total: Option<u64>, width: nat) -> Seq<char> {
    match total {
        Some(t) => if t > 0 {
            let filled = term::filled_cells(term::share(done, t as nat), width) as int;
            text::repeated('█', filled) + text::repeated('░', width - filled) + "  "@
                + model::bytes_text(done) + "/"@ + model::bytes_text(t as nat)
        } else {
            "downloading… "@ + model::bytes_text(done)
        },
        None => "downloading… "@ + model::bytes_text(done),
    }
}

/// A text progress bar for the details pane.
pub fn progress_bar(done: u64, total: Option<u64>, width: usize) -> (r: String)
    ensures
        r@ == bar_text(done as nat, total, width as nat),
{
    match total {
        Some(t) => {
            if t > 0 {
                let filled = filled_of(share_of(done, t), width);
                let mut out = repeat('█', filled);
                out.append(&repeat('░', width - filled));
                out.append("  ");
                out.append(&human_bytes(done));
                out.append("/");
                out.append(&human_bytes(t));
                return out;
            }
        },
        None => {},
    }
    concat("downloading… ", &human_bytes(done))
}

/// A bar is as long as it was asked to be, whatever the progress.
pub proof fn lemma_bars_keep_their_length(done: nat, total: u64, width: nat)
    requires
        total > 0,
        width <= usize::MAX,
    ensures
        ({
            let filled = term::filled_cells(term::share(done, total as nat), width) as int;
            &&& filled <= width
            &&& (text::repeated('█', filled) + text::repeated('░', width - filled)).len() == width
        }),
{
}

// ---------------------------------------------------------------------------
// Sharing out the frame
// ---------------------------------------------------------------------------

/// The rows that are not the details' to have: the box, the hints, and a list of
/// four rows and its header.
pub const SPARED: u16 = 9;

impl AppView {
    /// How tall the detail strip is, borders included. A cover needs more room
    /// than the six lines of text, but only where there is one to show, and
    /// never so much that the list is squeezed out.
    pub open spec fn details_rows(self, area: Rect) -> u16 {
        let spare = screen::difference(area.height as int, SPARED as int);
        let ceiling = if spare > 3 {
            spare
        } else {
            3
        };
        let floor = screen::lesser(8, ceiling);
        if !self.shows_cover() {
            floor
        } else {
            let wanted = screen::lesser(13, spare);
            if wanted > floor {
                wanted
            } else {
                floor
            }
        }
    }

    /// Whether the list earns its tall side panel: enough columns for the rows to
    /// keep breathing next to a poster-sized cover, and something to show.
    pub open spec fn paneled(self, area: Rect) -> bool {
        area.width >= 110 && match self.tab {
            Tab::Search => self.results.len() > 0,
            Tab::Library => self.shown.len() > 0,
        }
    }

    /// The rows the strip over the list takes: one when there are results to
    /// narrow, or a library to sum up.
    pub open spec fn filter_rows(self) -> u16 {
        let some = match self.tab {
            Tab::Search => self.results.len() > 0,
            Tab::Library => self.library.len() > 0,
        };
        if some {
            1
        } else {
            0
        }
    }

    /// The rows the details take. There is no strip where there is nothing to
    /// describe, unless there is an error to tell.
    pub open spec fn strip_rows(self, area: Rect) -> u16 {
        let empty = match self.tab {
            Tab::Search => self.results.len() == 0,
            Tab::Library => self.shown.len() == 0,
        };
        if self.paneled(area) || (empty && self.error is None) {
            0
        } else {
            self.details_rows(area)
        }
    }
}

/// The details never crowd out the list: in a frame of twelve rows or more there
/// is room for everything, and the list keeps a header and four rows, less the
/// row that the filters take.
pub proof fn lemma_the_list_is_never_squeezed_out(a: AppView, area: Rect)
    requires
        area.height >= 12,
        area.y + area.height <= 65535,
    ensures
        screen::roomy(area, a.filter_rows(), a.strip_rows(area)),
        screen::parts_of(area, a.filter_rows(), a.strip_rows(area)).list.height >= 5
            - a.filter_rows(),
{
}

impl App {
    /// How tall the detail pane is, borders included.
    pub fn details_height(&self, area: Rect) -> (r: u16)
        requires
            self.wf(),
        ensures
            r == self@.details_rows(area),
    {
        let spare: u16 = area.height.saturating_sub(SPARED);
        let ceiling: u16 = if spare > 3 {
            spare
        } else {
            3
        };
        let floor: u16 = min16(8, ceiling);
        if !self.cover_visible() {
            return floor;
        }
        let wanted: u16 = min16(13, spare);
        if wanted > floor {
            wanted
        } else {
            floor
        }
    }

    /// Whether the list earns its tall side panel.
    pub fn side_panel(&self, area: Rect) -> (r: bool)
        ensures
            r == self@.paneled(area),
    {
        area.width >= 110 && match self.tab {
            Tab::Search => self.results.len() > 0,
            Tab::Library => self.shown.len() > 0,
        }
    }

    fn filter_bar(&self) -> (r: u16)
        ensures
            r == self@.filter_rows(),
    {
        let some = match self.tab {
            Tab::Search => self.results.len() > 0,
            Tab::Library => self.library.len() > 0,
        };
        if some {
            1
        } else {
            0
        }
    }

    fn strip(&self, area: Rect) -> (r: u16)
        requires
            self.wf(),
        ensures
            r == self@.strip_rows(area),
    {
        let empty = match self.tab {
            Tab::Search => self.results.len() == 0,
            Tab::Library => self.shown.len() == 0,
        };
        if self.side_panel(area) || (empty && self.error.is_none()) {
            0
        } else {
            self.details_height(area)
        }
    }
}

// ---------------------------------------------------------------------------
// The filters
// ---------------------------------------------------------------------------

/// A key, as the legends name it.
pub open spec fn key_span(k: Seq<char>) -> SpanView {
    screen::styled(k, theme::bold_coloured(theme::ACCENT))
}

fn key(k: &str) -> (r: Span)
    ensures
        r@ == key_span(k@),
{
    span(k, theme::bold_ink(theme::ACCENT))
}

pub open spec fn faint_span(s: Seq<char>) -> SpanView {
    screen::styled(s, theme::coloured(theme::FAINT))
}

fn faint(s: &str) -> (r: Span)
    ensures
        r@ == faint_span(s@),
{
    span(s, theme::faint())
}

pub open spec fn muted_span(s: Seq<char>) -> SpanView {
    screen::styled(s, theme::coloured(theme::MUTED))
}

fn muted(s: &str) -> (r: Span)
    ensures
        r@ == muted_span(s@),
{
    span(s, theme::muted())
}

pub open spec fn plain_span(s: Seq<char>) -> SpanView {
    screen::styled(s, theme::plain_look())
}

fn plain(s: &str) -> (r: Span)
    ensures
        r@ == plain_span(s@),
{
    span(s, theme::plain())
}

/// A text with a space on either side.
pub open spec fn spaced(s: Seq<char>) -> Seq<char> {
    " "@ + s + " "@
}

fn space(s: &str) -> (r: String)
    ensures
        r@ == spaced(s@),
{
    let mut out = " ".to_owned();
    out.append(s);
    out.append(" ");
    out
}

/// A format as a chip.
pub open spec fn format_span(ext: Seq<char>) -> SpanView {
    screen::styled(spaced(ext), theme::chip_look(theme::BG, theme::format_hue(ext)))
}

fn format_piece(ext: &str) -> (r: Span)
    ensures
        r@ == format_span(ext@),
{
    owned_span(space(ext), theme::format_chip(ext))
}

/// The count behind a facet's choice, where there is one.
pub open spec fn with_count(spans: Seq<SpanView>, count: Option<nat>) -> Seq<SpanView> {
    match count {
        Some(n) => spans.push(faint_span(" "@ + text::decimal(n))),
        None => spans,
    }
}

/// How much some books take up together, as far as their records say.
pub open spec fn total_size(books: Seq<Book>) -> nat
    decreases books.len(),
{
    if books.len() == 0 {
        0
    } else {
        total_size(books.drop_last()) + (match books.last().size_bytes {
            Some(n) => n as nat,
            None => 0,
        })
    }
}

/// How much past downloads take up together.
pub open spec fn shelf_size(es: Seq<Entry>) -> nat
    decreases es.len(),
{
    if es.len() == 0 {
        0
    } else {
        shelf_size(es.drop_last()) + es.last().size as nat
    }
}

/// A count of bytes held at the largest a machine counts to.
pub open spec fn counted_bytes(n: nat) -> nat {
    if n <= u64::MAX {
        n
    } else {
        u64::MAX as nat
    }
}

/// The formats of a collection, each with its count.
pub open spec fn formats_text(fs: Seq<(Seq<char>, nat)>) -> Seq<char>
    decreases fs.len(),
{
    if fs.len() == 0 {
        seq![]
    } else {
        formats_text(fs.drop_last()) + " · "@ + text::decimal(fs.last().1) + " "@ + fs.last().0
    }
}

impl AppView {
    /// How many results are marked, and what downloading them would pull.
    pub open spec fn marked_text(self) -> Seq<char> {
        let books = self.marked_books(self.results.len());
        let size = counted_bytes(total_size(books));
        if books.len() == 0 {
            seq![]
        } else if size == 0 {
            text::decimal(books.len()) + " marked   "@
        } else {
            text::decimal(books.len()) + " marked · "@ + model::bytes_text(size) + "   "@
        }
    }

    /// The library in a line: how many books, how much they take up, and in
    /// which formats they are.
    pub open spec fn summary_text(self) -> Seq<char> {
        text::decimal(self.library.len()) + (if self.library.len() == 1 {
            " book · "@
        } else {
            " books · "@
        }) + model::bytes_text(counted_bytes(shelf_size(self.library))) + formats_text(
            self.shelf_formats(),
        )
    }

    /// The strip over the library.
    pub open spec fn summary_drawn(self, area: Rect) -> Seq<WidgetView> {
        if area.height == 0 {
            seq![]
        } else {
            seq![
                screen::text_view(
                    area,
                    seq![seq![plain_span(" "@), faint_span(self.summary_text())]],
                    Align::Left,
                    false,
                ),
            ]
        }
    }

    /// The strip over whichever list the tab shows.
    pub open spec fn strip_drawn(self, area: Rect) -> Seq<WidgetView> {
        match self.tab {
            Tab::Search => self.filters_drawn(area),
            Tab::Library => self.summary_drawn(area),
        }
    }

    /// How much of the catch is on screen. The amber only comes out when a
    /// filter is actually hiding something.
    pub open spec fn counter(self) -> SpanView {
        if self.visible.len() < self.results.len() {
            screen::styled(
                text::decimal(self.visible.len()) + " of "@ + text::decimal(self.results.len())
                    + " shown "@,
                theme::bold_coloured(theme::AMBER),
            )
        } else {
            faint_span(text::decimal(self.results.len()) + " results "@)
        }
    }

    /// The format facet.
    pub open spec fn format_facet(self) -> Seq<SpanView> {
        let head = seq![plain_span(" "@), key_span("e"@), faint_span(" format "@)];
        match self.fmt_filter {
            Some(f) => with_count(head.push(format_span(f)), self.count_behind(true)),
            None => head.push(muted_span("all"@)),
        }
    }

    /// The format facet and the language facet after it.
    pub open spec fn both_facets(self) -> Seq<SpanView> {
        let head = self.format_facet().push(plain_span("    "@)).push(key_span("l"@)).push(
            faint_span(" language "@),
        );
        match self.lang_filter {
            Some(l) => with_count(
                head.push(screen::styled(l, theme::bold_coloured(theme::LANG))),
                self.count_behind(false),
            ),
            None => head.push(muted_span("all"@)),
        }
    }

    /// The refinement bar's left side.
    pub open spec fn facets_line(self) -> Seq<SpanView> {
        if self.fmt_filter is Some || self.lang_filter is Some {
            self.both_facets().push(plain_span("    "@)).push(key_span("x"@)).push(
                faint_span(" clear "@),
            )
        } else {
            self.both_facets()
        }
    }

    /// The refinement bar: the two facets and what they leave showing.
    pub open spec fn filters_drawn(self, area: Rect) -> Seq<WidgetView> {
        if area.height == 0 {
            seq![]
        } else {
            seq![
                screen::text_view(
                    area,
                    seq![
                        seq![
                            screen::styled(
                                self.marked_text(),
                                theme::bold_coloured(theme::AMBER),
                            ),
                            self.counter(),
                        ],
                    ],
                    Align::Right,
                    false,
                ),
                screen::text_view(area, seq![self.facets_line()], Align::Left, false),
            ]
        }
    }
}

fn push_count(spans: &mut Vec<Span>, count: Option<usize>)
    ensures
        screen::span_views(final(spans)@) == with_count(
            screen::span_views(old(spans)@),
            match count {
                Some(n) => Some(n as nat),
                None => None,
            },
        ),
{
    match count {
        Some(n) => {
            spans.push(faint(&concat(" ", &dec(n as u64))));
        },
        None => {},
    }
}

/// The formats of a collection, each with its count.
fn formats_line(fs: &Vec<(String, usize)>) -> (r: String)
    ensures
        r@ == formats_text(tui::option_views(fs@)),
{
    let ghost all = tui::option_views(fs@);
    let mut out = String::new();
    let mut i: usize = 0;
    assert(all.take(0) =~= seq![]);
    while i < fs.len()
        invariant
            i <= fs@.len(),
            all == tui::option_views(fs@),
            out@ == formats_text(all.take(i as int)),
        decreases fs@.len() - i,
    {
        assert(all.take(i + 1).drop_last() =~= all.take(i as int));
        assert(all.take(i + 1).last() == (fs@[i as int].0@, fs@[i as int].1 as nat));
        out.append(" · ");
        out.append(&dec(fs[i].1 as u64));
        out.append(" ");
        out.append(&fs[i].0);
        i += 1;
    }
    assert(all.take(i as int) =~= all);
    out
}

/// One line, as a list.
fn one(l: Line) -> (r: Vec<Line>)
    ensures
        screen::line_views(r@) == seq![l@],
{
    let mut lines: Vec<Line> = Vec::new();
    lines.push(l);
    assert(screen::line_views(lines@) =~= seq![l@]);
    lines
}

impl App {
    fn counter_piece(&self) -> (r: Span)
        ensures
            r@ == self@.counter(),
    {
        let shown: usize = self.visible.len();
        let all: usize = self.results.len();
        if shown < all {
            let mut out = dec(shown as u64);
            out.append(" of ");
            out.append(&dec(all as u64));
            out.append(" shown ");
            owned_span(out, theme::bold_ink(theme::AMBER))
        } else {
            faint(&concat(&dec(all as u64), " results "))
        }
    }

    /// How many results are marked, and what downloading them would pull.
    fn marked_note(&self) -> (r: String)
        ensures
            r@ == self@.marked_text(),
    {
        let mut count: usize = 0;
        let mut size: u64 = 0;
        let mut i: usize = 0;
        while i < self.results.len()
            invariant
                i <= self.results@.len(),
                count <= i,
                count == self@.marked_books(i as nat).len(),
                size == counted_bytes(total_size(self@.marked_books(i as nat))),
            decreases self.results@.len() - i,
        {
            if i < self.marked.len() && self.marked[i] {
                proof {
                    let before = self@.marked_books(i as nat);
                    let b = self.results@[i as int];
                    assert(before.push(b).drop_last() =~= before);
                }
                count += 1;
                size = size.saturating_add(
                    match self.results[i].size_bytes {
                        Some(n) => n,
                        None => 0,
                    },
                );
            }
            i += 1;
        }
        if count == 0 {
            return String::new();
        }
        let mut out = dec(count as u64);
        if size == 0 {
            out.append(" marked   ");
        } else {
            out.append(" marked · ");
            out.append(&human_bytes(size));
            out.append("   ");
        }
        out
    }

    /// The library in a line.
    fn summary(&self) -> (r: String)
        ensures
            r@ == self@.summary_text(),
    {
        let n: usize = self.library.len();
        let mut size: u64 = 0;
        let mut i: usize = 0;
        assert(self.library@.take(0) =~= seq![]);
        while i < n
            invariant
                i <= n,
                n == self.library@.len(),
                size == counted_bytes(shelf_size(self.library@.take(i as int))),
            decreases n - i,
        {
            assert(self.library@.take(i + 1).drop_last() =~= self.library@.take(i as int));
            size = size.saturating_add(self.library[i].size);
            i += 1;
        }
        assert(self.library@.take(n as int) =~= self.library@);
        let mut out = dec(n as u64);
        out.append(
            if n == 1 {
                " book · "
            } else {
                " books · "
            },
        );
        out.append(&human_bytes(size));
        out.append(&formats_line(&self.shelf_formats()));
        out
    }

    /// The strip over the library.
    pub fn render_summary(&self, area: Rect) -> (r: Vec<Widget>)
        ensures
            screen::widget_views(r@) == self@.summary_drawn(area),
    {
        let mut out: Vec<Widget> = Vec::new();
        if area.height > 0 {
            let l = line2(plain(" "), faint(&self.summary()));
            out.push(screen::text(area, one(l), Align::Left, false));
        }
        assert(screen::widget_views(out@) =~= self@.summary_drawn(area));
        out
    }

    fn format_spans(&self) -> (r: Vec<Span>)
        ensures
            screen::span_views(r@) == self@.format_facet(),
    {
        let mut spans: Vec<Span> = Vec::new();
        spans.push(plain(" "));
        spans.push(key("e"));
        spans.push(faint(" format "));
        assert(screen::span_views(spans@) =~= seq![
            plain_span(" "@),
            key_span("e"@),
            faint_span(" format "@),
        ]);
        match &self.fmt_filter {
            Some(f) => {
                spans.push(format_piece(f));
                push_count(&mut spans, self.facet_count(true));
            },
            None => {
                spans.push(muted("all"));
            },
        }
        spans
    }

    fn facet_spans(&self) -> (r: Vec<Span>)
        ensures
            screen::span_views(r@) == self@.facets_line(),
    {
        let mut spans = self.format_spans();
        spans.push(plain("    "));
        spans.push(key("l"));
        spans.push(faint(" language "));
        match &self.lang_filter {
            Some(l) => {
                spans.push(span(l, theme::bold_ink(theme::LANG)));
                push_count(&mut spans, self.facet_count(false));
            },
            None => {
                spans.push(muted("all"));
            },
        }
        if self.fmt_filter.is_some() || self.lang_filter.is_some() {
            spans.push(plain("    "));
            spans.push(key("x"));
            spans.push(faint(" clear "));
        }
        spans
    }

    /// The refinement bar: the two facets and what they leave showing.
    ///
    /// It lives on its own row, under the search box, so the counts update in
    /// place as `e` and `l` cycle: filters you can watch working, rather than
    /// tags you have to re-type into a new search.
    pub fn render_filters(&self, area: Rect) -> (r: Vec<Widget>)
        ensures
            screen::widget_views(r@) == self@.filters_drawn(area),
    {
        let mut out: Vec<Widget> = Vec::new();
        if area.height > 0 {
            let marks = owned_span(self.marked_note(), theme::bold_ink(theme::AMBER));
            let counts = line2(marks, self.counter_piece());
            out.push(screen::text(area, one(counts), Align::Right, false));
            let facets = Line { spans: self.facet_spans() };
            out.push(screen::text(area, one(facets), Align::Left, false));
        }
        assert(screen::widget_views(out@) =~= self@.filters_drawn(area));
        out
    }
}

// ---------------------------------------------------------------------------
// The box
// ---------------------------------------------------------------------------

/// A tab's name in the title of the box. The active tab is a solid accent chip:
/// colour and weight together, so it is unmistakable even without truecolour.
pub open spec fn tab_span(label: Seq<char>, active: bool) -> SpanView {
    screen::styled(
        label,
        if active {
            theme::chip_look(theme::TAB_TEXT, theme::ACCENT)
        } else {
            theme::coloured(theme::FAINT)
        },
    )
}

fn tab_piece(label: String, active: bool) -> (r: Span)
    ensures
        r@ == tab_span(label@, active),
{
    owned_span(
        label,
        if active {
            theme::chip(theme::TAB_TEXT, theme::ACCENT)
        } else {
            theme::faint()
        },
    )
}

impl AppView {
    /// The two tabs.
    pub open spec fn tabs_line(self) -> Seq<SpanView> {
        seq![
            tab_span("  1 SEARCH  "@, self.tab == Tab::Search),
            plain_span(" "@),
            tab_span(
                "  2 LIBRARY "@ + text::decimal(self.library.len()) + "  "@,
                self.tab == Tab::Library,
            ),
        ]
    }

    /// Where the books come from, after a dot that is teal when a mirror is
    /// answering and amber while one is still looked for. The mirror is
    /// irrelevant to books already on disk.
    pub open spec fn source_line(self) -> Seq<SpanView> {
        let looking = self.tab == Tab::Search && self.mirrors.len() == 0;
        seq![
            screen::styled(
                "● "@,
                theme::coloured(
                    if looking {
                        theme::AMBER
                    } else {
                        theme::ACCENT
                    },
                ),
            ),
            muted_span(
                match self.tab {
                    Tab::Search => self.mirror_label + " "@,
                    Tab::Library => "on this machine "@,
                },
            ),
        ]
    }

    /// The text in the box, or what it says while it is empty and at rest.
    pub open spec fn prompt_line(self) -> Seq<SpanView> {
        let editing = self.mode == Mode::Editing;
        seq![
            screen::styled(
                if editing {
                    "❯ "@
                } else {
                    "  "@
                },
                theme::bold_coloured(theme::ACCENT),
            ),
            if self.box_text().len() == 0 && !editing {
                faint_span(
                    match self.tab {
                        Tab::Search => "press / to search Library Genesis"@,
                        Tab::Library => "press / to filter your books"@,
                    },
                )
            } else {
                screen::styled(self.box_text(), theme::coloured(theme::TEXT))
            },
        ]
    }

    /// The column of the terminal's cursor in the box: past the two cells of the
    /// prompt and the text before the caret.
    pub open spec fn cursor_offset(self) -> int {
        let s = self.box_text();
        let before = s.take(tui::caret_in(self.caret, s.len()));
        (term::in_word(term::cells(before)) + 2) % 65536
    }

    /// The tab bar and the text box under it. The border lights up in the accent
    /// while you type, and rests at faint otherwise.
    pub open spec fn input_drawn(self, area: Rect) -> Seq<WidgetView> {
        let editing = self.mode == Mode::Editing;
        let inner = screen::inside(area);
        let resting = seq![
            WidgetView::Border {
                area,
                colour: if editing {
                    theme::ACCENT
                } else {
                    theme::FAINT
                },
                look: theme::plain_look(),
                title: self.tabs_line(),
                right_title: self.source_line(),
            },
            screen::text_view(inner, seq![self.prompt_line()], Align::Left, false),
        ];
        if editing {
            resting.push(
                WidgetView::Cursor {
                    x: screen::sum(inner.x as int, self.cursor_offset()),
                    y: inner.y,
                },
            )
        } else {
            resting
        }
    }
}

impl App {
    fn tabs(&self) -> (r: Line)
        ensures
            r@ == self@.tabs_line(),
    {
        let mut held = "  2 LIBRARY ".to_owned();
        held.append(&dec(self.library.len() as u64));
        held.append("  ");
        line3(
            tab_piece("  1 SEARCH  ".to_owned(), self.tab == Tab::Search),
            plain(" "),
            tab_piece(held, self.tab == Tab::Library),
        )
    }

    fn source(&self) -> (r: Line)
        ensures
            r@ == self@.source_line(),
    {
        let looking = self.tab == Tab::Search && self.mirrors.len() == 0;
        let dot = span(
            "● ",
            theme::ink(
                if looking {
                    theme::AMBER
                } else {
                    theme::ACCENT
                },
            ),
        );
        let label = match self.tab {
            Tab::Search => concat(&self.mirror_label, " "),
            Tab::Library => "on this machine ".to_owned(),
        };
        line2(dot, muted(&label))
    }

    fn prompt(&self) -> (r: Line)
        ensures
            r@ == self@.prompt_line(),
    {
        let editing = self.mode == Mode::Editing;
        let mark = span(
            if editing {
                "❯ "
            } else {
                "  "
            },
            theme::bold_ink(theme::ACCENT),
        );
        let said = self.input();
        let body = if said.unicode_len() == 0 && !editing {
            faint(
                match self.tab {
                    Tab::Search => "press / to search Library Genesis",
                    Tab::Library => "press / to filter your books",
                },
            )
        } else {
            span(said, theme::text())
        };
        line2(mark, body)
    }

    fn cursor_column(&self) -> (r: u16)
        ensures
            r == self@.cursor_offset(),
    {
        let v = chars_of(self.input());
        let n: usize = v.len();
        let k: usize = if self.caret < n {
            self.caret
        } else {
            n
        };
        let before = string_of(cut_out(&v, 0, k));
        assert(before@ =~= self@.box_text().take(tui::caret_in(self.caret, self@.box_text().len())));
        let w: usize = display_width(&before);
        let low: u32 = (w % 65536) as u32;
        ((low + 2) % 65536) as u16
    }

    /// The tab bar and the text box under it.
    ///
    /// The two tabs are drawn as the box's title so they cost no rows of their
    /// own: on an eighty by twenty-four terminal every line spent on chrome is a
    /// line of results not shown.
    pub fn render_input(&self, area: Rect) -> (r: Vec<Widget>)
        ensures
            screen::widget_views(r@) == self@.input_drawn(area),
    {
        let editing = self.mode == Mode::Editing;
        let mut out: Vec<Widget> = Vec::new();
        out.push(
            Widget::Border {
                area,
                colour: if editing {
                    theme::ACCENT
                } else {
                    theme::FAINT
                },
                look: theme::plain(),
                title: self.tabs(),
                right_title: self.source(),
            },
        );
        let inner = inner(area);
        out.push(screen::text(inner, one(self.prompt()), Align::Left, false));
        if editing {
            out.push(
                Widget::Cursor { x: inner.x.saturating_add(self.cursor_column()), y: inner.y },
            );
        }
        assert(screen::widget_views(out@) =~= self@.input_drawn(area));
        out
    }
}

// ---------------------------------------------------------------------------
// The results
// ---------------------------------------------------------------------------

/// The background of a row. Alternate rows sit one step off the canvas, so a
/// wide row can be followed without a ruler.
pub open spec fn zebra(row: int) -> graphics::Rgb {
    if row % 2 == 1 {
        theme::BG_ALT
    } else {
        theme::BG
    }
}

fn stripe(row: usize) -> (r: graphics::Rgb)
    ensures
        r == zebra(row as int),
{
    if row % 2 == 1 {
        theme::BG_ALT
    } else {
        theme::BG
    }
}

/// What leads a result's row: how its download stands, else its mark, else a dot
/// for a book that is in the library already.
pub open spec fn marker(job: Option<JobView>, marked: bool, owned: bool) -> SpanView {
    match job {
        Some(JobView::Saved(_)) => screen::styled("✓"@, theme::coloured(theme::SUCCESS)),
        Some(JobView::Failed(_)) => screen::styled("✗"@, theme::coloured(theme::DANGER)),
        Some(_) => screen::styled("↓"@, theme::coloured(theme::ACCENT)),
        None => if marked {
            screen::styled("●"@, theme::coloured(theme::AMBER))
        } else if owned {
            screen::styled("●"@, theme::coloured(theme::SUCCESS))
        } else {
            plain_span(" "@)
        },
    }
}

/// What stands in a result's last column: how its download stands, else whether
/// the book is in the library already, so that it is not fetched twice.
pub open spec fn standing(job: Option<JobView>, owned: bool) -> SpanView {
    if job is None && owned {
        screen::styled("library"@, theme::coloured(theme::SUCCESS))
    } else {
        screen::styled(label_of_job(job), look_of_job(job))
    }
}

fn standing_piece(job: Option<&Job>, owned: bool) -> (r: Span)
    ensures
        r@ == standing(job_view(job), owned),
{
    if job.is_none() && owned {
        span("library", theme::ink(theme::SUCCESS))
    } else {
        owned_span(job_label(job), job_style(job))
    }
}

fn marker_piece(job: Option<&Job>, marked: bool, owned: bool) -> (r: Span)
    ensures
        r@ == marker(job_view(job), marked, owned),
{
    match job {
        Some(Job::Saved(_)) => span("✓", theme::ink(theme::SUCCESS)),
        Some(Job::Failed(_)) => span("✗", theme::ink(theme::DANGER)),
        Some(_) => span("↓", theme::ink(theme::ACCENT)),
        None => {
            if marked {
                span("●", theme::ink(theme::AMBER))
            } else if owned {
                span("●", theme::ink(theme::SUCCESS))
            } else {
                plain(" ")
            }
        },
    }
}

/// A title in a list: bold in the highlighted row, and at full strength in every
/// other, because the titles are what the screen is for.
pub open spec fn title_look(here: bool) -> theme::Look {
    if here {
        theme::bold_coloured(theme::TEXT)
    } else {
        theme::coloured(theme::TEXT)
    }
}

fn title_style(here: bool) -> (r: theme::Look)
    ensures
        r == title_look(here),
{
    if here {
        theme::bold_ink(theme::TEXT)
    } else {
        theme::text()
    }
}

/// A format in a list. The selection wash replaces every background, so the chip
/// trades its solid for the same hue as bold text there.
pub open spec fn chip_in_row(ext: Seq<char>, here: bool) -> theme::Look {
    if here {
        theme::bold_coloured(theme::format_hue(ext))
    } else {
        theme::chip_look(theme::BG, theme::format_hue(ext))
    }
}

fn row_chip(ext: &str, here: bool) -> (r: theme::Look)
    ensures
        r == chip_in_row(ext@, here),
{
    if here {
        theme::bold_ink(theme::format_color(ext))
    } else {
        theme::format_chip(ext)
    }
}

/// The header of the results.
pub open spec fn result_header() -> Seq<&'static str> {
    seq!["", "TITLE", "AUTHOR", "YEAR", "LANGUAGE", "SIZE", "FMT", "STATUS"]
}

/// The columns of the results. Titles carry the information; authors repeat. The
/// room is weighted accordingly.
pub open spec fn result_widths() -> Seq<Width> {
    seq![
        Width::Cells(1),
        Width::Share(5),
        Width::Share(2),
        Width::Cells(4),
        Width::Cells(10),
        Width::Cells(8),
        Width::Cells(6),
        Width::Cells(7),
    ]
}

impl AppView {
    /// The download of a book, where there is one.
    pub open spec fn job(self, md5: Seq<char>) -> Option<JobView> {
        if self.jobs.contains_key(md5) {
            Some(self.jobs[md5])
        } else {
            None
        }
    }

    /// Whether a book is in the library already.
    pub open spec fn owns(self, md5: Seq<char>) -> bool {
        tui::entry_with(self.library, md5, 0) is Some
    }

    /// The row of a result.
    pub open spec fn result_row(self, row: int) -> RowView {
        let i = self.visible[row];
        let b = self.results[i as int];
        let job = self.job(b.md5@);
        let here = self.row == Some(row as usize);
        RowView {
            cells: seq![
                marker(job, i < self.marked.len() && self.marked[i as int], self.owns(b.md5@)),
                screen::styled(b.title@, title_look(here)),
                muted_span(b.first_author_text()),
                faint_span(model::or_empty(b.year)),
                screen::styled(model::or_empty(b.language), theme::coloured(theme::LANG)),
                faint_span(b.size_text()),
                screen::styled(spaced(b.ext_text()), chip_in_row(b.ext_text(), here)),
                standing(job, self.owns(b.md5@)),
            ],
            bg: zebra(row),
        }
    }

    /// The first `n` rows of the results.
    pub open spec fn result_rows(self, n: nat) -> Seq<RowView>
        decreases n,
    {
        if n == 0 {
            seq![]
        } else {
            let rows = self.result_rows((n - 1) as nat);
            if self.visible[n - 1] < self.results.len() {
                rows.push(self.result_row(n - 1))
            } else {
                rows
            }
        }
    }

    /// The results, or what stands in their place.
    pub open spec fn results_drawn(self, area: Rect) -> Seq<WidgetView> {
        if self.visible.len() == 0 {
            self.empty_drawn(area)
        } else {
            seq![
                WidgetView::Table {
                    area,
                    header: result_header(),
                    widths: result_widths(),
                    rows: self.result_rows(self.visible.len()),
                    selected: self.row,
                },
            ]
        }
    }

    /// The filters that are set, by name.
    pub open spec fn carved(self) -> Seq<Seq<char>> {
        let first = match self.fmt_filter {
            Some(f) => seq![f],
            None => seq![],
        };
        match self.lang_filter {
            Some(l) => first.push(l),
            None => first,
        }
    }

    /// What to say when there are no results to list. Where results exist but
    /// the filters admit none of them, it says which lever to pull, not just
    /// that nothing is here.
    pub open spec fn empty_lines(self) -> Seq<LineView> {
        if self.results.len() > 0 {
            seq![
                seq![
                    muted_span(
                        "none of the "@ + text::decimal(self.results.len()) + " results are "@
                            + text::joined(self.carved(), " + "@),
                    ),
                ],
                seq![],
                seq![
                    key_span("x"@),
                    faint_span(" clears the filters   "@),
                    key_span("e l"@),
                    faint_span(" cycle them"@),
                ],
            ]
        } else {
            let first = seq![
                muted_span(
                    self.status + (if self.busy {
                        "…"@
                    } else {
                        seq![]
                    }),
                ),
            ];
            if !self.busy && self.mode != Mode::Editing {
                seq![
                    first,
                    seq![],
                    seq![
                        faint_span("press "@),
                        key_span("/"@),
                        faint_span(" and type a title or author"@),
                    ],
                ]
            } else {
                seq![first]
            }
        }
    }

    /// The results area before or between searches. Centred rather than tucked
    /// in a corner, so an empty screen still looks composed.
    pub open spec fn empty_drawn(self, area: Rect) -> Seq<WidgetView> {
        seq![centred_view(area, self.empty_lines())]
    }
}

/// Lines in the middle of an area.
pub open spec fn centred_view(area: Rect, lines: Seq<LineView>) -> WidgetView {
    let above = screen::difference(area.height as int, lines.len() as int) / 2;
    screen::text_view(screen::within(area, 2, above), lines, Align::Center, false)
}

fn centred(area: Rect, lines: Vec<Line>) -> (r: Widget)
    requires
        lines@.len() <= 100,
    ensures
        r@ == centred_view(area, screen::line_views(lines@)),
{
    let above: u16 = area.height.saturating_sub(lines.len() as u16) / 2;
    screen::text(margins(area, 2, above), lines, Align::Center, false)
}

fn result_columns() -> (r: Vec<Width>)
    ensures
        r@ == result_widths(),
{
    vec![
        Width::Cells(1),
        Width::Share(5),
        Width::Share(2),
        Width::Cells(4),
        Width::Cells(10),
        Width::Cells(8),
        Width::Cells(6),
        Width::Cells(7),
    ]
}

fn result_titles() -> (r: Vec<&'static str>)
    ensures
        r@ == result_header(),
{
    vec!["", "TITLE", "AUTHOR", "YEAR", "LANGUAGE", "SIZE", "FMT", "STATUS"]
}

impl App {
    fn job_of(&self, md5: &str) -> (r: Option<&Job>)
        requires
            self.wf(),
        ensures
            job_view(r) == self@.job(md5@),
    {
        self.jobs.get(md5)
    }

    fn result_line(&self, row: usize) -> (r: Row)
        requires
            self.wf(),
            row < self.visible@.len(),
            self.visible@[row as int] < self.results@.len(),
        ensures
            r@ == self@.result_row(row as int),
    {
        let i: usize = self.visible[row];
        let b = &self.results[i];
        let job = self.job_of(&b.md5);
        let here = match self.table.row {
            Some(k) => k == row,
            None => false,
        };
        let marked = i < self.marked.len() && self.marked[i];
        let owned = find_entry(&self.library, &b.md5).is_some();
        let mut cells: Vec<Span> = Vec::new();
        cells.push(marker_piece(job, marked, owned));
        cells.push(span(&b.title, title_style(here)));
        cells.push(muted(&b.first_author()));
        cells.push(faint(or_blank(&b.year)));
        cells.push(span(or_blank(&b.language), theme::ink(theme::LANG)));
        cells.push(faint(&b.size_human()));
        cells.push(owned_span(space(b.ext()), row_chip(b.ext(), here)));
        cells.push(standing_piece(job, owned));
        let r = Row { cells, bg: stripe(row) };
        assert(r@.cells =~= self@.result_row(row as int).cells);
        r
    }

    /// The results as a table, or what stands in their place.
    pub fn render_results(&self, area: Rect) -> (r: Vec<Widget>)
        requires
            self.wf(),
        ensures
            screen::widget_views(r@) == self@.results_drawn(area),
    {
        if self.visible.len() == 0 {
            return self.render_empty(area);
        }
        let n: usize = self.visible.len();
        let mut rows: Vec<Row> = Vec::new();
        let mut row: usize = 0;
        assert(screen::row_views(rows@) =~= self@.result_rows(0));
        while row < n
            invariant
                row <= n,
                n == self.visible@.len(),
                self.wf(),
                screen::row_views(rows@) == self@.result_rows(row as nat),
            decreases n - row,
        {
            if self.visible[row] < self.results.len() {
                let made = self.result_line(row);
                rows.push(made);
            }
            row += 1;
        }
        let mut out: Vec<Widget> = Vec::new();
        out.push(
            Widget::Table {
                area,
                header: result_titles(),
                widths: result_columns(),
                rows,
                selected: self.table.row,
            },
        );
        assert(screen::widget_views(out@) =~= self@.results_drawn(area));
        out
    }

    fn carved_names(&self) -> (r: Vec<String>)
        ensures
            text::texts(r@) == self@.carved(),
    {
        broadcast use text::lemma_texts_push;

        let mut names: Vec<String> = Vec::new();
        assert(text::texts(names@) =~= seq![]);
        match &self.fmt_filter {
            Some(f) => {
                names.push(f.clone());
                assert(text::texts(names@) =~= seq![f@]);
            },
            None => {},
        }
        match &self.lang_filter {
            Some(l) => {
                names.push(l.clone());
            },
            None => {},
        }
        names
    }

    fn narrowed_lines(&self) -> (r: Vec<Line>)
        requires
            self.results@.len() > 0,
        ensures
            screen::line_views(r@) == self@.empty_lines(),
            r@.len() == 3,
    {
        let mut said = "none of the ".to_owned();
        said.append(&dec(self.results.len() as u64));
        said.append(" results are ");
        said.append(&join(&self.carved_names(), " + "));
        let mut spans: Vec<Span> = Vec::new();
        spans.push(key("x"));
        spans.push(faint(" clears the filters   "));
        spans.push(key("e l"));
        spans.push(faint(" cycle them"));
        let last = Line { spans };
        assert(last@ =~= seq![
            key_span("x"@),
            faint_span(" clears the filters   "@),
            key_span("e l"@),
            faint_span(" cycle them"@),
        ]);
        let mut lines: Vec<Line> = Vec::new();
        lines.push(line(muted(&said)));
        lines.push(blank_line());
        lines.push(last);
        assert(screen::line_views(lines@) =~= self@.empty_lines());
        lines
    }

    fn waiting_lines(&self) -> (r: Vec<Line>)
        requires
            self.results@.len() == 0,
        ensures
            screen::line_views(r@) == self@.empty_lines(),
            r@.len() <= 3,
    {
        let mut said = self.status.clone();
        if self.busy {
            said.append("…");
        } else {
            assert(self.status@ + Seq::<char>::empty() =~= self.status@);
        }
        let mut lines: Vec<Line> = Vec::new();
        lines.push(line(muted(&said)));
        if !self.busy && self.mode != Mode::Editing {
            lines.push(blank_line());
            lines.push(line3(faint("press "), key("/"), faint(" and type a title or author")));
        }
        assert(screen::line_views(lines@) =~= self@.empty_lines());
        lines
    }

    /// The results area before or between searches: the status, and once a
    /// mirror is up, a few words on how to begin.
    pub fn render_empty(&self, area: Rect) -> (r: Vec<Widget>)
        ensures
            screen::widget_views(r@) == self@.empty_drawn(area),
    {
        let lines = if self.results.len() > 0 {
            self.narrowed_lines()
        } else {
            self.waiting_lines()
        };
        let mut out: Vec<Widget> = Vec::new();
        out.push(centred(area, lines));
        assert(screen::widget_views(out@) =~= self@.empty_drawn(area));
        out
    }
}

// ---------------------------------------------------------------------------
// The cover
// ---------------------------------------------------------------------------

/// A picture as half blocks.
pub open spec fn block_lines(image: graphics::ImageView, cols: u16, rows: u16) -> Seq<LineView> {
    if image.blank() || cols == 0 || rows == 0 {
        seq![]
    } else {
        let (w, h) = graphics::fitted(
            image.width as nat,
            image.height as nat,
            cols as nat,
            2 * rows as nat,
        );
        Seq::new(
            (h + 1) / 2,
            |j: int|
                Seq::new(
                    w,
                    |i: int| block_span(graphics::cell_at(image, w as int, h as int, i, j)),
                ),
        )
    }
}

/// A cell of a picture: the upper half in the one colour, the lower in the other.
pub open spec fn block_span(c: Cell) -> SpanView {
    screen::styled(
        seq![graphics::UPPER_HALF],
        theme::Look { fg: Some(c.0), bg: Some(c.1), bold: false },
    )
}

fn block_piece(c: Cell) -> (r: Span)
    ensures
        r@ == block_span(c),
{
    let s = repeat(graphics::UPPER_HALF, 1);
    assert(s@ =~= seq![graphics::UPPER_HALF]);
    owned_span(s, theme::Look { fg: Some(c.0), bg: Some(c.1), bold: false })
}

fn block_line(cells: &Vec<Cell>) -> (r: Line)
    ensures
        r@ == Seq::new(cells@.len(), |i: int| block_span(cells@[i])),
{
    let n: usize = cells.len();
    let mut spans: Vec<Span> = Vec::new();
    let mut i: usize = 0;
    while i < n
        invariant
            i <= n,
            n == cells@.len(),
            spans@.len() == i,
            forall|k: int| 0 <= k < i ==> (#[trigger] spans@[k])@ == block_span(cells@[k]),
        decreases n - i,
    {
        spans.push(block_piece(cells[i]));
        i += 1;
    }
    let r = Line { spans };
    assert(r@ =~= Seq::new(cells@.len(), |i: int| block_span(cells@[i])));
    r
}

fn blocks(image: &Image, cols: u16, rows: u16) -> (r: Vec<Line>)
    ensures
        screen::line_views(r@) == block_lines(image@, cols, rows),
{
    let cells = half_blocks(image, cols, rows);
    let n: usize = cells.len();
    let mut lines: Vec<Line> = Vec::new();
    let mut j: usize = 0;
    while j < n
        invariant
            j <= n,
            n == cells@.len(),
            lines@.len() == j,
            forall|k: int|
                0 <= k < j ==> (#[trigger] lines@[k])@ == Seq::new(
                    cells@[k]@.len(),
                    |i: int| block_span(cells@[k]@[i]),
                ),
        decreases n - j,
    {
        lines.push(block_line(&cells[j]));
        j += 1;
    }
    proof {
        let want = block_lines(image@, cols, rows);
        let got = screen::line_views(lines@);
        assert(got.len() == want.len());
        assert forall|k: int| 0 <= k < got.len() implies got[k] == want[k] by {
            assert(got[k] == lines@[k]@);
            assert(got[k] =~= want[k]);
        }
        assert(got =~= want);
    }
    lines
}

impl AppView {
    /// The cover, or the space it is about to occupy. For the two pixel
    /// protocols this only records where the picture goes, and leaves the cells
    /// blank so that it shows through; half-block art, being text, is drawn like
    /// anything else.
    pub open spec fn cover_drawn(self, area: Rect) -> ScreenView {
        if area.width == 0 || area.height == 0 {
            ScreenView { widgets: seq![], cover: None }
        } else {
            ScreenView {
                widgets: match self.slot() {
                    Some(SlotView::Looking) => seq![
                        WidgetView::Text {
                            area,
                            lines: seq![seq![plain_span("…"@)]],
                            look: theme::coloured(theme::FAINT),
                            align: Align::Center,
                            wrap: false,
                        },
                    ],
                    Some(SlotView::Ready(art)) => match art.pixels {
                        Some(image) => if self.protocol.draws_pixels() {
                            seq![]
                        } else {
                            seq![
                                screen::text_view(
                                    area,
                                    block_lines(image, area.width, area.height),
                                    Align::Left,
                                    false,
                                ),
                            ]
                        },
                        None => seq![],
                    },
                    _ => seq![],
                },
                cover: Some(area),
            }
        }
    }

    /// The shape of a cover: its own once that is known, and that of a jacket
    /// until then.
    pub open spec fn jacket(self, md5: Seq<char>) -> (int, int) {
        if self.covers.contains_key(md5) {
            match self.covers[md5] {
                SlotView::Ready(art) => match art.pixels {
                    Some(p) => (at_least_one(p.width as int), at_least_one(p.height as int)),
                    None => (2, 3),
                },
                _ => (2, 3),
            }
        } else {
            (2, 3)
        }
    }

    /// Where a cover goes at the top of a panel: as large as there is room for
    /// in the shape of the picture, a character cell being about twice as tall
    /// as it is wide; centred; and capped so that the record below always keeps
    /// its ten lines.
    pub open spec fn cover_place(self, inner: Rect, md5: Seq<char>) -> Rect {
        let (w, h) = self.jacket(md5);
        let most_rows = term::held(
            screen::difference(inner.height as int, 11) as int,
            6,
            21,
        );
        let most_columns = screen::difference(inner.width as int, 2);
        let width = screen::lesser(most_columns, ((most_rows * 2 * w / h) % 65536) as u16);
        let height = screen::lesser(
            (((width * h + 2 * w - 1) / (2 * w)) % 65536) as u16,
            most_rows as u16,
        );
        Rect {
            x: screen::sum(inner.x as int, (inner.width - width) / 2),
            y: inner.y,
            width,
            height,
        }
    }

    /// The cover across the top of a panel, or a quiet empty jacket where there
    /// is none, so that the panel does not jump when one arrives.
    pub open spec fn cover_placed(self, inner: Rect, md5: Seq<char>) -> ScreenView {
        if self.protocol == Protocol::Nothing {
            ScreenView { widgets: seq![], cover: None }
        } else {
            let place = self.cover_place(inner, md5);
            if self.covers.contains_key(md5) && !(self.covers[md5] is Nothing) {
                self.cover_drawn(place)
            } else {
                ScreenView { widgets: placeholder_drawn(place), cover: None }
            }
        }
    }

    /// The row where the text under the cover begins.
    pub open spec fn text_top(self, inner: Rect, md5: Seq<char>) -> u16 {
        if self.protocol == Protocol::Nothing {
            inner.y
        } else {
            screen::sum(self.cover_place(inner, md5).bottom_edge() as int, 1)
        }
    }
}

pub open spec fn at_least_one(n: int) -> int {
    if n < 1 {
        1
    } else {
        n
    }
}

/// Where a cover would go when the book has none: a quiet empty jacket.
pub open spec fn placeholder_drawn(area: Rect) -> Seq<WidgetView> {
    let frame = seq![screen::border_view(area, theme::FAINT)];
    if area.height >= 3 {
        frame.push(
            WidgetView::Text {
                area: Rect {
                    x: area.x,
                    y: screen::sum(area.y as int, area.height as int / 2),
                    width: area.width,
                    height: 1,
                },
                lines: seq![seq![plain_span("no cover"@)]],
                look: theme::coloured(theme::FAINT),
                align: Align::Center,
                wrap: false,
            },
        )
    } else {
        frame
    }
}

/// Where a cover would go when the book has none: a quiet empty jacket, so the
/// panel keeps its shape instead of jumping when a picture does arrive.
pub fn render_cover_placeholder(area: Rect) -> (r: Vec<Widget>)
    ensures
        screen::widget_views(r@) == placeholder_drawn(area),
{
    let mut out: Vec<Widget> = Vec::new();
    out.push(border(area, theme::FAINT));
    if area.height >= 3 {
        out.push(
            Widget::Text {
                area: Rect {
                    x: area.x,
                    y: area.y.saturating_add(area.height / 2),
                    width: area.width,
                    height: 1,
                },
                lines: one(line(plain("no cover"))),
                look: theme::faint(),
                align: Align::Center,
                wrap: false,
            },
        );
    }
    assert(screen::widget_views(out@) =~= placeholder_drawn(area));
    out
}

impl App {
    /// Draw the cover, or reserve the space it is about to occupy.
    pub fn render_cover(&self, area: Rect) -> (r: Screen)
        requires
            self.wf(),
        ensures
            r@ == self@.cover_drawn(area),
    {
        let mut widgets: Vec<Widget> = Vec::new();
        if area.width == 0 || area.height == 0 {
            assert(screen::widget_views(widgets@) =~= self@.cover_drawn(area).widgets);
            return Screen { widgets, cover: None };
        }
        match self.focused_slot() {
            Some(Slot::Looking) => {
                widgets.push(
                    Widget::Text {
                        area,
                        lines: one(line(plain("…"))),
                        look: theme::faint(),
                        align: Align::Center,
                        wrap: false,
                    },
                );
            },
            Some(Slot::Ready(art)) => {
                if !self.protocol.is_pixels() {
                    match &art.pixels {
                        Some(image) => {
                            let lines = blocks(image, area.width, area.height);
                            widgets.push(screen::text(area, lines, Align::Left, false));
                        },
                        None => {},
                    }
                }
            },
            _ => {},
        }
        assert(screen::widget_views(widgets@) =~= self@.cover_drawn(area).widgets);
        Screen { widgets, cover: Some(area) }
    }

    fn jacket_shape(&self, md5: &str) -> (r: (u128, u128))
        requires
            self.wf(),
        ensures
            (r.0 as int, r.1 as int) == self@.jacket(md5@),
            1 <= r.0 <= u64::MAX,
            1 <= r.1 <= u64::MAX,
    {
        match self.slot_of(md5) {
            Some(Slot::Ready(art)) => match &art.pixels {
                Some(p) => {
                    let w: u128 = if p.width < 1 {
                        1
                    } else {
                        p.width as u128
                    };
                    let h: u128 = if p.height < 1 {
                        1
                    } else {
                        p.height as u128
                    };
                    (w, h)
                },
                None => (2, 3),
            },
            _ => (2, 3),
        }
    }

    fn cover_spot(&self, inner: Rect, md5: &str) -> (r: Rect)
        requires
            self.wf(),
        ensures
            r == self@.cover_place(inner, md5@),
    {
        let (w, h) = self.jacket_shape(md5);
        let spare: u16 = inner.height.saturating_sub(11);
        let most_rows: u16 = if spare < 6 {
            6
        } else if spare > 21 {
            21
        } else {
            spare
        };
        let most_columns: u16 = inner.width.saturating_sub(2);
        assert(most_rows * 2 * w <= 42 * u64::MAX) by (nonlinear_arith)
            requires
                0 <= most_rows <= 21,
                0 <= w <= u64::MAX,
        ;
        let across: u128 = most_rows as u128 * 2 * w / h;
        let width: u16 = min16(most_columns, (across % 65536) as u16);
        assert(width * h <= 65535 * u64::MAX) by (nonlinear_arith)
            requires
                0 <= width <= 65535,
                0 <= h <= u64::MAX,
        ;
        let down: u128 = (width as u128 * h + 2 * w - 1) / (2 * w);
        let height: u16 = min16((down % 65536) as u16, most_rows);
        Rect {
            x: inner.x.saturating_add((inner.width - width) / 2),
            y: inner.y,
            width,
            height,
        }
    }

    /// Place the cover for `md5` across the top of `inner`, and return the row
    /// where the text beneath it should begin.
    pub fn place_cover(&self, inner: Rect, md5: &str) -> (r: (Screen, u16))
        requires
            self.wf(),
        ensures
            r.0@ == self@.cover_placed(inner, md5@),
            r.1 == self@.text_top(inner, md5@),
    {
        if self.protocol == Protocol::Nothing {
            let widgets: Vec<Widget> = Vec::new();
            assert(screen::widget_views(widgets@) =~= seq![]);
            return (Screen { widgets, cover: None }, inner.y);
        }
        let place = self.cover_spot(inner, md5);
        let top: u16 = place.bottom().saturating_add(1);
        match self.slot_of(md5) {
            Some(Slot::Ready(_)) => (self.render_cover(place), top),
            Some(Slot::Looking) => (self.render_cover(place), top),
            _ => (Screen { widgets: render_cover_placeholder(place), cover: None }, top),
        }
    }
}

/// A cover lies within the panel it is placed in, and the record under it always
/// keeps its ten lines.
pub proof fn lemma_the_record_keeps_its_ten_lines(a: AppView, inner: Rect, md5: Seq<char>)
    requires
        inner.x + inner.width <= 65535,
        inner.y + inner.height <= 65535,
        inner.height >= 17,
    ensures
        screen::lies_in(a.cover_place(inner, md5), inner),
        a.text_top(inner, md5) + 10 <= inner.y + inner.height,
{
}

// ---------------------------------------------------------------------------
// The details of a result
// ---------------------------------------------------------------------------

/// Whether a record says something.
pub open spec fn told(s: Option<String>) -> bool {
    model::or_empty(s).len() > 0
}

/// Whether a record says how many pages there are.
pub open spec fn pages_told(s: Option<String>) -> bool {
    told(s) && model::or_empty(s) != "0"@
}

fn is_told(s: &Option<String>) -> (r: bool)
    ensures
        r == told(*s),
{
    or_blank(s).unicode_len() > 0
}

fn are_pages_told(s: &Option<String>) -> (r: bool)
    ensures
        r == pages_told(*s),
{
    is_told(s) && !same(or_blank(s), "0")
}

/// What is known of a book, in a line's worth of pieces.
pub open spec fn book_facts(b: Book) -> Seq<Seq<char>> {
    let none = Seq::<Seq<char>>::empty();
    let a = if told(b.publisher) {
        none.push(model::or_empty(b.publisher))
    } else {
        none
    };
    let c = if told(b.year) {
        a.push(model::or_empty(b.year))
    } else {
        a
    };
    let d = if told(b.language) {
        c.push(model::or_empty(b.language))
    } else {
        c
    };
    let e = if pages_told(b.pages) {
        d.push(model::or_empty(b.pages) + " pages"@)
    } else {
        d
    };
    e.push(b.size_text())
}

fn facts_of(b: &Book) -> (r: Vec<String>)
    ensures
        text::texts(r@) == book_facts(*b),
{
    broadcast use text::lemma_texts_push;

    let mut facts: Vec<String> = Vec::new();
    assert(text::texts(facts@) =~= Seq::<Seq<char>>::empty());
    if is_told(&b.publisher) {
        facts.push(or_blank(&b.publisher).to_owned());
    }
    if is_told(&b.year) {
        facts.push(or_blank(&b.year).to_owned());
    }
    if is_told(&b.language) {
        facts.push(or_blank(&b.language).to_owned());
    }
    if are_pages_told(&b.pages) {
        facts.push(concat(or_blank(&b.pages), " pages"));
    }
    facts.push(b.size_human());
    facts
}

pub open spec fn danger_span(s: Seq<char>) -> SpanView {
    screen::styled(s, theme::coloured(theme::DANGER))
}

fn danger(s: &str) -> (r: Span)
    ensures
        r@ == danger_span(s@),
{
    span(s, theme::ink(theme::DANGER))
}

pub open spec fn accent_span(s: Seq<char>) -> SpanView {
    screen::styled(s, theme::coloured(theme::ACCENT))
}

fn accent(s: &str) -> (r: Span)
    ensures
        r@ == accent_span(s@),
{
    span(s, theme::accent())
}

pub open spec fn success_span(s: Seq<char>) -> SpanView {
    screen::styled(s, theme::coloured(theme::SUCCESS))
}

fn success(s: &str) -> (r: Span)
    ensures
        r@ == success_span(s@),
{
    span(s, theme::ink(theme::SUCCESS))
}

pub open spec fn bold_span(s: Seq<char>) -> SpanView {
    screen::styled(s, theme::bold_coloured(theme::TEXT))
}

fn bold(s: &str) -> (r: Span)
    ensures
        r@ == bold_span(s@),
{
    span(s, theme::bold_ink(theme::TEXT))
}

impl AppView {
    /// The most urgent thing about a result: an error, else how its download
    /// stands, with `proof` said of a saved file and a bar of `width` cells.
    pub open spec fn urgent(self, md5: Seq<char>, proof_text: Seq<char>, width: nat) -> LineView {
        match self.error {
            Some(e) => seq![danger_span(e)],
            None => match self.job(md5) {
                Some(JobView::Saved(name)) => seq![
                    success_span("✓ saved as "@ + name + proof_text),
                ],
                Some(JobView::Failed(e)) => seq![danger_span("✗ "@ + e)],
                Some(JobView::Running { done, total }) => seq![
                    accent_span(bar_text(done as nat, total, width)),
                ],
                Some(JobView::Queued) => seq![faint_span("queued"@)],
                None => seq![
                    accent_span("⏎ download → "@),
                    faint_span(self.settings.dest_dir@),
                ],
            },
        }
    }

    /// The record of a result, as a strip has it.
    pub open spec fn detail_lines(self, b: Book) -> Seq<LineView> {
        let head = seq![seq![bold_span(b.title@)], seq![muted_span(b.authors_text())]];
        let facts = text::joined(book_facts(b), "  ·  "@);
        let known = if text::trimmed(facts).len() > 0 {
            head.push(seq![muted_span(facts)])
        } else {
            head
        };
        known.push(seq![faint_span("md5 "@), faint_span(b.md5@)]).push(seq![]).push(
            self.urgent(b.md5@, " — MD5 verified"@, 28),
        )
    }

    /// What is said where nothing is highlighted: an error, else `rest`.
    pub open spec fn hint_view(self, area: Rect, rest: Seq<char>, align: Align) -> WidgetView {
        WidgetView::Text {
            area,
            lines: seq![
                seq![
                    plain_span(
                        match self.error {
                            Some(e) => e,
                            None => rest,
                        },
                    ),
                ],
            ],
            look: theme::coloured(
                if self.error is Some {
                    theme::DANGER
                } else {
                    theme::FAINT
                },
            ),
            align,
            wrap: true,
        }
    }

    /// The cover at the left of a strip, where there is one coming and room for
    /// it: roughly two by three.
    pub open spec fn strip_cover(self, whole: Rect) -> ScreenView {
        if self.shows_cover() && whole.width > 30 {
            self.cover_drawn(Rect { width: strip_cover_width(whole), ..whole })
        } else {
            ScreenView { widgets: seq![], cover: None }
        }
    }

    /// What the cover leaves of a strip.
    pub open spec fn strip_text(self, whole: Rect) -> Rect {
        if self.shows_cover() && whole.width > 30 {
            let taken = strip_cover_width(whole) + 2;
            Rect {
                x: screen::sum(whole.x as int, taken),
                width: screen::difference(whole.width as int, taken),
                ..whole
            }
        } else {
            whole
        }
    }

    /// The strip under the results.
    pub open spec fn details_drawn(self, area: Rect) -> ScreenView {
        let whole = screen::inside(area);
        let cover = self.strip_cover(whole);
        let inner = self.strip_text(whole);
        ScreenView {
            widgets: seq![screen::border_view(area, theme::FAINT)] + cover.widgets + seq![
                match self.book() {
                    Some(b) => screen::text_view(inner, self.detail_lines(b), Align::Left, true),
                    None => self.hint_view(inner, "no selection"@, Align::Left),
                },
            ],
            cover: cover.cover,
        }
    }
}

/// The width of the cover in a strip.
pub open spec fn strip_cover_width(whole: Rect) -> u16 {
    term::held((whole.height * 2 * 2 / 3) % 65536, 6, 16) as u16
}

fn strip_cover_columns(whole: Rect) -> (r: u16)
    ensures
        r == strip_cover_width(whole),
        6 <= r <= 16,
{
    let n: u32 = (whole.height as u32 * 2 * 2 / 3) % 65536;
    if n < 6 {
        6
    } else if n > 16 {
        16
    } else {
        n as u16
    }
}

impl App {
    fn urgent_line(&self, md5: &str, proof_text: &str, width: usize) -> (r: Line)
        requires
            self.wf(),
        ensures
            r@ == self@.urgent(md5@, proof_text@, width as nat),
    {
        match &self.error {
            Some(e) => line(danger(e)),
            None => match self.job_of(md5) {
                Some(Job::Saved(name)) => {
                    let mut said = "✓ saved as ".to_owned();
                    said.append(name);
                    said.append(proof_text);
                    line(success(&said))
                },
                Some(Job::Failed(e)) => line(danger(&concat("✗ ", e))),
                Some(Job::Running { done, total }) => line(
                    accent(&progress_bar(*done, *total, width)),
                ),
                Some(Job::Queued) => line(faint("queued")),
                None => line2(accent("⏎ download → "), faint(&self.settings.dest_dir)),
            },
        }
    }

    fn details_of(&self, b: &Book) -> (r: Vec<Line>)
        requires
            self.wf(),
        ensures
            screen::line_views(r@) == self@.detail_lines(*b),
    {
        let mut lines: Vec<Line> = Vec::new();
        lines.push(line(bold(&b.title)));
        lines.push(line(muted(b.authors_or_unknown())));
        assert(screen::line_views(lines@) =~= seq![
            seq![bold_span(b.title@)],
            seq![muted_span(b.authors_text())],
        ]);
        let facts = join(&facts_of(b), "  ·  ");
        if trim(&facts).as_str().unicode_len() > 0 {
            lines.push(line(muted(&facts)));
        }
        lines.push(line2(faint("md5 "), faint(&b.md5)));
        lines.push(blank_line());
        lines.push(self.urgent_line(&b.md5, " — MD5 verified", 28));
        lines
    }

    fn hint(&self, area: Rect, rest: &str, align: Align) -> (r: Widget)
        ensures
            r@ == self@.hint_view(area, rest@, align),
    {
        let (said, colour) = match &self.error {
            Some(e) => (e.as_str(), theme::DANGER),
            None => (rest, theme::FAINT),
        };
        Widget::Text {
            area,
            lines: one(line(plain(said))),
            look: theme::ink(colour),
            align,
            wrap: true,
        }
    }

    /// The cover at the left of a strip, and what it leaves.
    fn split_strip(&self, whole: Rect) -> (r: (Screen, Rect))
        requires
            self.wf(),
        ensures
            r.0@ == self@.strip_cover(whole),
            r.1 == self@.strip_text(whole),
    {
        if self.cover_visible() && whole.width > 30 {
            let width: u16 = strip_cover_columns(whole);
            let Rect { x, y, width: all, height } = whole;
            let picture = Rect { x, y, width, height };
            let left = Rect {
                x: x.saturating_add(width + 2),
                y,
                width: all.saturating_sub(width + 2),
                height,
            };
            (self.render_cover(picture), left)
        } else {
            let widgets: Vec<Widget> = Vec::new();
            assert(screen::widget_views(widgets@) =~= seq![]);
            (Screen { widgets, cover: None }, whole)
        }
    }

    /// The record that is highlighted, in a strip under the results.
    pub fn render_details(&self, area: Rect) -> (r: Screen)
        requires
            self.wf(),
        ensures
            r@ == self@.details_drawn(area),
    {
        let whole = inner(area);
        let mut out: Vec<Widget> = Vec::new();
        out.push(border(area, theme::FAINT));
        assert(screen::widget_views(out@) =~= seq![screen::border_view(area, theme::FAINT)]);
        let (mut picture, left) = self.split_strip(whole);
        out.append(&mut picture.widgets);
        let last = match self.selected() {
            Some(b) => screen::text(left, self.details_of(b), Align::Left, true),
            None => self.hint(left, "no selection", Align::Left),
        };
        out.push(last);
        assert(screen::widget_views(out@) =~= self@.details_drawn(area).widgets);
        Screen { widgets: out, cover: picture.cover }
    }
}

// ---------------------------------------------------------------------------
// The panel beside the results
// ---------------------------------------------------------------------------

/// A labelled row of a record.
pub open spec fn fact_line(label: Seq<char>, width: int, value: SpanView) -> LineView {
    seq![faint_span(term::left_aligned(label, width)), value]
}

fn fact(label: &str, width: usize, value: Span) -> (r: Line)
    ensures
        r@ == fact_line(label@, width as int, value@),
{
    line2(owned_span(align_left(label, width), theme::faint()), value)
}

/// The room for text under the cover of a panel.
pub open spec fn panel_body(inner: Rect, top: u16) -> Rect {
    Rect {
        x: screen::sum(inner.x as int, 1),
        y: top,
        width: screen::difference(inner.width as int, 2),
        height: screen::difference(inner.bottom_edge() as int, top as int),
    }
}

fn body_of(inner: Rect, top: u16) -> (r: Rect)
    ensures
        r == panel_body(inner, top),
{
    Rect {
        x: inner.x.saturating_add(1),
        y: top,
        width: inner.width.saturating_sub(2),
        height: inner.bottom().saturating_sub(top),
    }
}

/// What is known of a book, a row to each piece.
pub open spec fn fact_lines(b: Book) -> Seq<LineView> {
    let none = Seq::<LineView>::empty();
    let a = if told(b.publisher) {
        none.push(fact_line("publisher"@, 10, muted_span(model::or_empty(b.publisher))))
    } else {
        none
    };
    let c = if told(b.year) {
        a.push(fact_line("year"@, 10, muted_span(model::or_empty(b.year))))
    } else {
        a
    };
    let d = if told(b.language) {
        c.push(
            fact_line(
                "language"@,
                10,
                screen::styled(model::or_empty(b.language), theme::coloured(theme::LANG)),
            ),
        )
    } else {
        c
    };
    let e = if pages_told(b.pages) {
        d.push(fact_line("pages"@, 10, muted_span(model::or_empty(b.pages))))
    } else {
        d
    };
    let f = if b.size_text().len() > 0 {
        e.push(fact_line("size"@, 10, muted_span(b.size_text())))
    } else {
        e
    };
    f.push(fact_line("format"@, 10, format_span(b.ext_text())))
}

fn fact_rows(b: &Book) -> (r: Vec<Line>)
    ensures
        screen::line_views(r@) == fact_lines(*b),
{
    let mut lines: Vec<Line> = Vec::new();
    assert(screen::line_views(lines@) =~= Seq::<LineView>::empty());
    if is_told(&b.publisher) {
        lines.push(fact("publisher", 10, muted(or_blank(&b.publisher))));
    }
    if is_told(&b.year) {
        lines.push(fact("year", 10, muted(or_blank(&b.year))));
    }
    if is_told(&b.language) {
        lines.push(fact("language", 10, span(or_blank(&b.language), theme::ink(theme::LANG))));
    }
    if are_pages_told(&b.pages) {
        lines.push(fact("pages", 10, muted(or_blank(&b.pages))));
    }
    let size = b.size_human();
    if size.as_str().unicode_len() > 0 {
        lines.push(fact("size", 10, muted(&size)));
    }
    lines.push(fact("format", 10, format_piece(b.ext())));
    lines
}

impl AppView {
    /// The record of a result, as a panel has it.
    pub open spec fn panel_lines(self, b: Book, width: u16) -> Seq<LineView> {
        let head = seq![seq![bold_span(b.title@)], seq![muted_span(b.authors_text())], seq![]];
        (head + fact_lines(b)).push(seq![]).push(seq![faint_span(b.md5@)]).push(seq![]).push(
            self.urgent(b.md5@, seq![], screen::difference(width as int, 16) as nat),
        )
    }

    /// The panel beside the results: the cover at something like poster size,
    /// then the record beneath it as labelled rows. A panel too small for that
    /// stays empty.
    pub open spec fn side_drawn(self, area: Rect) -> ScreenView {
        let frame = seq![screen::border_view(area, theme::FAINT)];
        let inner = screen::inside(area);
        if inner.width < 10 || inner.height < 6 {
            ScreenView { widgets: frame, cover: None }
        } else {
            match self.book() {
                None => ScreenView {
                    widgets: frame.push(
                        self.hint_view(
                            screen::within(inner, 1, inner.height / 2),
                            "no selection"@,
                            Align::Center,
                        ),
                    ),
                    cover: None,
                },
                Some(b) => {
                    let cover = self.cover_placed(inner, b.md5@);
                    let body = panel_body(inner, self.text_top(inner, b.md5@));
                    let drawn = frame + cover.widgets;
                    ScreenView {
                        widgets: if body.height == 0 {
                            drawn
                        } else {
                            drawn.push(
                                screen::text_view(
                                    body,
                                    self.panel_lines(b, body.width),
                                    Align::Left,
                                    true,
                                ),
                            )
                        },
                        cover: cover.cover,
                    }
                },
            }
        }
    }
}

/// One list of lines after another.
proof fn lemma_lines_concat(a: Seq<Line>, b: Seq<Line>)
    ensures
        screen::line_views(a + b) == screen::line_views(a) + screen::line_views(b),
{
    assert(screen::line_views(a + b) =~= screen::line_views(a) + screen::line_views(b));
}

impl App {
    fn panel_of(&self, b: &Book, width: u16) -> (r: Vec<Line>)
        requires
            self.wf(),
        ensures
            screen::line_views(r@) == self@.panel_lines(*b, width),
    {
        let mut lines: Vec<Line> = Vec::new();
        lines.push(line(bold(&b.title)));
        lines.push(line(muted(b.authors_or_unknown())));
        lines.push(blank_line());
        assert(screen::line_views(lines@) =~= seq![
            seq![bold_span(b.title@)],
            seq![muted_span(b.authors_text())],
            seq![],
        ]);
        let mut rows = fact_rows(b);
        proof {
            lemma_lines_concat(lines@, rows@);
        }
        lines.append(&mut rows);
        lines.push(blank_line());
        lines.push(line(faint(&b.md5)));
        lines.push(blank_line());
        proof {
            reveal_strlit("");
            assert(""@ =~= seq![]);
        }
        lines.push(self.urgent_line(&b.md5, "", width.saturating_sub(16) as usize));
        lines
    }

    /// The tall right-hand panel of the wide layout: a jacket flap rather than a
    /// footnote.
    pub fn render_side_details(&self, area: Rect) -> (r: Screen)
        requires
            self.wf(),
        ensures
            r@ == self@.side_drawn(area),
    {
        let mut out: Vec<Widget> = Vec::new();
        out.push(border(area, theme::FAINT));
        assert(screen::widget_views(out@) =~= seq![screen::border_view(area, theme::FAINT)]);
        let inner = inner(area);
        if inner.width < 10 || inner.height < 6 {
            return Screen { widgets: out, cover: None };
        }
        match self.selected() {
            None => {
                out.push(
                    self.hint(margins(inner, 1, inner.height / 2), "no selection", Align::Center),
                );
                Screen { widgets: out, cover: None }
            },
            Some(b) => {
                let (mut picture, top) = self.place_cover(inner, &b.md5);
                out.append(&mut picture.widgets);
                let body = body_of(inner, top);
                if body.height > 0 {
                    let lines = self.panel_of(b, body.width);
                    out.push(screen::text(body, lines, Align::Left, true));
                }
                Screen { widgets: out, cover: picture.cover }
            },
        }
    }
}

// ---------------------------------------------------------------------------
// The library
// ---------------------------------------------------------------------------

/// The header of the library.
pub open spec fn library_header() -> Seq<&'static str> {
    seq!["", "TITLE", "AUTHOR", "ADDED", "SIZE", "FMT"]
}

/// The columns of the library.
pub open spec fn library_widths() -> Seq<Width> {
    seq![
        Width::Cells(1),
        Width::Share(5),
        Width::Share(2),
        Width::Cells(12),
        Width::Cells(9),
        Width::Cells(6),
    ]
}

fn library_titles() -> (r: Vec<&'static str>)
    ensures
        r@ == library_header(),
{
    vec!["", "TITLE", "AUTHOR", "ADDED", "SIZE", "FMT"]
}

fn library_columns() -> (r: Vec<Width>)
    ensures
        r@ == library_widths(),
{
    vec![
        Width::Cells(1),
        Width::Share(5),
        Width::Share(2),
        Width::Cells(12),
        Width::Cells(9),
        Width::Cells(6),
    ]
}

/// The row of a past download. A present book leads with a small dot; a missing
/// one with a warning, and everything about its row reads as unavailable.
pub open spec fn entry_row(e: Entry, row: int, here: bool, present: bool, now: u64) -> RowView {
    RowView {
        cells: seq![
            if present {
                success_span("•"@)
            } else {
                danger_span("!"@)
            },
            if present {
                screen::styled(e.title@, title_look(here))
            } else {
                faint_span(e.title@ + " (missing)"@)
            },
            muted_span(e.first_author_text()),
            muted_span(history::when_text(e.at as nat, now as nat)),
            faint_span(model::bytes_text(e.size as nat)),
            screen::styled(
                spaced(e.ext_text()),
                if present {
                    chip_in_row(e.ext_text(), here)
                } else {
                    theme::coloured(theme::FAINT)
                },
            ),
        ],
        bg: zebra(row),
    }
}

fn entry_line(e: &Entry, row: usize, here: bool, present: bool, now: u64) -> (r: Row)
    ensures
        r@ == entry_row(*e, row as int, here, present, now),
{
    let mut cells: Vec<Span> = Vec::new();
    if present {
        cells.push(success("•"));
        cells.push(span(&e.title, title_style(here)));
    } else {
        cells.push(danger("!"));
        cells.push(faint(&concat(&e.title, " (missing)")));
    }
    cells.push(muted(&e.first_author()));
    cells.push(muted(&history::when(e.at, now)));
    cells.push(faint(&human_bytes(e.size)));
    let look = if present {
        row_chip(e.ext(), here)
    } else {
        theme::faint()
    };
    cells.push(owned_span(space(e.ext()), look));
    let r = Row { cells, bg: stripe(row) };
    assert(r@.cells =~= entry_row(*e, row as int, here, present, now).cells);
    r
}

impl AppView {
    /// The first `n` rows of the library.
    pub open spec fn library_rows(self, n: nat, disk: Disk, now: u64) -> Seq<RowView>
        decreases n,
    {
        if n == 0 {
            seq![]
        } else {
            let rows = self.library_rows((n - 1) as nat, disk, now);
            let i = self.shown[n - 1];
            if i < self.library.len() {
                let e = self.library[i as int];
                rows.push(
                    entry_row(
                        e,
                        n - 1,
                        self.library_row == Some((n - 1) as usize),
                        disk.holds(e.path@),
                        now,
                    ),
                )
            } else {
                rows
            }
        }
    }

    /// Every book downloaded so far, filtered by whatever is in the box.
    pub open spec fn library_drawn(self, area: Rect, disk: Disk, now: u64) -> Seq<WidgetView> {
        if self.shown.len() == 0 {
            self.empty_library_drawn(area)
        } else {
            seq![
                WidgetView::Table {
                    area,
                    header: library_header(),
                    widths: library_widths(),
                    rows: self.library_rows(self.shown.len(), disk, now),
                    selected: self.library_row,
                },
            ]
        }
    }

    /// What is said of an empty library; and of one that a filter leaves nothing
    /// of, which is a different problem and deserves different words.
    pub open spec fn empty_library_lines(self) -> Seq<LineView> {
        if self.library.len() == 0 {
            seq![
                seq![bold_span("Your library is empty"@)],
                seq![],
                seq![muted_span("Books you download land here and stay between sessions."@)],
                seq![
                    faint_span("Press "@),
                    accent_span("Tab"@),
                    faint_span(" to go and find one."@),
                ],
            ]
        } else {
            seq![
                seq![muted_span("No book matches “"@ + text::trimmed(self.filter) + "”"@)],
                seq![],
                seq![accent_span("^u"@), faint_span(" clears the filter"@)],
            ]
        }
    }

    pub open spec fn empty_library_drawn(self, area: Rect) -> Seq<WidgetView> {
        seq![centred_view(area, self.empty_library_lines())]
    }
}

impl App {
    /// Every book downloaded so far, filtered by whatever is in the box.
    pub fn render_library(&self, area: Rect, disk: &Disk, now: u64) -> (r: Vec<Widget>)
        ensures
            screen::widget_views(r@) == self@.library_drawn(area, *disk, now),
    {
        if self.shown.len() == 0 {
            return self.render_empty_library(area);
        }
        let n: usize = self.shown.len();
        let mut rows: Vec<Row> = Vec::new();
        let mut row: usize = 0;
        assert(screen::row_views(rows@) =~= self@.library_rows(0, *disk, now));
        while row < n
            invariant
                row <= n,
                n == self.shown@.len(),
                screen::row_views(rows@) == self@.library_rows(row as nat, *disk, now),
            decreases n - row,
        {
            let i: usize = self.shown[row];
            if i < self.library.len() {
                let e = &self.library[i];
                let here = match self.library_table.row {
                    Some(k) => k == row,
                    None => false,
                };
                rows.push(entry_line(e, row, here, e.present(disk), now));
            }
            row += 1;
        }
        let mut out: Vec<Widget> = Vec::new();
        out.push(
            Widget::Table {
                area,
                header: library_titles(),
                widths: library_columns(),
                rows,
                selected: self.library_table.row,
            },
        );
        assert(screen::widget_views(out@) =~= self@.library_drawn(area, *disk, now));
        out
    }

    /// An empty library and an over-narrow filter, both centred so the tab looks
    /// intended rather than broken.
    pub fn render_empty_library(&self, area: Rect) -> (r: Vec<Widget>)
        ensures
            screen::widget_views(r@) == self@.empty_library_drawn(area),
    {
        let mut lines: Vec<Line> = Vec::new();
        if self.library.len() == 0 {
            lines.push(line(bold("Your library is empty")));
            lines.push(blank_line());
            lines.push(line(muted("Books you download land here and stay between sessions.")));
            lines.push(line3(faint("Press "), accent("Tab"), faint(" to go and find one.")));
        } else {
            let mut said = "No book matches “".to_owned();
            said.append(&trim(&self.filter));
            said.append("”");
            lines.push(line(muted(&said)));
            lines.push(blank_line());
            lines.push(line2(accent("^u"), faint(" clears the filter")));
        }
        assert(screen::line_views(lines@) =~= self@.empty_library_lines());
        let mut out: Vec<Widget> = Vec::new();
        out.push(centred(area, lines));
        assert(screen::widget_views(out@) =~= self@.empty_library_drawn(area));
        out
    }
}

// ---------------------------------------------------------------------------
// The details of a past download
// ---------------------------------------------------------------------------

/// Whether a past download's checksum was checked.
pub open spec fn verified_span(e: Entry) -> SpanView {
    if e.verified {
        success_span("✓ MD5 verified"@)
    } else {
        faint_span("unverified"@)
    }
}

fn verified_piece(e: &Entry) -> (r: Span)
    ensures
        r@ == verified_span(*e),
{
    if e.verified {
        success("✓ MD5 verified")
    } else {
        faint("unverified")
    }
}

impl AppView {
    /// The most urgent thing about a past download: an error, else that its file
    /// is gone, else what can be done with it.
    pub open spec fn urgent_entry(
        self,
        present: bool,
        gone: Seq<char>,
        more: Seq<char>,
    ) -> LineView {
        match self.error {
            Some(e) => seq![danger_span(e)],
            None => if !present {
                seq![danger_span(gone)]
            } else {
                seq![accent_span("⏎ open"@), faint_span(more)]
            },
        }
    }

    /// The record of a past download, as a strip has it.
    pub open spec fn entry_lines(self, e: Entry, present: bool) -> Seq<LineView> {
        seq![
            seq![bold_span(e.title@)],
            seq![muted_span(model::or_empty(e.authors))],
            seq![faint_span(e.path@)],
            seq![
                format_span(e.ext_text()),
                muted_span(
                    "  "@ + model::bytes_text(e.size as nat) + "  ·  "@ + history::timestamp_text(
                        e.at as nat,
                    ) + "  ·  "@,
                ),
                verified_span(e),
            ],
            seq![],
            self.urgent_entry(
                present,
                "⚠ the file is no longer there — press d to forget it"@,
                "   f reveal in file manager"@,
            ),
        ]
    }

    /// The strip under the library: where the highlighted book went, and whether
    /// it is still there.
    pub open spec fn library_details_drawn(self, area: Rect, disk: Disk) -> ScreenView {
        let whole = screen::inside(area);
        let cover = self.strip_cover(whole);
        let inner = self.strip_text(whole);
        ScreenView {
            widgets: seq![screen::border_view(area, theme::FAINT)] + cover.widgets + seq![
                match self.entry() {
                    Some(e) => screen::text_view(
                        inner,
                        self.entry_lines(e, disk.holds(e.path@)),
                        Align::Left,
                        true,
                    ),
                    None => self.hint_view(
                        inner,
                        "⏎ opens a book in your reader"@,
                        Align::Left,
                    ),
                },
            ],
            cover: cover.cover,
        }
    }

    /// The record of a past download, as a panel has it.
    pub open spec fn entry_panel_lines(self, e: Entry, present: bool) -> Seq<LineView> {
        seq![
            seq![bold_span(e.title@)],
            seq![muted_span(model::or_empty(e.authors))],
            seq![],
            fact_line("format"@, 9, format_span(e.ext_text())),
            fact_line("size"@, 9, muted_span(model::bytes_text(e.size as nat))),
            fact_line("added"@, 9, muted_span(history::timestamp_text(e.at as nat))),
            fact_line("checksum"@, 9, verified_span(e)),
            seq![],
            seq![faint_span("saved to"@)],
            seq![faint_span(e.path@)],
            seq![],
            self.urgent_entry(
                present,
                "⚠ the file is no longer there — d to forget it"@,
                "    f reveal"@,
            ),
        ]
    }

    /// The panel beside the library: the book's own cover near poster size, then
    /// where the file is and what is known about it.
    pub open spec fn library_side_drawn(self, area: Rect, disk: Disk) -> ScreenView {
        let frame = seq![screen::border_view(area, theme::FAINT)];
        let inner = screen::inside(area);
        match self.entry() {
            Some(e) => if inner.width < 10 || inner.height < 6 {
                ScreenView { widgets: frame, cover: None }
            } else {
                let cover = self.cover_placed(inner, e.md5@);
                let body = panel_body(inner, self.text_top(inner, e.md5@));
                let drawn = frame + cover.widgets;
                ScreenView {
                    widgets: if body.height == 0 {
                        drawn
                    } else {
                        drawn.push(
                            screen::text_view(
                                body,
                                self.entry_panel_lines(e, disk.holds(e.path@)),
                                Align::Left,
                                true,
                            ),
                        )
                    },
                    cover: cover.cover,
                }
            },
            None => ScreenView { widgets: frame, cover: None },
        }
    }
}

impl App {
    fn urgent_entry_line(&self, present: bool, gone: &str, more: &str) -> (r: Line)
        ensures
            r@ == self@.urgent_entry(present, gone@, more@),
    {
        match &self.error {
            Some(e) => line(danger(e)),
            None => {
                if !present {
                    line(danger(gone))
                } else {
                    line2(accent("⏎ open"), faint(more))
                }
            },
        }
    }

    fn entry_details(&self, e: &Entry, present: bool) -> (r: Vec<Line>)
        ensures
            screen::line_views(r@) == self@.entry_lines(*e, present),
    {
        let mut about = "  ".to_owned();
        about.append(&human_bytes(e.size));
        about.append("  ·  ");
        about.append(&timestamp(e.at));
        about.append("  ·  ");
        let mut lines: Vec<Line> = Vec::new();
        lines.push(line(bold(&e.title)));
        lines.push(line(muted(or_blank(&e.authors))));
        lines.push(line(faint(&e.path)));
        lines.push(line3(format_piece(e.ext()), muted(&about), verified_piece(e)));
        lines.push(blank_line());
        lines.push(
            self.urgent_entry_line(
                present,
                "⚠ the file is no longer there — press d to forget it",
                "   f reveal in file manager",
            ),
        );
        assert(screen::line_views(lines@) =~= self@.entry_lines(*e, present));
        lines
    }

    /// Where the highlighted book went, and whether it is still there.
    ///
    /// There is a cover column on the left when the book has one to show,
    /// exactly as the search detail strip does: the library reads its cover out
    /// of the file rather than off a mirror, but the layout is the same.
    pub fn render_library_details(&self, area: Rect, disk: &Disk) -> (r: Screen)
        requires
            self.wf(),
        ensures
            r@ == self@.library_details_drawn(area, *disk),
    {
        let whole = inner(area);
        let mut out: Vec<Widget> = Vec::new();
        out.push(border(area, theme::FAINT));
        assert(screen::widget_views(out@) =~= seq![screen::border_view(area, theme::FAINT)]);
        let (mut picture, left) = self.split_strip(whole);
        out.append(&mut picture.widgets);
        let last = match self.selected_entry() {
            Some(e) => screen::text(
                left,
                self.entry_details(e, e.present(disk)),
                Align::Left,
                true,
            ),
            None => self.hint(left, "⏎ opens a book in your reader", Align::Left),
        };
        out.push(last);
        assert(screen::widget_views(out@) =~= self@.library_details_drawn(area, *disk).widgets);
        Screen { widgets: out, cover: picture.cover }
    }

    fn entry_panel(&self, e: &Entry, present: bool) -> (r: Vec<Line>)
        ensures
            screen::line_views(r@) == self@.entry_panel_lines(*e, present),
    {
        let mut lines: Vec<Line> = Vec::new();
        lines.push(line(bold(&e.title)));
        lines.push(line(muted(or_blank(&e.authors))));
        lines.push(blank_line());
        lines.push(fact("format", 9, format_piece(e.ext())));
        lines.push(fact("size", 9, muted(&human_bytes(e.size))));
        lines.push(fact("added", 9, muted(&timestamp(e.at))));
        lines.push(fact("checksum", 9, verified_piece(e)));
        lines.push(blank_line());
        lines.push(line(faint("saved to")));
        lines.push(line(faint(&e.path)));
        lines.push(blank_line());
        lines.push(
            self.urgent_entry_line(
                present,
                "⚠ the file is no longer there — d to forget it",
                "    f reveal",
            ),
        );
        assert(screen::line_views(lines@) =~= self@.entry_panel_lines(*e, present));
        lines
    }

    /// The wide library panel: the same jacket-flap layout the search tab uses,
    /// sourced from the file instead of a mirror.
    pub fn render_library_side_details(&self, area: Rect, disk: &Disk) -> (r: Screen)
        requires
            self.wf(),
        ensures
            r@ == self@.library_side_drawn(area, *disk),
    {
        let mut out: Vec<Widget> = Vec::new();
        out.push(border(area, theme::FAINT));
        assert(screen::widget_views(out@) =~= seq![screen::border_view(area, theme::FAINT)]);
        let inner = inner(area);
        if inner.width < 10 || inner.height < 6 {
            return Screen { widgets: out, cover: None };
        }
        match self.selected_entry() {
            None => Screen { widgets: out, cover: None },
            Some(e) => {
                let (mut picture, top) = self.place_cover(inner, &e.md5);
                out.append(&mut picture.widgets);
                let body = body_of(inner, top);
                if body.height > 0 {
                    let lines = self.entry_panel(e, e.present(disk));
                    out.push(screen::text(body, lines, Align::Left, true));
                }
                Screen { widgets: out, cover: picture.cover }
            },
        }
    }
}

// ---------------------------------------------------------------------------
// The hints
// ---------------------------------------------------------------------------

/// The keys worth knowing, each with what it does. `tab` leads every line: it is
/// the one key that gets you out of wherever you are.
pub open spec fn hints_of(mode: Mode, tab: Tab) -> Seq<(&'static str, &'static str)> {
    match mode {
        Mode::Help => seq![("", "any key to close")],
        Mode::Sorting => seq![
            ("↑↓", "choose"),
            ("⏎", "sort"),
            ("←→", "direction"),
            ("esc", "close"),
        ],
        Mode::Editing => match tab {
            Tab::Search => seq![
                ("tab", "library"),
                ("⏎", "search"),
                ("esc", "done"),
                ("^u", "clear"),
                ("", "try author: title: ext:"),
            ],
            Tab::Library => seq![
                ("tab", "search"),
                ("esc", "done"),
                ("^u", "clear"),
                ("", "filtering as you type"),
            ],
        },
        Mode::Browsing => match tab {
            Tab::Search => seq![
                ("tab", "library"),
                ("↑↓", "move"),
                ("space", "mark"),
                ("⏎", "download"),
                ("e", "format"),
                ("l", "language"),
                ("/", "search"),
                ("?", "help"),
                ("q", "quit"),
            ],
            Tab::Library => seq![
                ("tab", "search"),
                ("↑↓", "move"),
                ("⏎", "open"),
                ("f", "reveal"),
                ("/", "filter"),
                ("d", "forget"),
                ("?", "help"),
                ("q", "quit"),
            ],
        },
    }
}

fn hints(mode: Mode, tab: Tab) -> (r: Vec<(&'static str, &'static str)>)
    ensures
        r@ == hints_of(mode, tab),
{
    match mode {
        Mode::Help => vec![("", "any key to close")],
        Mode::Sorting => vec![
            ("↑↓", "choose"),
            ("⏎", "sort"),
            ("←→", "direction"),
            ("esc", "close"),
        ],
        Mode::Editing => match tab {
            Tab::Search => vec![
                ("tab", "library"),
                ("⏎", "search"),
                ("esc", "done"),
                ("^u", "clear"),
                ("", "try author: title: ext:"),
            ],
            Tab::Library => vec![
                ("tab", "search"),
                ("esc", "done"),
                ("^u", "clear"),
                ("", "filtering as you type"),
            ],
        },
        Mode::Browsing => match tab {
            Tab::Search => vec![
                ("tab", "library"),
                ("↑↓", "move"),
                ("space", "mark"),
                ("⏎", "download"),
                ("e", "format"),
                ("l", "language"),
                ("/", "search"),
                ("?", "help"),
                ("q", "quit"),
            ],
            Tab::Library => vec![
                ("tab", "search"),
                ("↑↓", "move"),
                ("⏎", "open"),
                ("f", "reveal"),
                ("/", "filter"),
                ("d", "forget"),
                ("?", "help"),
                ("q", "quit"),
            ],
        },
    }
}

/// The first `n` hints on a line. The key rides in the accent, the label sits
/// faint beside it, so the bar reads as a legend rather than a grey sentence.
pub open spec fn hint_spans(hints: Seq<(&'static str, &'static str)>, n: nat) -> Seq<SpanView>
    decreases n,
{
    if n == 0 {
        seq![plain_span(" "@)]
    } else {
        let (k, label) = hints[n - 1];
        let before = hint_spans(hints, (n - 1) as nat);
        let named = if k@.len() > 0 {
            before.push(key_span(k@)).push(faint_span(" "@ + label@))
        } else {
            before.push(faint_span(label@))
        };
        named.push(faint_span("   "@))
    }
}

impl AppView {
    /// The line of hints.
    pub open spec fn hints_drawn(self, area: Rect) -> Seq<WidgetView> {
        let hints = hints_of(self.mode, self.tab);
        seq![
            screen::text_view(area, seq![hint_spans(hints, hints.len())], Align::Left, false),
        ]
    }
}

impl App {
    /// The keys worth knowing where you are.
    pub fn render_hints(&self, area: Rect) -> (r: Vec<Widget>)
        ensures
            screen::widget_views(r@) == self@.hints_drawn(area),
    {
        let all = hints(self.mode, self.tab);
        let n: usize = all.len();
        let mut spans: Vec<Span> = Vec::new();
        spans.push(plain(" "));
        assert(screen::span_views(spans@) =~= hint_spans(all@, 0));
        let mut i: usize = 0;
        while i < n
            invariant
                i <= n,
                n == all@.len(),
                screen::span_views(spans@) == hint_spans(all@, i as nat),
            decreases n - i,
        {
            let (k, label) = all[i];
            if k.unicode_len() > 0 {
                spans.push(key(k));
                spans.push(faint(&concat(" ", label)));
            } else {
                spans.push(faint(label));
            }
            spans.push(faint("   "));
            i += 1;
        }
        let mut out: Vec<Widget> = Vec::new();
        let hints = Line { spans };
        out.push(screen::text(area, one(hints), Align::Left, false));
        assert(screen::widget_views(out@) =~= self@.hints_drawn(area));
        out
    }
}

// ---------------------------------------------------------------------------
// The help
// ---------------------------------------------------------------------------

/// The keys that work anywhere.
pub open spec fn keys_anywhere() -> Seq<(&'static str, &'static str)> {
    seq![
        ("tab", "switch between Search and Library"),
        ("1  2", "go straight to a tab"),
        ("/  i", "type in the box"),
        ("↑ ↓  k j", "move the selection"),
        ("PgUp PgDn", "move ten at a time"),
        ("g  G", "jump to first / last"),
        ("?", "this help"),
        ("s  S", "choose what to sort by / reverse it"),
        ("q  esc", "quit"),
        ("^c", "quit from anywhere"),
    ]
}

fn anywhere() -> (r: Vec<(&'static str, &'static str)>)
    ensures
        r@ == keys_anywhere(),
{
    vec![
        ("tab", "switch between Search and Library"),
        ("1  2", "go straight to a tab"),
        ("/  i", "type in the box"),
        ("↑ ↓  k j", "move the selection"),
        ("PgUp PgDn", "move ten at a time"),
        ("g  G", "jump to first / last"),
        ("?", "this help"),
        ("s  S", "choose what to sort by / reverse it"),
        ("q  esc", "quit"),
        ("^c", "quit from anywhere"),
    ]
}

/// The keys of the search tab.
pub open spec fn keys_in_search() -> Seq<(&'static str, &'static str)> {
    seq![
        ("⏎", "run the search, or download the selection"),
        ("e  E", "cycle the format filter, e.g. epub only"),
        ("l  L", "cycle the language filter"),
        ("x", "clear both filters"),
        ("space", "mark a result for batch download"),
        ("a  A", "mark or unmark everything showing"),
        ("o  f", "open a downloaded result / reveal it"),
        ("y", "copy the MD5 to the clipboard"),
        ("h", "show what has been downloaded"),
        ("r", "run the search again"),
        ("m", "re-probe mirrors and pick a new one"),
    ]
}

fn in_search() -> (r: Vec<(&'static str, &'static str)>)
    ensures
        r@ == keys_in_search(),
{
    vec![
        ("⏎", "run the search, or download the selection"),
        ("e  E", "cycle the format filter, e.g. epub only"),
        ("l  L", "cycle the language filter"),
        ("x", "clear both filters"),
        ("space", "mark a result for batch download"),
        ("a  A", "mark or unmark everything showing"),
        ("o  f", "open a downloaded result / reveal it"),
        ("y", "copy the MD5 to the clipboard"),
        ("h", "show what has been downloaded"),
        ("r", "run the search again"),
        ("m", "re-probe mirrors and pick a new one"),
    ]
}

/// The keys of the library tab.
pub open spec fn keys_in_library() -> Seq<(&'static str, &'static str)> {
    seq![
        ("⏎  o", "open the book in your reader"),
        ("f", "show the file in the file manager"),
        ("/", "filter by title, author or filename"),
        ("d", "forget an entry (the file stays)"),
        ("y", "copy the MD5 to the clipboard"),
        ("r", "re-read the library from disk"),
    ]
}

fn in_library() -> (r: Vec<(&'static str, &'static str)>)
    ensures
        r@ == keys_in_library(),
{
    vec![
        ("⏎  o", "open the book in your reader"),
        ("f", "show the file in the file manager"),
        ("/", "filter by title, author or filename"),
        ("d", "forget an entry (the file stays)"),
        ("y", "copy the MD5 to the clipboard"),
        ("r", "re-read the library from disk"),
    ]
}

/// The tags that a search takes as well as words.
pub open spec fn search_tags() -> Seq<(&'static str, &'static str)> {
    seq![
        ("author:", "only in the author column"),
        ("title:", "only in the title column"),
        ("series:", "only in the series column"),
        ("publisher:", "only in the publisher column"),
        ("year:", "only in the year column"),
        ("isbn:", "only in the ISBN column"),
        ("ext:", "only this format, e.g. ext:epub"),
        ("lang:", "only this language"),
        ("topic:", "which collection to search"),
    ]
}

/// A section's title.
pub open spec fn section_line(title: Seq<char>) -> LineView {
    seq![screen::styled(title, theme::bold_coloured(theme::AMBER))]
}

/// A key and what it does.
pub open spec fn key_line(k: (&'static str, &'static str)) -> LineView {
    seq![accent_span("  "@ + term::left_aligned(k.0@, 11)), muted_span(k.1@)]
}

/// A section: its title, and its keys.
pub open spec fn section(title: Seq<char>, keys: Seq<(&'static str, &'static str)>) -> Seq<
    LineView,
> {
    seq![section_line(title)] + Seq::new(keys.len(), |i: int| key_line(keys[i]))
}

/// Everything the help says, grouped by tab, because which keys apply depends on
/// where you are. The search box takes tags as well as words, and this is the
/// only place that says so.
pub open spec fn help_lines() -> Seq<LineView> {
    section("ANYWHERE"@, keys_anywhere()) + section("\nSEARCH TAB"@, keys_in_search()) + section(
        "\nLIBRARY TAB"@,
        keys_in_library(),
    ) + section("\nSEARCH TAGS"@, search_tags())
}

/// Where the help goes in a frame.
pub open spec fn help_area(frame: Rect) -> Rect {
    screen::middle(
        frame,
        screen::lesser(60, screen::difference(frame.width as int, 4)),
        screen::lesser(
            (help_lines().len() + 2) as u16,
            screen::difference(frame.height as int, 2),
        ),
    )
}

/// The help, one step off the canvas, so the overlay reads as a raised surface
/// rather than a hole cut in the screen.
pub open spec fn help_drawn(frame: Rect) -> Seq<WidgetView> {
    let area = help_area(frame);
    seq![
        WidgetView::Clear { area },
        WidgetView::Border {
            area,
            colour: theme::ACCENT,
            look: theme::backed(theme::BG_ALT),
            title: seq![screen::styled(" tomesole · keys "@, theme::bold_coloured(theme::ACCENT))],
            right_title: seq![],
        },
        screen::text_view(screen::inside(area), help_lines(), Align::Left, false),
    ]
}

fn section_rows(title: &str, keys: &Vec<(&'static str, &'static str)>) -> (r: Vec<Line>)
    ensures
        screen::line_views(r@) == section(title@, keys@),
{
    let n: usize = keys.len();
    let mut lines: Vec<Line> = Vec::new();
    lines.push(line(span(title, theme::bold_ink(theme::AMBER))));
    let mut i: usize = 0;
    while i < n
        invariant
            i <= n,
            n == keys@.len(),
            lines@.len() == i + 1,
            lines@[0]@ == section_line(title@),
            forall|k: int| 0 <= k < i ==> (#[trigger] lines@[k + 1])@ == key_line(keys@[k]),
        decreases n - i,
    {
        let (k, what) = keys[i];
        let named = concat("  ", &align_left(k, 11));
        let ghost before = lines@;
        lines.push(line2(accent(&named), muted(what)));
        assert forall|j: int| 0 <= j < i + 1 implies (#[trigger] lines@[j + 1])@ == key_line(
            keys@[j],
        ) by {
            if j < i {
                assert(lines@[j + 1] == before[j + 1]);
            }
        }
        i += 1;
    }
    proof {
        let got = screen::line_views(lines@);
        let want = section(title@, keys@);
        assert forall|j: int| 0 <= j < got.len() implies got[j] == want[j] by {
            if j > 0 {
                assert(lines@[(j - 1) + 1]@ == key_line(keys@[j - 1]));
            }
        }
        assert(got =~= want);
    }
    lines
}

fn help_rows() -> (r: Vec<Line>)
    ensures
        screen::line_views(r@) == help_lines(),
        r@.len() == 40,
{
    let mut lines = section_rows("ANYWHERE", &anywhere());
    let mut search = section_rows("\nSEARCH TAB", &in_search());
    let mut library = section_rows("\nLIBRARY TAB", &in_library());
    let mut tags = section_rows("\nSEARCH TAGS", &query::tags());
    proof {
        lemma_lines_concat(lines@, search@);
        lemma_lines_concat(lines@ + search@, library@);
        lemma_lines_concat(lines@ + search@ + library@, tags@);
    }
    lines.append(&mut search);
    lines.append(&mut library);
    lines.append(&mut tags);
    assert(screen::line_views(lines@).len() == 40);
    lines
}

/// What a list can be sorted by, by name.
pub open spec fn order_name(tab: Tab, o: Order) -> Seq<char> {
    match o {
        Order::Natural => match tab {
            Tab::Search => "relevance"@,
            Tab::Library => "date added"@,
        },
        Order::Title => "title"@,
        Order::Author => "author"@,
        Order::Year => "year"@,
        Order::Size => "size"@,
    }
}

fn name_of_order(tab: Tab, o: Order) -> (r: &'static str)
    ensures
        r@ == order_name(tab, o),
{
    match o {
        Order::Natural => match tab {
            Tab::Search => "relevance",
            Tab::Library => "date added",
        },
        Order::Title => "title",
        Order::Author => "author",
        Order::Year => "year",
        Order::Size => "size",
    }
}

/// The direction a list is sorted in: up from A to Z and from the smallest, down
/// from the newest and the largest.
pub open spec fn direction(s: Sorting) -> Seq<char> {
    let up = s.order == Order::Title || s.order == Order::Author;
    if up != s.backwards {
        " ↑"@
    } else {
        " ↓"@
    }
}

fn direction_of(s: Sorting) -> (r: &'static str)
    ensures
        r@ == direction(s),
{
    let up = s.order == Order::Title || s.order == Order::Author;
    if up != s.backwards {
        " ↑"
    } else {
        " ↓"
    }
}

/// How wide the menu of what to sort by is, borders included.
pub const MENU_COLUMNS: u16 = 24;

impl AppView {
    /// A choice of the menu: marked where it is highlighted, and with its
    /// direction where the list is sorted by it now.
    pub open spec fn menu_line(self, i: int) -> LineView {
        let o = tui::choices(self.tab)[i];
        let s = self.current_sorting();
        let name = order_name(self.tab, o);
        seq![
            key_span(
                if self.menu == i {
                    " › "@
                } else {
                    "   "@
                },
            ),
            if self.menu == i {
                bold_span(name)
            } else {
                muted_span(name)
            },
            faint_span(
                if s.order == o {
                    direction(s)
                } else {
                    seq![]
                },
            ),
        ]
    }

    pub open spec fn menu_lines(self) -> Seq<LineView> {
        Seq::new(tui::choices(self.tab).len(), |i: int| self.menu_line(i))
    }

    /// The menu of what to sort by, over the middle of the frame.
    pub open spec fn menu_drawn(self, frame: Rect) -> Seq<WidgetView> {
        let area = screen::middle(
            frame,
            MENU_COLUMNS,
            (tui::choices(self.tab).len() + 2) as u16,
        );
        seq![
            WidgetView::Clear { area },
            WidgetView::Border {
                area,
                colour: theme::ACCENT,
                look: theme::backed(theme::BG_ALT),
                title: seq![screen::styled(" sort by "@, theme::bold_coloured(theme::ACCENT))],
                right_title: seq![],
            },
            screen::text_view(screen::inside(area), self.menu_lines(), Align::Left, false),
        ]
    }
}

impl App {
    fn menu_row(&self, all: &Vec<Order>, i: usize) -> (r: Line)
        requires
            all@ == tui::choices(self.tab),
            i < all@.len(),
        ensures
            r@ == self@.menu_line(i as int),
    {
        let o = all[i];
        let s = match self.tab {
            Tab::Search => self.sorting,
            Tab::Library => self.shelving,
        };
        let name = name_of_order(self.tab, o);
        let here = self.menu == i;
        let lead = key(
            if here {
                " › "
            } else {
                "   "
            },
        );
        let middle = if here {
            bold(name)
        } else {
            muted(name)
        };
        let tail = if s.order == o {
            faint(direction_of(s))
        } else {
            faint(&String::new())
        };
        line3(lead, middle, tail)
    }

    /// The menu of what to sort by.
    pub fn render_menu(&self, frame: Rect) -> (r: Vec<Widget>)
        ensures
            screen::widget_views(r@) == self@.menu_drawn(frame),
    {
        let all = sort_choices(self.tab);
        let n: usize = all.len();
        assert(n <= 5);
        let mut lines: Vec<Line> = Vec::new();
        let mut i: usize = 0;
        assert(screen::line_views(lines@) =~= self@.menu_lines().take(0));
        while i < n
            invariant
                i <= n <= 5,
                n == all@.len(),
                all@ == tui::choices(self.tab),
                screen::line_views(lines@) == self@.menu_lines().take(i as int),
            decreases n - i,
        {
            lines.push(self.menu_row(&all, i));
            assert(self@.menu_lines().take(i + 1) =~= self@.menu_lines().take(i as int).push(
                self@.menu_line(i as int),
            ));
            i += 1;
        }
        assert(self@.menu_lines().take(n as int) =~= self@.menu_lines());
        let area = centered(frame, MENU_COLUMNS, n as u16 + 2);
        let mut out: Vec<Widget> = Vec::new();
        out.push(Widget::Clear { area });
        out.push(
            Widget::Border {
                area,
                colour: theme::ACCENT,
                look: theme::wash(theme::BG_ALT),
                title: line(span(" sort by ", theme::bold_ink(theme::ACCENT))),
                right_title: blank_line(),
            },
        );
        out.push(screen::text(inner(area), lines, Align::Left, false));
        assert(screen::widget_views(out@) =~= self@.menu_drawn(frame));
        out
    }
}

/// The help, over everything else.
pub fn render_help(frame: Rect) -> (r: Vec<Widget>)
    ensures
        screen::widget_views(r@) == help_drawn(frame),
{
    let lines = help_rows();
    assert(help_lines().len() == 40);
    let width: u16 = min16(60, frame.width.saturating_sub(4));
    let height: u16 = min16(lines.len() as u16 + 2, frame.height.saturating_sub(2));
    let area = centered(frame, width, height);
    let mut out: Vec<Widget> = Vec::new();
    out.push(Widget::Clear { area });
    out.push(
        Widget::Border {
            area,
            colour: theme::ACCENT,
            look: theme::wash(theme::BG_ALT),
            title: line(span(" tomesole · keys ", theme::bold_ink(theme::ACCENT))),
            right_title: blank_line(),
        },
    );
    out.push(screen::text(inner(area), lines, Align::Left, false));
    assert(screen::widget_views(out@) =~= help_drawn(frame));
    out
}

/// The help stays on the screen, however small that is.
pub proof fn lemma_the_help_stays_on_screen(frame: Rect)
    requires
        frame.x + frame.width <= 65535,
        frame.y + frame.height <= 65535,
    ensures
        screen::lies_in(help_area(frame), frame),
{
}

// ---------------------------------------------------------------------------
// The frame
// ---------------------------------------------------------------------------

impl AppView {
    /// The list of the tab that is showing.
    pub open spec fn list_drawn(self, area: Rect, disk: Disk, now: u64) -> Seq<WidgetView> {
        match self.tab {
            Tab::Search => self.results_drawn(area),
            Tab::Library => self.library_drawn(area, disk, now),
        }
    }

    /// The list and the details of it: in columns beside one another where the
    /// frame is wide, in rows otherwise.
    pub open spec fn body_drawn(
        self,
        area: Rect,
        parts: Parts,
        columns: (Rect, Rect),
        disk: Disk,
        now: u64,
    ) -> ScreenView {
        let list = self.list_drawn(
            if self.paneled(area) {
                columns.0
            } else {
                parts.list
            },
            disk,
            now,
        );
        let details = match self.tab {
            Tab::Search => if self.paneled(area) {
                self.side_drawn(columns.1)
            } else {
                self.details_drawn(parts.details)
            },
            Tab::Library => if self.paneled(area) {
                self.library_side_drawn(columns.1, disk)
            } else {
                self.library_details_drawn(parts.details, disk)
            },
        };
        ScreenView { widgets: list + details.widgets, cover: details.cover }
    }

    /// The whole frame: the canvas first, everything after it on top, and the
    /// help or the menu over everything while it is up.
    pub open spec fn drawn(
        self,
        area: Rect,
        parts: Parts,
        columns: (Rect, Rect),
        disk: Disk,
        now: u64,
    ) -> ScreenView {
        let canvas = seq![
            WidgetView::Canvas {
                area,
                look: theme::Look { fg: Some(theme::TEXT), bg: Some(theme::BG), bold: false },
            },
        ];
        let filters = if self.filter_rows() == 1 {
            self.strip_drawn(parts.filters)
        } else {
            seq![]
        };
        let body = self.body_drawn(area, parts, columns, disk, now);
        let help = if self.mode == Mode::Help {
            help_drawn(area)
        } else if self.mode == Mode::Sorting {
            self.menu_drawn(area)
        } else {
            seq![]
        };
        ScreenView {
            widgets: canvas + self.input_drawn(parts.input) + filters + body.widgets
                + self.hints_drawn(parts.hints) + help,
            cover: body.cover,
        }
    }

    /// Whether a frame is large enough for all that it is to hold.
    pub open spec fn fits(self, area: Rect) -> bool {
        &&& screen::roomy(area, self.filter_rows(), self.strip_rows(area))
        &&& area.x + area.width <= 65535
    }

    /// The whole frame, where it is large enough for all that it is to hold.
    pub open spec fn shown_on(self, area: Rect, disk: Disk, now: u64) -> ScreenView {
        let parts = screen::parts_of(area, self.filter_rows(), self.strip_rows(area));
        self.drawn(area, parts, screen::columns_of(parts.list), disk, now)
    }
}

impl App {
    fn list_widgets(&self, area: Rect, disk: &Disk, now: u64) -> (r: Vec<Widget>)
        requires
            self.wf(),
        ensures
            screen::widget_views(r@) == self@.list_drawn(area, *disk, now),
    {
        match self.tab {
            Tab::Search => self.render_results(area),
            Tab::Library => self.render_library(area, disk, now),
        }
    }

    fn details_screen(&self, side: bool, strip: Rect, panel: Rect, disk: &Disk) -> (r: Screen)
        requires
            self.wf(),
        ensures
            r@ == (match self@.tab {
                Tab::Search => if side {
                    self@.side_drawn(panel)
                } else {
                    self@.details_drawn(strip)
                },
                Tab::Library => if side {
                    self@.library_side_drawn(panel, *disk)
                } else {
                    self@.library_details_drawn(strip, *disk)
                },
            }),
    {
        match self.tab {
            Tab::Search => {
                if side {
                    self.render_side_details(panel)
                } else {
                    self.render_details(strip)
                }
            },
            Tab::Library => {
                if side {
                    self.render_library_side_details(panel, disk)
                } else {
                    self.render_library_details(strip, disk)
                }
            },
        }
    }

    /// The frame, in parts that have been worked out.
    pub fn draw(&self, area: Rect, parts: Parts, columns: (Rect, Rect), disk: &Disk, now: u64) -> (r:
        Screen)
        requires
            self.wf(),
        ensures
            r@ == self@.drawn(area, parts, columns, *disk, now),
    {
        let side = self.side_panel(area);
        let mut out: Vec<Widget> = Vec::new();
        let canvas = theme::Look { fg: Some(theme::TEXT), bg: Some(theme::BG), bold: false };
        out.push(Widget::Canvas { area, look: canvas });
        assert(screen::widget_views(out@) =~= seq![WidgetView::Canvas { area, look: canvas }]);
        let mut input = self.render_input(parts.input);
        out.append(&mut input);
        if self.filter_bar() == 1 {
            let mut filters = match self.tab {
                Tab::Search => self.render_filters(parts.filters),
                Tab::Library => self.render_summary(parts.filters),
            };
            out.append(&mut filters);
        }
        let ghost before = screen::widget_views(out@);
        let list_area = if side {
            columns.0
        } else {
            parts.list
        };
        let mut list = self.list_widgets(list_area, disk, now);
        let mut details = self.details_screen(side, parts.details, columns.1, disk);
        let ghost body = self@.body_drawn(area, parts, columns, *disk, now);
        assert(screen::widget_views(list@) + details@.widgets == body.widgets);
        out.append(&mut list);
        out.append(&mut details.widgets);
        assert(screen::widget_views(out@) =~= before + body.widgets);
        let mut hints = self.render_hints(parts.hints);
        out.append(&mut hints);
        if self.mode == Mode::Help {
            let mut help = render_help(area);
            out.append(&mut help);
        } else if self.mode == Mode::Sorting {
            let mut menu = self.render_menu(area);
            out.append(&mut menu);
        }
        assert(screen::widget_views(out@) =~= self@.drawn(
            area,
            parts,
            columns,
            *disk,
            now,
        ).widgets);
        Screen { widgets: out, cover: details.cover }
    }

    /// Work out the frame and remember where it left room for the picture.
    ///
    /// In a frame too small for all that it is to hold, how much of it each part
    /// keeps is the layout's to say; what is drawn in the parts is the same, and
    /// the parts fill the frame, one under the other.
    pub fn render(&mut self, area: Rect, disk: &Disk, now: u64) -> (r: Screen)
        requires
            old(self).wf(),
        ensures
            final(self).wf(),
            final(self)@ == (AppView { cover_area: r.cover, ..old(self)@ }),
            exists|parts: Parts, columns: (Rect, Rect)|
                r@ == #[trigger] old(self)@.drawn(area, parts, columns, *disk, now)
                    && parts.share(area) && screen::lies_in(columns.0, parts.list)
                    && screen::lies_in(columns.1, parts.list) && screen::split_in(
                    columns,
                    parts.list,
                ),
            old(self)@.fits(area) ==> r@ == old(self)@.shown_on(area, *disk, now),
    {
        let parts = frame_parts(area, self.filter_bar(), self.strip(area));
        let columns = side_by_side(parts.list);
        let r = self.draw(area, parts, columns, disk, now);
        self.cover_area = r.cover;
        r
    }
}

} // verus!
