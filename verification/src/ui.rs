//! Rendering: the results table, mirror status, JSON output, and prompts.

use vstd::prelude::*;
use vstd::string::*;

use crate::history;
use crate::history::{timestamp, Disk, Entry};
use crate::line;
use crate::line::{lay_out, piece, space_out, Ink, Piece, PieceView};
use crate::model;
use crate::model::{human_bytes, or_blank, Book};
use crate::net;
use crate::net::parse_host;
use crate::term;
use crate::term::{display_width, pad, pad_left, parse_selection, truncate, Style};
use crate::text;
use crate::text::{
    chars_of, concat, dec, join, repeat, same_ignoring_case, string_of, trim, trim_end,
};

verus! {

// Column widths that do not depend on the terminal size.
pub const W_INDEX: usize = 3;

pub const W_YEAR: usize = 4;

pub const W_LANG: usize = 8;

pub const W_SIZE: usize = 8;

pub const W_EXT: usize = 5;

pub const W_WHEN: usize = 12;

/// A one-character column for the "this file is gone" mark. It has a column of
/// its own rather than a suffix on the title because a long title is truncated,
/// and the one row that most needs the mark is exactly the one where it would
/// be cut off.
pub const W_MARK: usize = 1;

// ---------------------------------------------------------------------------
// Tables
// ---------------------------------------------------------------------------

/// Split the room two flexible columns share: sixty-two hundredths for the
/// title, the rest for the author, and never less than a readable minimum.
pub open spec fn shares(flex: int) -> (int, int) {
    let part = 62 * flex / 100;
    let title = if part < 20 {
        20
    } else {
        part
    };
    let rest = if flex > title {
        flex - title
    } else {
        0
    };
    (title, if rest < 12 {
        12
    } else {
        rest
    })
}

pub open spec fn room(total: int, fixed: int) -> int {
    if total > fixed {
        total - fixed
    } else {
        0
    }
}

fn share_out(flex: usize) -> (r: (usize, usize))
    ensures
        (r.0 as int, r.1 as int) == shares(flex as int),
{
    let part: usize = flex / 100 * 62 + flex % 100 * 62 / 100;
    assert(part == 62 * flex / 100);
    let title: usize = if part < 20 {
        20
    } else {
        part
    };
    let rest: usize = flex.saturating_sub(title);
    (title, if rest < 12 {
        12
    } else {
        rest
    })
}

/// How much room the title and author columns of the results get: what the
/// indent, the five fixed columns and the six gaps leave over.
pub fn flex_widths(total: usize) -> (r: (usize, usize))
    ensures
        (r.0 as int, r.1 as int) == shares(room(total as int, 42)),
        r.0 >= 20,
        r.1 >= 12,
{
    share_out(total.saturating_sub(42))
}

/// A row of seven cells with two spaces before it and between them.
pub open spec fn row_of(
    a: Seq<char>,
    b: Seq<char>,
    c: Seq<char>,
    d: Seq<char>,
    e: Seq<char>,
    f: Seq<char>,
    g: Seq<char>,
) -> Seq<char> {
    "  "@ + a + "  "@ + b + "  "@ + c + "  "@ + d + "  "@ + e + "  "@ + f + "  "@ + g
}

fn row(a: &str, b: &str, c: &str, d: &str, e: &str, f: &str, g: &str) -> (r: String)
    ensures
        r@ == row_of(a@, b@, c@, d@, e@, f@, g@),
{
    let mut out = "  ".to_owned();
    out.append(a);
    out.append("  ");
    out.append(b);
    out.append("  ");
    out.append(c);
    out.append("  ");
    out.append(d);
    out.append("  ");
    out.append(e);
    out.append("  ");
    out.append(f);
    out.append("  ");
    out.append(g);
    out
}

/// A horizontal rule of a number of cells.
pub open spec fn rule(n: int) -> Seq<char> {
    text::repeated('─', n)
}

/// A text cut and padded to a column.
pub open spec fn column(s: Seq<char>, width: int) -> Seq<char> {
    term::padded(term::truncated(s, width), width)
}

pub open spec fn column_left(s: Seq<char>, width: int) -> Seq<char> {
    term::padded_left(term::truncated(s, width), width)
}

fn fit(s: &str, width: usize) -> (r: String)
    ensures
        r@ == column(s@, width as int),
{
    pad(&truncate(s, width), width)
}

fn fit_left(s: &str, width: usize) -> (r: String)
    ensures
        r@ == column_left(s@, width as int),
{
    pad_left(&truncate(s, width), width)
}

/// The lines of a table: the names of its columns, the rule under them, and a
/// row for each thing it lists, none wider than the terminal.
pub open spec fn table_lines(
    names: Seq<char>,
    rules: Seq<char>,
    rows: Seq<Seq<PieceView>>,
    width: int,
    style: Style,
) -> Seq<Seq<char>> {
    seq![
        style.dim_text(term::truncated(names, width)),
        style.dim_text(term::truncated(rules, width)),
    ] + Seq::new(rows.len(), |i: int| line::line_of(line::spaced(rows[i]), width, style))
}

/// The first two lines of a table.
fn table_head(names: &str, rules: &str, width: usize, style: &Style) -> (r: String)
    ensures
        r@ == text::line_file(table_lines(names@, rules@, seq![], width as int, *style)),
{
    let first = style.dim(&truncate(names, width));
    let second = style.dim(&truncate(rules, width));
    let mut out = first.clone();
    out.push('\n');
    out.append(&second);
    out.push('\n');
    proof {
        let ls = table_lines(names@, rules@, seq![], width as int, *style);
        assert(ls =~= seq![first@, second@]);
        assert(ls.drop_last() =~= seq![first@]);
        assert(ls.drop_last().drop_last() =~= seq![]);
        reveal_with_fuel(text::line_file, 3);
        assert(out@ =~= text::line_file(ls));
    }
    out
}

/// One more row makes one more line.
proof fn lemma_one_more_row(
    names: Seq<char>,
    rules: Seq<char>,
    rows: Seq<Seq<PieceView>>,
    cells: Seq<PieceView>,
    width: int,
    style: Style,
)
    ensures
        text::line_file(table_lines(names, rules, rows.push(cells), width, style))
            == text::line_file(table_lines(names, rules, rows, width, style)) + line::line_of(
            line::spaced(cells),
            width,
            style,
        ) + seq!['\n'],
{
    let ls = table_lines(names, rules, rows.push(cells), width, style);
    assert(ls.drop_last() =~= table_lines(names, rules, rows, width, style));
    assert(ls.last() == line::line_of(line::spaced(cells), width, style));
}

/// The names of the columns of the results.
pub open spec fn results_names(wt: int, wa: int) -> Seq<char> {
    text::trimmed_end(
        row_of(
            term::padded_left("#"@, W_INDEX as int),
            term::padded("Title"@, wt),
            term::padded("Author"@, wa),
            term::padded("Year"@, W_YEAR as int),
            term::padded("Lang"@, W_LANG as int),
            term::padded_left("Size"@, W_SIZE as int),
            term::padded("Fmt"@, W_EXT as int),
        ),
    )
}

/// The rule under them.
pub open spec fn results_rule(wt: int, wa: int) -> Seq<char> {
    row_of(
        rule(W_INDEX as int),
        rule(wt),
        rule(wa),
        rule(W_YEAR as int),
        rule(W_LANG as int),
        rule(W_SIZE as int),
        rule(W_EXT as int),
    )
}

/// The row of one book. Every fixed-width cell is truncated as well as padded:
/// records carry values like `2016;2014` in the year column, which would
/// otherwise overflow and shift the rest of the row.
pub open spec fn results_cells(book: Book, number: nat, wt: int, wa: int) -> Seq<PieceView> {
    seq![
        PieceView {
            text: term::padded_left(text::decimal(number), W_INDEX as int),
            ink: Ink::Cyan,
        },
        PieceView { text: column(book.title@, wt), ink: Ink::Bare },
        PieceView { text: column(book.first_author_text(), wa), ink: Ink::Dim },
        PieceView { text: column(model::or_empty(book.year), W_YEAR as int), ink: Ink::Dim },
        PieceView { text: column(model::or_empty(book.language), W_LANG as int), ink: Ink::Dim },
        PieceView { text: column_left(book.size_text(), W_SIZE as int), ink: Ink::Dim },
        PieceView { text: column(book.ext_text(), W_EXT as int), ink: Ink::Green },
    ]
}

pub open spec fn results_rows(books: Seq<Book>, wt: int, wa: int) -> Seq<Seq<PieceView>> {
    Seq::new(books.len(), |i: int| results_cells(books[i], (i + 1) as nat, wt, wa))
}

/// The lines of the results table.
pub open spec fn results_lines(books: Seq<Book>, width: int, style: Style) -> Seq<Seq<char>> {
    let (wt, wa) = shares(room(width, 42));
    table_lines(
        results_names(wt, wa),
        results_rule(wt, wa),
        results_rows(books, wt, wa),
        width,
        style,
    )
}

/// The results as an aligned table.
pub open spec fn results_table(books: Seq<Book>, width: int, style: Style) -> Seq<char> {
    text::line_file(results_lines(books, width, style))
}

fn book_cells(book: &Book, number: u64, wt: usize, wa: usize) -> (r: Vec<Piece>)
    ensures
        line::views(r@) == results_cells(*book, number as nat, wt as int, wa as int),
{
    let r = vec![
        piece(pad_left(&dec(number), W_INDEX), Ink::Cyan),
        piece(fit(&book.title, wt), Ink::Bare),
        piece(fit(&book.first_author(), wa), Ink::Dim),
        piece(fit(or_blank(&book.year), W_YEAR), Ink::Dim),
        piece(fit(or_blank(&book.language), W_LANG), Ink::Dim),
        piece(fit_left(&book.size_human(), W_SIZE), Ink::Dim),
        piece(fit(book.ext(), W_EXT), Ink::Green),
    ];
    assert(line::views(r@) =~= results_cells(*book, number as nat, wt as int, wa as int));
    r
}

/// Render the results as an aligned table for a terminal of the given width.
pub fn render_results(books: &Vec<Book>, width: usize, style: &Style) -> (r: String)
    ensures
        r@ == results_table(books@, width as int, *style),
{
    let (wt, wa) = flex_widths(width);
    let names = trim_end(
        &row(
            &pad_left("#", W_INDEX),
            &pad("Title", wt),
            &pad("Author", wa),
            &pad("Year", W_YEAR),
            &pad("Lang", W_LANG),
            &pad_left("Size", W_SIZE),
            &pad("Fmt", W_EXT),
        ),
    );
    let rules = row(
        &repeat('─', W_INDEX),
        &repeat('─', wt),
        &repeat('─', wa),
        &repeat('─', W_YEAR),
        &repeat('─', W_LANG),
        &repeat('─', W_SIZE),
        &repeat('─', W_EXT),
    );
    let mut out = table_head(&names, &rules, width, style);
    let mut i: usize = 0;
    assert(results_rows(books@.take(0), wt as int, wa as int) =~= seq![]);
    while i < books.len()
        invariant
            i <= books@.len(),
            names@ == results_names(wt as int, wa as int),
            rules@ == results_rule(wt as int, wa as int),
            out@ == text::line_file(
                table_lines(
                    names@,
                    rules@,
                    results_rows(books@.take(i as int), wt as int, wa as int),
                    width as int,
                    *style,
                ),
            ),
        decreases books@.len() - i,
    {
        let cells = book_cells(&books[i], i as u64 + 1, wt, wa);
        proof {
            let rows = results_rows(books@.take(i as int), wt as int, wa as int);
            assert(results_rows(books@.take(i + 1), wt as int, wa as int) =~= rows.push(
                line::views(cells@),
            ));
            lemma_one_more_row(
                names@,
                rules@,
                rows,
                line::views(cells@),
                width as int,
                *style,
            );
        }
        out.append(&lay_out(space_out(cells), width, style));
        out.push('\n');
        i += 1;
    }
    assert(books@.take(books@.len() as int) =~= books@);
    out
}

/// The names of the columns of the history.
pub open spec fn history_names(wt: int, wa: int) -> Seq<char> {
    text::trimmed_end(
        row_of(
            term::padded_left("#"@, W_INDEX as int),
            term::padded(""@, W_MARK as int),
            term::padded("Title"@, wt),
            term::padded("Author"@, wa),
            term::padded("When"@, W_WHEN as int),
            term::padded_left("Size"@, W_SIZE as int),
            term::padded("Fmt"@, W_EXT as int),
        ),
    )
}

/// The rule under them.
pub open spec fn history_rule(wt: int, wa: int) -> Seq<char> {
    row_of(
        rule(W_INDEX as int),
        rule(W_MARK as int),
        rule(wt),
        rule(wa),
        rule(W_WHEN as int),
        rule(W_SIZE as int),
        rule(W_EXT as int),
    )
}

/// The row of one past download. One whose file has gone is marked, and its
/// title and format get no colour, so the eye skips it.
pub open spec fn history_cells(
    e: Entry,
    number: nat,
    disk: Disk,
    now: nat,
    wt: int,
    wa: int,
) -> Seq<PieceView> {
    let here = disk.holds(e.path@);
    seq![
        PieceView {
            text: term::padded_left(text::decimal(number), W_INDEX as int),
            ink: Ink::Cyan,
        },
        if here {
            PieceView { text: term::padded(""@, W_MARK as int), ink: Ink::Bare }
        } else {
            PieceView { text: term::padded("!"@, W_MARK as int), ink: Ink::Red }
        },
        PieceView {
            text: column(e.title@, wt),
            ink: if here {
                Ink::Bare
            } else {
                Ink::Dim
            },
        },
        PieceView { text: column(e.first_author_text(), wa), ink: Ink::Dim },
        PieceView {
            text: column(history::when_text(e.at as nat, now), W_WHEN as int),
            ink: Ink::Dim,
        },
        PieceView {
            text: column_left(model::bytes_text(e.size as nat), W_SIZE as int),
            ink: Ink::Dim,
        },
        PieceView {
            text: column(e.ext_text(), W_EXT as int),
            ink: if here {
                Ink::Green
            } else {
                Ink::Dim
            },
        },
    ]
}

pub open spec fn history_rows(es: Seq<Entry>, disk: Disk, now: nat, wt: int, wa: int) -> Seq<
    Seq<PieceView>,
> {
    Seq::new(es.len(), |i: int| history_cells(es[i], (i + 1) as nat, disk, now, wt, wa))
}

/// The lines of the history table.
pub open spec fn history_lines(
    es: Seq<Entry>,
    disk: Disk,
    now: nat,
    width: int,
    style: Style,
) -> Seq<Seq<char>> {
    let (wt, wa) = shares(room(width, 43));
    table_lines(
        history_names(wt, wa),
        history_rule(wt, wa),
        history_rows(es, disk, now, wt, wa),
        width,
        style,
    )
}

/// The download history as an aligned table.
pub open spec fn history_table(
    es: Seq<Entry>,
    disk: Disk,
    now: nat,
    width: int,
    style: Style,
) -> Seq<char> {
    text::line_file(history_lines(es, disk, now, width, style))
}

fn entry_cells(e: &Entry, number: u64, disk: &Disk, now: u64, wt: usize, wa: usize) -> (r: Vec<
    Piece,
>)
    ensures
        line::views(r@) == history_cells(
            *e,
            number as nat,
            *disk,
            now as nat,
            wt as int,
            wa as int,
        ),
{
    let here = e.present(disk);
    let mark = if here {
        piece(pad("", W_MARK), Ink::Bare)
    } else {
        piece(pad("!", W_MARK), Ink::Red)
    };
    let title_ink = if here {
        Ink::Bare
    } else {
        Ink::Dim
    };
    let ext_ink = if here {
        Ink::Green
    } else {
        Ink::Dim
    };
    let r = vec![
        piece(pad_left(&dec(number), W_INDEX), Ink::Cyan),
        mark,
        piece(fit(&e.title, wt), title_ink),
        piece(fit(&e.first_author(), wa), Ink::Dim),
        piece(fit(&crate::history::when(e.at, now), W_WHEN), Ink::Dim),
        piece(fit_left(&human_bytes(e.size), W_SIZE), Ink::Dim),
        piece(fit(e.ext(), W_EXT), ext_ink),
    ];
    assert(line::views(r@) =~= history_cells(
        *e,
        number as nat,
        *disk,
        now as nat,
        wt as int,
        wa as int,
    ));
    r
}

/// Render the download history as an aligned table.
///
/// Entries whose file has since been moved or deleted are still listed, because
/// a history that quietly forgets things is worse than one that admits the file
/// is gone, but they are marked, and dimmed.
pub fn render_history(
    es: &Vec<Entry>,
    disk: &Disk,
    now: u64,
    width: usize,
    style: &Style,
) -> (r: String)
    ensures
        r@ == history_table(es@, *disk, now as nat, width as int, *style),
{
    let (wt, wa) = share_out(width.saturating_sub(43));
    let names = trim_end(
        &row(
            &pad_left("#", W_INDEX),
            &pad("", W_MARK),
            &pad("Title", wt),
            &pad("Author", wa),
            &pad("When", W_WHEN),
            &pad_left("Size", W_SIZE),
            &pad("Fmt", W_EXT),
        ),
    );
    let rules = row(
        &repeat('─', W_INDEX),
        &repeat('─', W_MARK),
        &repeat('─', wt),
        &repeat('─', wa),
        &repeat('─', W_WHEN),
        &repeat('─', W_SIZE),
        &repeat('─', W_EXT),
    );
    let mut out = table_head(&names, &rules, width, style);
    let mut i: usize = 0;
    assert(history_rows(es@.take(0), *disk, now as nat, wt as int, wa as int) =~= seq![]);
    while i < es.len()
        invariant
            i <= es@.len(),
            names@ == history_names(wt as int, wa as int),
            rules@ == history_rule(wt as int, wa as int),
            out@ == text::line_file(
                table_lines(
                    names@,
                    rules@,
                    history_rows(es@.take(i as int), *disk, now as nat, wt as int, wa as int),
                    width as int,
                    *style,
                ),
            ),
        decreases es@.len() - i,
    {
        let cells = entry_cells(&es[i], i as u64 + 1, disk, now, wt, wa);
        proof {
            let rows = history_rows(es@.take(i as int), *disk, now as nat, wt as int, wa as int);
            assert(history_rows(es@.take(i + 1), *disk, now as nat, wt as int, wa as int)
                =~= rows.push(line::views(cells@)));
            lemma_one_more_row(
                names@,
                rules@,
                rows,
                line::views(cells@),
                width as int,
                *style,
            );
        }
        out.append(&lay_out(space_out(cells), width, style));
        out.push('\n');
        i += 1;
    }
    assert(es@.take(es@.len() as int) =~= es@);
    out
}

// ---------------------------------------------------------------------------
// Mirrors
// ---------------------------------------------------------------------------

/// What probing a mirror found.
#[derive(Debug)]
pub enum Health {
    /// A real search came back, after so many nanoseconds, with so many results.
    Healthy { latency: u64, results: u64 },
    Unhealthy(String),
}

#[derive(Debug)]
pub struct MirrorStatus {
    pub base: String,
    pub outcome: Health,
}

impl MirrorStatus {
    pub open spec fn healthy(self) -> bool {
        self.outcome is Healthy
    }

    pub fn is_healthy(&self) -> (r: bool)
        ensures
            r == self.healthy(),
    {
        match self.outcome {
            Health::Healthy { .. } => true,
            Health::Unhealthy(_) => false,
        }
    }

    /// How long the search took, where one came back.
    pub fn latency(&self) -> (r: Option<u64>)
        ensures
            r == (match self.outcome {
                Health::Healthy { latency, .. } => Some(latency),
                Health::Unhealthy(_) => None,
            }),
    {
        match self.outcome {
            Health::Healthy { latency, .. } => Some(latency),
            Health::Unhealthy(_) => None,
        }
    }
}

/// The widest host among some mirrors, in cells; below zero where none of them
/// names a host.
pub open spec fn widest_host(ms: Seq<MirrorStatus>) -> int
    decreases ms.len(),
{
    if ms.len() == 0 {
        -1
    } else {
        let rest = widest_host(ms.drop_last());
        match net::uri_host(ms.last().base@) {
            Some(h) => {
                let w = term::in_word(term::cells(h)) as int;
                if w > rest {
                    w
                } else {
                    rest
                }
            },
            None => rest,
        }
    }
}

/// The width of the host column.
pub open spec fn host_column(ms: Seq<MirrorStatus>) -> int {
    let w = widest_host(ms);
    if w < 0 {
        20
    } else if w < 6 {
        6
    } else {
        w
    }
}

fn host_width(ms: &Vec<MirrorStatus>) -> (r: usize)
    ensures
        r == host_column(ms@),
{
    let mut best: Option<usize> = None;
    let mut i: usize = 0;
    assert(ms@.take(0) =~= seq![]);
    while i < ms.len()
        invariant
            i <= ms@.len(),
            widest_host(ms@.take(i as int)) == (match best {
                Some(w) => w as int,
                None => -1int,
            }),
        decreases ms@.len() - i,
    {
        assert(ms@.take(i + 1).drop_last() =~= ms@.take(i as int));
        if let Some(h) = parse_host(&ms[i].base) {
            let w = display_width(&h);
            best = match best {
                Some(b) => Some(
                    if w > b {
                        w
                    } else {
                        b
                    },
                ),
                None => Some(w),
            };
        }
        i += 1;
    }
    assert(ms@.take(ms@.len() as int) =~= ms@);
    match best {
        Some(w) => if w < 6 {
            6
        } else {
            w
        },
        None => 20,
    }
}

/// The host of a mirror, or its whole address where it names none.
pub open spec fn mirror_name(base: Seq<char>) -> Seq<char> {
    match net::uri_host(base) {
        Some(h) => h,
        None => base,
    }
}

pub open spec fn mirror_row(m: MirrorStatus, width: int, style: Style) -> Seq<char> {
    "  "@ + term::padded(mirror_name(m.base@), width) + "  "@ + (match m.outcome {
        Health::Healthy { .. } => style.green_text(term::padded("up"@, 8)),
        Health::Unhealthy(_) => style.red_text(term::padded("down"@, 8)),
    }) + "  "@ + (match m.outcome {
        Health::Healthy { latency, results } => style.dim_text(
            text::decimal(latency as nat / 1_000_000) + " ms, "@ + text::decimal(results as nat)
                + " results"@,
        ),
        Health::Unhealthy(reason) => style.dim_text(reason@),
    }) + "\n"@
}

pub open spec fn mirror_rows(ms: Seq<MirrorStatus>, width: int, style: Style) -> Seq<char>
    decreases ms.len(),
{
    if ms.len() == 0 {
        seq![]
    } else {
        mirror_rows(ms.drop_last(), width, style) + mirror_row(ms.last(), width, style)
    }
}

/// Mirror health as a table.
pub open spec fn mirror_table(ms: Seq<MirrorStatus>, style: Style) -> Seq<char> {
    let w = host_column(ms);
    style.dim_text(
        "  "@ + term::padded("Mirror"@, w) + "  "@ + term::padded("Status"@, 8) + "  "@ + "Detail"@
            + "\n"@,
    ) + style.dim_text("  "@ + rule(w) + "  "@ + rule(8) + "  "@ + rule(28) + "\n"@) + mirror_rows(
        ms,
        w,
        style,
    )
}

fn mirror_line(m: &MirrorStatus, width: usize, style: &Style) -> (r: String)
    ensures
        r@ == mirror_row(*m, width as int, *style),
{
    let host = match parse_host(&m.base) {
        Some(h) => h,
        None => m.base.clone(),
    };
    let mut out = "  ".to_owned();
    out.append(&pad(&host, width));
    out.append("  ");
    match &m.outcome {
        Health::Healthy { latency, results } => {
            out.append(&style.green(&pad("up", 8)));
            out.append("  ");
            let mut detail = dec(*latency / 1_000_000);
            detail.append(" ms, ");
            detail.append(&dec(*results));
            detail.append(" results");
            out.append(&style.dim(&detail));
        },
        Health::Unhealthy(reason) => {
            out.append(&style.red(&pad("down", 8)));
            out.append("  ");
            out.append(&style.dim(reason));
        },
    }
    out.append("\n");
    out
}

/// Render mirror health as a table.
pub fn render_mirror_table(ms: &Vec<MirrorStatus>, style: &Style) -> (r: String)
    ensures
        r@ == mirror_table(ms@, *style),
{
    let w = host_width(ms);
    let mut head = "  ".to_owned();
    head.append(&pad("Mirror", w));
    head.append("  ");
    head.append(&pad("Status", 8));
    head.append("  ");
    head.append("Detail");
    head.append("\n");
    let mut out = style.dim(&head);
    let mut under = "  ".to_owned();
    under.append(&repeat('─', w));
    under.append("  ");
    under.append(&repeat('─', 8));
    under.append("  ");
    under.append(&repeat('─', 28));
    under.append("\n");
    out.append(&style.dim(&under));
    let mut body = String::new();
    let mut i: usize = 0;
    assert(ms@.take(0) =~= seq![]);
    while i < ms.len()
        invariant
            i <= ms@.len(),
            body@ == mirror_rows(ms@.take(i as int), w as int, *style),
        decreases ms@.len() - i,
    {
        assert(ms@.take(i + 1).drop_last() =~= ms@.take(i as int));
        body.append(&mirror_line(&ms[i], w, style));
        i += 1;
    }
    assert(ms@.take(ms@.len() as int) =~= ms@);
    out.append(&body);
    out
}

// ---------------------------------------------------------------------------
// JSON
// ---------------------------------------------------------------------------

/// One character as it stands inside a JSON string.
pub open spec fn json_char(c: char) -> Seq<char> {
    if c == '"' {
        seq!['\\', '"']
    } else if c == '\\' {
        seq!['\\', '\\']
    } else if c == '\n' {
        seq!['\\', 'n']
    } else if c == '\r' {
        seq!['\\', 'r']
    } else if c == '\t' {
        seq!['\\', 't']
    } else if c == '\u{8}' {
        seq!['\\', 'b']
    } else if c == '\u{c}' {
        seq!['\\', 'f']
    } else if (c as u32) < 0x20 {
        seq![
            '\\',
            'u',
            '0',
            '0',
            text::hex_char((c as u32 / 16) as int),
            text::hex_char((c as u32 % 16) as int),
        ]
    } else {
        seq![c]
    }
}

/// A text as it stands inside a JSON string.
pub open spec fn json_escaped(s: Seq<char>) -> Seq<char>
    decreases s.len(),
{
    if s.len() == 0 {
        seq![]
    } else {
        json_char(s[0]) + json_escaped(s.skip(1))
    }
}

/// Escape a string for inclusion in a JSON double-quoted value.
pub fn json_escape(s: &str) -> (r: String)
    ensures
        r@ == json_escaped(s@),
{
    let v = chars_of(s);
    let mut out: Vec<char> = Vec::new();
    let mut i: usize = 0;
    assert(v@.skip(0) =~= v@);
    assert(out@ + json_escaped(v@.skip(0)) =~= json_escaped(v@));
    while i < v.len()
        invariant
            i <= v@.len(),
            v@ == s@,
            out@ + json_escaped(v@.skip(i as int)) == json_escaped(v@),
        decreases v@.len() - i,
    {
        let c = v[i];
        let ghost before = out@;
        let ghost rest = v@.skip(i as int);
        assert(rest.skip(1) =~= v@.skip(i + 1));
        assert(rest[0] == c);
        if c == '"' {
            out.push('\\');
            out.push('"');
        } else if c == '\\' {
            out.push('\\');
            out.push('\\');
        } else if c == '\n' {
            out.push('\\');
            out.push('n');
        } else if c == '\r' {
            out.push('\\');
            out.push('r');
        } else if c == '\t' {
            out.push('\\');
            out.push('t');
        } else if c == '\u{8}' {
            out.push('\\');
            out.push('b');
        } else if c == '\u{c}' {
            out.push('\\');
            out.push('f');
        } else if (c as u32) < 0x20 {
            let n = c as u32;
            out.push('\\');
            out.push('u');
            out.push('0');
            out.push('0');
            out.push(text::hex_digit(n / 16));
            out.push(text::hex_digit(n % 16));
        } else {
            out.push(c);
        }
        assert(out@ =~= before + json_char(c));
        assert(out@ + json_escaped(v@.skip(i + 1)) =~= before + json_escaped(rest));
        i += 1;
    }
    assert(out@ + json_escaped(v@.skip(i as int)) =~= out@);
    string_of(&out)
}

/// A member whose value is a text.
pub open spec fn json_text(key: Seq<char>, value: Seq<char>) -> Seq<char> {
    "    \""@ + key + "\": \""@ + json_escaped(value) + "\""@
}

/// A member whose value needs no quotes.
pub open spec fn json_plain(key: Seq<char>, value: Seq<char>) -> Seq<char> {
    "    \""@ + key + "\": "@ + value
}

fn text_member(key: &str, value: &str) -> (r: String)
    ensures
        r@ == json_text(key@, value@),
{
    let mut out = "    \"".to_owned();
    out.append(key);
    out.append("\": \"");
    out.append(&json_escape(value));
    out.append("\"");
    out
}

fn plain_member(key: &str, value: &str) -> (r: String)
    ensures
        r@ == json_plain(key@, value@),
{
    let mut out = "    \"".to_owned();
    out.append(key);
    out.append("\": ");
    out.append(value);
    out
}

/// The members so far, and one more where its value is not blank.
pub open spec fn with_text(fields: Seq<Seq<char>>, key: Seq<char>, value: Option<String>) -> Seq<
    Seq<char>,
> {
    match value {
        Some(v) => if text::trimmed(v@).len() > 0 {
            fields.push(json_text(key, v@))
        } else {
            fields
        },
        None => fields,
    }
}

fn add_text(fields: Vec<String>, key: &str, value: &Option<String>) -> (r: Vec<String>)
    ensures
        text::texts(r@) == with_text(text::texts(fields@), key@, *value),
{
    broadcast use text::lemma_texts_push;

    let mut out = fields;
    match value {
        Some(v) => {
            if !trim(v).as_str().is_empty() {
                out.push(text_member(key, v));
            }
        },
        None => {},
    }
    out
}

/// An object and what comes after it in a list.
pub open spec fn json_object(fields: Seq<Seq<char>>, last: bool) -> Seq<char> {
    "  {\n"@ + text::joined(fields, ",\n"@) + "\n"@ + (if last {
        "  }\n"@
    } else {
        "  },\n"@
    })
}

fn object(fields: &Vec<String>, last: bool) -> (r: String)
    ensures
        r@ == json_object(text::texts(fields@), last),
{
    let mut out = "  {\n".to_owned();
    out.append(&join(fields, ",\n"));
    out.append("\n");
    out.append(
        if last {
            "  }\n"
        } else {
            "  },\n"
        },
    );
    out
}

/// The members of a book. Optional ones that are absent are omitted rather than
/// null.
pub open spec fn book_fields(b: Book) -> Seq<Seq<char>> {
    let f0 = seq![json_text("md5"@, b.md5@), json_text("title"@, b.title@)];
    let f1 = with_text(f0, "authors"@, b.authors);
    let f2 = with_text(f1, "publisher"@, b.publisher);
    let f3 = with_text(f2, "year"@, b.year);
    let f4 = with_text(f3, "language"@, b.language);
    let f5 = with_text(f4, "pages"@, b.pages);
    let f6 = with_text(f5, "extension"@, b.extension);
    match b.size_bytes {
        Some(n) => f6.push(json_plain("size_bytes"@, text::decimal(n as nat))),
        None => f6,
    }
}

fn book_members(b: &Book) -> (r: Vec<String>)
    ensures
        text::texts(r@) == book_fields(*b),
{
    broadcast use text::lemma_texts_push;

    let mut f: Vec<String> = Vec::new();
    f.push(text_member("md5", &b.md5));
    f.push(text_member("title", &b.title));
    assert(text::texts(f@) =~= seq![json_text("md5"@, b.md5@), json_text("title"@, b.title@)]);
    let f = add_text(f, "authors", &b.authors);
    let f = add_text(f, "publisher", &b.publisher);
    let f = add_text(f, "year", &b.year);
    let f = add_text(f, "language", &b.language);
    let f = add_text(f, "pages", &b.pages);
    let mut f = add_text(f, "extension", &b.extension);
    if let Some(n) = b.size_bytes {
        f.push(plain_member("size_bytes", &dec(n)));
    }
    f
}

pub open spec fn book_objects(books: Seq<Book>, k: nat) -> Seq<char>
    decreases k,
{
    if k == 0 {
        seq![]
    } else {
        book_objects(books, (k - 1) as nat) + json_object(
            book_fields(books[k - 1]),
            k == books.len(),
        )
    }
}

/// Results as JSON: a list with one object to a book.
pub open spec fn results_json(books: Seq<Book>) -> Seq<char> {
    "[\n"@ + book_objects(books, books.len()) + "]\n"@
}

/// Serialise results as JSON.
pub fn json_results(books: &Vec<Book>) -> (r: String)
    ensures
        r@ == results_json(books@),
{
    let mut body = String::new();
    let mut i: usize = 0;
    while i < books.len()
        invariant
            i <= books@.len(),
            body@ == book_objects(books@, i as nat),
        decreases books@.len() - i,
    {
        body.append(&object(&book_members(&books[i]), i + 1 == books.len()));
        i += 1;
    }
    let mut out = "[\n".to_owned();
    out.append(&body);
    out.append("]\n");
    out
}

pub open spec fn truth(b: bool) -> Seq<char> {
    if b {
        "true"@
    } else {
        "false"@
    }
}

fn truth_word(b: bool) -> (r: &'static str)
    ensures
        r@ == truth(b),
{
    if b {
        "true"
    } else {
        "false"
    }
}

/// The members of a past download.
pub open spec fn entry_fields(e: Entry, disk: Disk) -> Seq<Seq<char>> {
    let f0 = seq![
        json_plain("downloaded_at"@, text::decimal(e.at as nat)),
        "    \"downloaded_at_utc\": \""@ + history::timestamp_text(e.at as nat) + "\""@,
        json_text("md5"@, e.md5@),
        json_text("title"@, e.title@),
        json_text("path"@, e.path@),
        json_plain("size_bytes"@, text::decimal(e.size as nat)),
        json_plain("verified"@, truth(e.verified)),
        json_plain("present"@, truth(disk.holds(e.path@))),
    ];
    let f1 = with_text(f0, "authors"@, e.authors);
    match e.extension {
        Some(x) => if x@.len() > 0 {
            f1.push(json_text("extension"@, x@))
        } else {
            f1
        },
        None => f1,
    }
}

fn entry_members(e: &Entry, disk: &Disk) -> (r: Vec<String>)
    ensures
        text::texts(r@) == entry_fields(*e, *disk),
{
    broadcast use text::lemma_texts_push;

    let mut stamp = "    \"downloaded_at_utc\": \"".to_owned();
    stamp.append(&timestamp(e.at));
    stamp.append("\"");
    let mut f: Vec<String> = Vec::new();
    f.push(plain_member("downloaded_at", &dec(e.at)));
    f.push(stamp);
    f.push(text_member("md5", &e.md5));
    f.push(text_member("title", &e.title));
    f.push(text_member("path", &e.path));
    f.push(plain_member("size_bytes", &dec(e.size)));
    f.push(plain_member("verified", truth_word(e.verified)));
    f.push(plain_member("present", truth_word(e.present(disk))));
    assert(text::texts(f@) =~= seq![
        json_plain("downloaded_at"@, text::decimal(e.at as nat)),
        "    \"downloaded_at_utc\": \""@ + history::timestamp_text(e.at as nat) + "\""@,
        json_text("md5"@, e.md5@),
        json_text("title"@, e.title@),
        json_text("path"@, e.path@),
        json_plain("size_bytes"@, text::decimal(e.size as nat)),
        json_plain("verified"@, truth(e.verified)),
        json_plain("present"@, truth(disk.holds(e.path@))),
    ]);
    let mut f = add_text(f, "authors", &e.authors);
    if let Some(x) = &e.extension {
        if !x.as_str().is_empty() {
            f.push(text_member("extension", x));
        }
    }
    f
}

pub open spec fn entry_objects(es: Seq<Entry>, disk: Disk, k: nat) -> Seq<char>
    decreases k,
{
    if k == 0 {
        seq![]
    } else {
        entry_objects(es, disk, (k - 1) as nat) + json_object(
            entry_fields(es[k - 1], disk),
            k == es.len(),
        )
    }
}

/// The download history as JSON.
pub open spec fn history_json(es: Seq<Entry>, disk: Disk) -> Seq<char> {
    "[\n"@ + entry_objects(es, disk, es.len()) + "]\n"@
}

/// Serialise the download history as JSON.
pub fn json_history(es: &Vec<Entry>, disk: &Disk) -> (r: String)
    ensures
        r@ == history_json(es@, *disk),
{
    let mut body = String::new();
    let mut i: usize = 0;
    while i < es.len()
        invariant
            i <= es@.len(),
            body@ == entry_objects(es@, *disk, i as nat),
        decreases es@.len() - i,
    {
        body.append(&object(&entry_members(&es[i], disk), i + 1 == es.len()));
        i += 1;
    }
    let mut out = "[\n".to_owned();
    out.append(&body);
    out.append("]\n");
    out
}

// ---------------------------------------------------------------------------
// Asking which
// ---------------------------------------------------------------------------

/// How often to ask before giving up.
pub const ATTEMPTS: usize = 3;

/// What to say when there is nobody to ask.
pub const NO_TERMINAL: &'static str =
    "no terminal to prompt on — pass `--first` to take the top result or `--no-download` to just list them";

/// What to say when no answer made sense.
pub const GIVEN_UP: &'static str = "could not read a valid selection";

/// What is said of an answer that makes no sense.
pub fn complaint(reason: &str, style: &Style) -> (r: String)
    ensures
        r@ == "  "@ + style.red_text("✗"@) + " "@ + reason@ + "\n"@,
{
    let mut out = "  ".to_owned();
    out.append(&style.red("✗"));
    out.append(" ");
    out.append(reason);
    out.append("\n");
    out
}

/// What an answer to the prompt means.
#[derive(Debug, PartialEq, Eq)]
pub enum Reply {
    /// None of them.
    Decline,
    Picks(Vec<usize>),
    /// Not understood, for this reason; ask again.
    Again(String),
    /// Not understood, for this reason, and once too often.
    GiveUp(String),
}

/// The question.
pub open spec fn question(count: nat, style: Style) -> Seq<char> {
    "\n  "@ + style.bold_text("Select 1-"@ + text::decimal(count)) + " "@ + style.dim_text(
        "(e.g. 3, or 1-4; Enter to cancel) ›"@,
    ) + " "@
}

pub fn prompt_text(count: usize, style: &Style) -> (r: String)
    ensures
        r@ == question(count as nat, *style),
{
    let mut out = "\n  ".to_owned();
    out.append(&style.bold(&concat("Select 1-", &dec(count as u64))));
    out.append(" ");
    out.append(&style.dim("(e.g. 3, or 1-4; Enter to cancel) ›"));
    out.append(" ");
    out
}

/// Whether an answer declines: the end of the input, nothing, or a `q`.
pub open spec fn declines(line: Option<Seq<char>>) -> bool {
    match line {
        None => true,
        Some(l) => text::trimmed(l).len() == 0 || text::ascii_lower(text::trimmed(l))
            == text::ascii_lower("q"@),
    }
}

/// Read an answer to which of `count` results to take. `attempt` counts from
/// zero; a third answer that makes no sense is the last.
pub fn prompt_selection(line: &Option<String>, count: usize, attempt: usize) -> (r: Reply)
    ensures
        ({
            let l = line.deep_view();
            let s = text::trimmed(text::trimmed(l->0));
            let parts = term::parts_from(s, 0, 0);
            match r {
                Reply::Decline => declines(l),
                Reply::Picks(v) => {
                    &&& !declines(l)
                    &&& s.len() > 0
                    &&& term::selection_fault(parts, count as int) is None
                    &&& term::ascending(v@)
                    &&& forall|k: usize| #[trigger] v@.contains(k) <==> term::selects(
                        parts,
                        count as int,
                        k + 1,
                    )
                    &&& forall|i: int| 0 <= i < v@.len() ==> v@[i] < count
                },
                Reply::Again(e) => {
                    &&& !declines(l)
                    &&& attempt + 1 != ATTEMPTS
                    &&& if s.len() == 0 {
                        e@ == "nothing entered"@
                    } else {
                        term::selection_fault(parts, count as int) == Some(e@)
                    }
                },
                Reply::GiveUp(e) => {
                    &&& !declines(l)
                    &&& attempt + 1 == ATTEMPTS
                    &&& if s.len() == 0 {
                        e@ == "nothing entered"@
                    } else {
                        term::selection_fault(parts, count as int) == Some(e@)
                    }
                },
            }
        }),
{
    match line {
        None => Reply::Decline,
        Some(l) => {
            let t = trim(l);
            if t.as_str().is_empty() || same_ignoring_case(&t, "q") {
                return Reply::Decline;
            }
            match parse_selection(&t, count) {
                Ok(picks) => Reply::Picks(picks),
                Err(reason) => if attempt == ATTEMPTS - 1 {
                    Reply::GiveUp(reason)
                } else {
                    Reply::Again(reason)
                },
            }
        },
    }
}

// ---------------------------------------------------------------------------
// Laws
// ---------------------------------------------------------------------------

/// No line of a table is wider than the terminal, whatever the table holds and
/// however narrow the terminal is; and there is a line for each row under the
/// names of the columns and their rule.
pub proof fn lemma_table_fits(
    names: Seq<char>,
    rules: Seq<char>,
    rows: Seq<Seq<PieceView>>,
    width: int,
    style: Style,
)
    requires
        width >= 0,
        !style.enabled,
    ensures
        ({
            let ls = table_lines(names, rules, rows, width, style);
            &&& ls.len() == rows.len() + 2
            &&& forall|i: int| 0 <= i < ls.len() ==> term::cells(#[trigger] ls[i]) <= width
            &&& forall|i: int|
                0 <= i < rows.len() ==> #[trigger] ls[i + 2] == term::truncated(
                    text::trimmed_end(line::bare(line::spaced(rows[i]))),
                    width,
                )
        }),
{
    let ls = table_lines(names, rules, rows, width, style);
    term::lemma_truncated_fits(names, width);
    term::lemma_truncated_fits(rules, width);
    assert forall|i: int| 0 <= i < ls.len() implies term::cells(#[trigger] ls[i]) <= width by {
        if i >= 2 {
            line::lemma_plain_line(line::spaced(rows[i - 2]), width, style);
        }
    }
    assert forall|i: int| 0 <= i < rows.len() implies #[trigger] ls[i + 2] == term::truncated(
        text::trimmed_end(line::bare(line::spaced(rows[i]))),
        width,
    ) by {
        line::lemma_plain_line(line::spaced(rows[i]), width, style);
    }
}

/// On a terminal without colour no line of the results table is wider than the
/// terminal: not the names of the columns, not the rule, not a row, however
/// long a title or any other field is.
pub proof fn lemma_results_fit(books: Seq<Book>, width: int)
    requires
        width >= 0,
    ensures
        ({
            let ls = results_lines(books, width, Style { enabled: false });
            &&& ls.len() == books.len() + 2
            &&& forall|i: int| 0 <= i < ls.len() ==> term::cells(#[trigger] ls[i]) <= width
        }),
{
    let (wt, wa) = shares(room(width, 42));
    lemma_table_fits(
        results_names(wt, wa),
        results_rule(wt, wa),
        results_rows(books, wt, wa),
        width,
        Style { enabled: false },
    );
}

/// The same of the history table.
pub proof fn lemma_history_fits(es: Seq<Entry>, disk: Disk, now: nat, width: int)
    requires
        width >= 0,
    ensures
        ({
            let ls = history_lines(es, disk, now, width, Style { enabled: false });
            &&& ls.len() == es.len() + 2
            &&& forall|i: int| 0 <= i < ls.len() ==> term::cells(#[trigger] ls[i]) <= width
        }),
{
    let (wt, wa) = shares(room(width, 43));
    lemma_table_fits(
        history_names(wt, wa),
        history_rule(wt, wa),
        history_rows(es, disk, now, wt, wa),
        width,
        Style { enabled: false },
    );
}

/// Every row of a table begins with its number, right-aligned, as long as the
/// numbers have three digits and the terminal shows more than that column.
pub proof fn lemma_rows_are_numbered(books: Seq<Book>, width: int, i: int)
    requires
        width >= 6,
        0 <= i < books.len(),
        i < 999,
    ensures
        results_lines(books, width, Style { enabled: false })[i + 2].take(5) == "  "@
            + term::padded_left(text::decimal((i + 1) as nat), 3),
{
    let (wt, wa) = shares(room(width, 42));
    let rows = results_rows(books, wt, wa);
    lemma_table_fits(
        results_names(wt, wa),
        results_rule(wt, wa),
        rows,
        width,
        Style { enabled: false },
    );
    lemma_numbered_row(rows[i], (i + 1) as nat, width);
}

/// The same of the history table.
pub proof fn lemma_history_is_numbered(
    es: Seq<Entry>,
    disk: Disk,
    now: nat,
    width: int,
    i: int,
)
    requires
        width >= 6,
        0 <= i < es.len(),
        i < 999,
    ensures
        history_lines(es, disk, now, width, Style { enabled: false })[i + 2].take(5) == "  "@
            + term::padded_left(text::decimal((i + 1) as nat), 3),
{
    let (wt, wa) = shares(room(width, 43));
    let rows = history_rows(es, disk, now, wt, wa);
    lemma_table_fits(
        history_names(wt, wa),
        history_rule(wt, wa),
        rows,
        width,
        Style { enabled: false },
    );
    lemma_numbered_row(rows[i], (i + 1) as nat, width);
}

proof fn lemma_numbered_row(cells: Seq<PieceView>, number: nat, width: int)
    requires
        width >= 6,
        1 <= number <= 999,
        cells.len() > 0,
        cells[0].text == term::padded_left(text::decimal(number), 3),
    ensures
        term::truncated(
            text::trimmed_end(line::bare(line::spaced(cells))),
            width,
        ).take(5) == "  "@ + term::padded_left(text::decimal(number), 3),
{
    let head = "  "@ + cells[0].text;
    let all = line::bare(line::spaced(cells));
    let t = text::trimmed_end(all);
    line::lemma_spaced_begins(cells);
    lemma_number_cells(number);
    reveal_strlit("  ");
    text::lemma_number_of_decimal(number);
    assert(head.len() == 5);
    let d = text::decimal(number);
    assert(head[4] == d[d.len() - 1]);
    assert(text::is_digit(d[d.len() - 1]));
    assert(all[4] == all.take(5)[4]);
    text::lemma_trimmed_end(all);
    assert(t.len() >= 5);
    assert(t.take(5) =~= head);
    if term::cells(t) > width {
        let rest = t.skip(5);
        assert(t =~= head + rest);
        term::lemma_fitting_concat(head, rest, width - 1);
        term::lemma_cells_concat("  "@, cells[0].text);
        assert(term::cells("  "@) == 2) by {
            assert("  "@ =~= text::repeated(' ', 2));
            term::lemma_cells_repeated(' ', 2);
            assert(term::cell_width(' ') == 1);
        }
        term::lemma_fitting_range(rest, width - 6);
        term::lemma_fitting_range(t, width - 1);
        assert(term::truncated(t, width).take(5) =~= head);
    }
}

/// The number column stays three cells wide for as long as the numbers have
/// three digits.
proof fn lemma_number_cells(n: nat)
    requires
        1 <= n <= 999,
    ensures
        term::cells(term::padded_left(text::decimal(n), 3)) == 3,
        term::padded_left(text::decimal(n), 3).len() == 3,
{
    text::lemma_number_of_decimal(n);
    let s = text::decimal(n);
    assert(s.len() <= 3) by {
        reveal_with_fuel(text::decimal, 4);
    }
    lemma_digit_cells(s);
    term::lemma_padded_width(s, 3);
}

proof fn lemma_digit_cells(s: Seq<char>)
    requires
        text::all_digits(s),
    ensures
        term::cells(s) == s.len(),
    decreases s.len(),
{
    if s.len() > 0 {
        assert(text::is_digit(s[s.len() - 1]));
        assert(text::all_digits(s.drop_last()));
        lemma_digit_cells(s.drop_last());
    }
}

/// A text that no line break divides.
pub open spec fn one_line(s: Seq<char>) -> bool {
    text::free_of(s, '\n') && text::free_of(s, '\r')
}

/// No field that the results table shows of a book holds a line break.
pub open spec fn shows_on_one_line(book: Book) -> bool {
    &&& one_line(book.title@)
    &&& one_line(model::or_empty(book.authors))
    &&& one_line(model::or_empty(book.year))
    &&& one_line(model::or_empty(book.language))
    &&& one_line(model::or_empty(book.extension))
}

/// Where no field of a book holds a line break, the lines of the results are
/// those a reader of the text finds in it: the names of the columns, the rule,
/// and one for each book.
pub proof fn lemma_results_are_read_by_line(books: Seq<Book>, width: int)
    requires
        width >= 0,
        forall|i: int| 0 <= i < books.len() ==> shows_on_one_line(#[trigger] books[i]),
    ensures
        text::lines_of(results_table(books, width, Style { enabled: false })) == results_lines(
            books,
            width,
            Style { enabled: false },
        ),
{
    let style = Style { enabled: false };
    let (wt, wa) = shares(room(width, 42));
    let rows = results_rows(books, wt, wa);
    let ls = results_lines(books, width, style);
    lemma_table_fits(results_names(wt, wa), results_rule(wt, wa), rows, width, style);
    lemma_results_names(wt, wa);
    lemma_cut_line(results_names(wt, wa), width);
    lemma_cut_line(results_rule(wt, wa), width);
    assert forall|i: int| 0 <= i < ls.len() implies text::free_of(#[trigger] ls[i], '\n')
        && text::free_of(ls[i], '\r') by {
        if i >= 2 {
            let book = books[i - 2];
            assert(shows_on_one_line(book));
            lemma_book_cells(book, (i - 1) as nat, wt, wa);
            line::lemma_spaced_is_free(rows[i - 2], '\n');
            line::lemma_spaced_is_free(rows[i - 2], '\r');
            let all = line::bare(line::spaced(rows[i - 2]));
            text::lemma_trimmed_end(all);
            lemma_cut_line(text::trimmed_end(all), width);
            assert(ls[i - 2 + 2] == term::truncated(text::trimmed_end(all), width));
        }
    }
    text::lemma_lines_of_file(ls);
}

proof fn lemma_cut_line(s: Seq<char>, width: int)
    requires
        one_line(s),
    ensures
        one_line(term::truncated(s, width)),
{
    if term::cells(s) > width && width > 0 {
        term::lemma_fitting_range(s, width - 1);
    }
}

proof fn lemma_column_line(s: Seq<char>, width: int)
    requires
        one_line(s),
    ensures
        one_line(column(s, width)),
        one_line(column_left(s, width)),
{
    lemma_cut_line(s, width);
}

proof fn lemma_results_names(wt: int, wa: int)
    ensures
        one_line(results_names(wt, wa)),
        one_line(results_rule(wt, wa)),
{
    reveal_strlit("  ");
    reveal_strlit("#");
    reveal_strlit("Title");
    reveal_strlit("Author");
    reveal_strlit("Year");
    reveal_strlit("Lang");
    reveal_strlit("Size");
    reveal_strlit("Fmt");
    let a = term::padded_left("#"@, W_INDEX as int);
    let b = term::padded("Title"@, wt);
    let c = term::padded("Author"@, wa);
    let d = term::padded("Year"@, W_YEAR as int);
    let e = term::padded("Lang"@, W_LANG as int);
    let f = term::padded_left("Size"@, W_SIZE as int);
    let g = term::padded("Fmt"@, W_EXT as int);
    lemma_row_line(a, b, c, d, e, f, g);
    text::lemma_trimmed_end(row_of(a, b, c, d, e, f, g));
    lemma_row_line(
        rule(W_INDEX as int),
        rule(wt),
        rule(wa),
        rule(W_YEAR as int),
        rule(W_LANG as int),
        rule(W_SIZE as int),
        rule(W_EXT as int),
    );
}

proof fn lemma_row_line(
    a: Seq<char>,
    b: Seq<char>,
    c: Seq<char>,
    d: Seq<char>,
    e: Seq<char>,
    f: Seq<char>,
    g: Seq<char>,
)
    requires
        one_line(a),
        one_line(b),
        one_line(c),
        one_line(d),
        one_line(e),
        one_line(f),
        one_line(g),
    ensures
        one_line(row_of(a, b, c, d, e, f, g)),
{
    reveal_strlit("  ");
    let sp = "  "@;
    lemma_joined_line(sp, a);
    lemma_joined_line(sp + a, sp);
    lemma_joined_line(sp + a + sp, b);
    lemma_joined_line(sp + a + sp + b, sp);
    lemma_joined_line(sp + a + sp + b + sp, c);
    lemma_joined_line(sp + a + sp + b + sp + c, sp);
    lemma_joined_line(sp + a + sp + b + sp + c + sp, d);
    lemma_joined_line(sp + a + sp + b + sp + c + sp + d, sp);
    lemma_joined_line(sp + a + sp + b + sp + c + sp + d + sp, e);
    lemma_joined_line(sp + a + sp + b + sp + c + sp + d + sp + e, sp);
    lemma_joined_line(sp + a + sp + b + sp + c + sp + d + sp + e + sp, f);
    lemma_joined_line(sp + a + sp + b + sp + c + sp + d + sp + e + sp + f, sp);
    lemma_joined_line(sp + a + sp + b + sp + c + sp + d + sp + e + sp + f + sp, g);
}

proof fn lemma_joined_line(a: Seq<char>, b: Seq<char>)
    requires
        one_line(a),
        one_line(b),
    ensures
        one_line(a + b),
{
}

proof fn lemma_digits_line(n: nat)
    ensures
        one_line(text::decimal(n)),
{
    text::lemma_number_of_decimal(n);
    let s = text::decimal(n);
    assert forall|i: int| 0 <= i < s.len() implies #[trigger] s[i] != '\n' && s[i] != '\r' by {
        assert(text::is_digit(s[i]));
    }
}

proof fn lemma_units_line(n: nat)
    ensures
        one_line(model::shown_unit(n).1),
        one_line(" B"@),
        one_line("."@),
{
    reveal_strlit(" B");
    reveal_strlit(" KB");
    reveal_strlit(" MB");
    reveal_strlit(" GB");
    reveal_strlit(" TB");
    reveal_strlit(".");
}

/// Figures before and after a point, with a unit.
proof fn lemma_figures_line(a: nat, b: nat, name: Seq<char>)
    requires
        one_line(name),
        one_line("."@),
    ensures
        one_line(text::decimal(a) + name),
        one_line(text::decimal(a) + "."@ + text::decimal(b) + name),
        one_line(text::decimal(a) + "."@ + text::zero_padded(b, 2) + name),
{
    lemma_digits_line(a);
    lemma_digits_line(b);
    lemma_joined_line(text::decimal(a), "."@);
    lemma_joined_line(text::decimal(a) + "."@, text::decimal(b));
    assert(one_line(text::zero_padded(b, 2)));
    lemma_joined_line(text::decimal(a) + "."@, text::zero_padded(b, 2));
}

proof fn lemma_bytes_line(n: nat)
    ensures
        one_line(model::bytes_text(n)),
{
    let (u, name) = model::shown_unit(n);
    lemma_units_line(n);
    let h = (n * 100 + u / 2) / u;
    let t = (n * 10 + u / 2) / u;
    lemma_figures_line(n, 0, " B"@);
    lemma_figures_line(h / 100, h % 100, name);
    lemma_figures_line(t / 10, t % 10, name);
    lemma_figures_line((n + u / 2) / u, 0, name);
}

proof fn lemma_first_author_line(all: Seq<char>)
    requires
        one_line(all),
    ensures
        one_line(text::trimmed(text::pieces(all, ';', 0)[0])),
{
    text::lemma_first_at(all, ';', 0);
    let first = text::pieces(all, ';', 0)[0];
    assert(one_line(first));
    text::lemma_trimmed_range(first);
}

proof fn lemma_book_cells(book: Book, number: nat, wt: int, wa: int)
    requires
        shows_on_one_line(book),
    ensures
        forall|i: int|
            0 <= i < 7 ==> one_line(#[trigger] results_cells(book, number, wt, wa)[i].text),
{
    lemma_digits_line(number);
    lemma_column_line(book.title@, wt);
    reveal_strlit("Unknown");
    assert(one_line(book.authors_text()));
    lemma_first_author_line(book.authors_text());
    lemma_column_line(book.first_author_text(), wa);
    lemma_column_line(model::or_empty(book.year), W_YEAR as int);
    lemma_column_line(model::or_empty(book.language), W_LANG as int);
    match book.size_bytes {
        Some(n) => lemma_bytes_line(n as nat),
        None => {},
    }
    lemma_column_line(book.size_text(), W_SIZE as int);
    lemma_column_line(book.ext_text(), W_EXT as int);
}

/// Where no title, author or format of an entry holds a line break, the lines
/// of the history are those a reader of the text finds in it.
pub proof fn lemma_history_is_read_by_line(es: Seq<Entry>, disk: Disk, now: nat, width: int)
    requires
        width >= 0,
        forall|i: int|
            0 <= i < es.len() ==> one_line((#[trigger] es[i]).title@) && one_line(
                model::or_empty(es[i].authors),
            ) && one_line(model::or_empty(es[i].extension)),
    ensures
        text::lines_of(history_table(es, disk, now, width, Style { enabled: false }))
            == history_lines(es, disk, now, width, Style { enabled: false }),
{
    let style = Style { enabled: false };
    let (wt, wa) = shares(room(width, 43));
    let rows = history_rows(es, disk, now, wt, wa);
    let ls = history_lines(es, disk, now, width, style);
    lemma_table_fits(history_names(wt, wa), history_rule(wt, wa), rows, width, style);
    lemma_history_names(wt, wa);
    lemma_cut_line(history_names(wt, wa), width);
    lemma_cut_line(history_rule(wt, wa), width);
    assert forall|i: int| 0 <= i < ls.len() implies text::free_of(#[trigger] ls[i], '\n')
        && text::free_of(ls[i], '\r') by {
        if i >= 2 {
            let e = es[i - 2];
            lemma_entry_cells(e, (i - 1) as nat, disk, now, wt, wa);
            line::lemma_spaced_is_free(rows[i - 2], '\n');
            line::lemma_spaced_is_free(rows[i - 2], '\r');
            let all = line::bare(line::spaced(rows[i - 2]));
            text::lemma_trimmed_end(all);
            lemma_cut_line(text::trimmed_end(all), width);
            assert(ls[i - 2 + 2] == term::truncated(text::trimmed_end(all), width));
        }
    }
    text::lemma_lines_of_file(ls);
}

proof fn lemma_history_names(wt: int, wa: int)
    ensures
        one_line(history_names(wt, wa)),
        one_line(history_rule(wt, wa)),
{
    reveal_strlit("#");
    reveal_strlit("");
    reveal_strlit("Title");
    reveal_strlit("Author");
    reveal_strlit("When");
    reveal_strlit("Size");
    reveal_strlit("Fmt");
    let a = term::padded_left("#"@, W_INDEX as int);
    let b = term::padded(""@, W_MARK as int);
    let c = term::padded("Title"@, wt);
    let d = term::padded("Author"@, wa);
    let e = term::padded("When"@, W_WHEN as int);
    let f = term::padded_left("Size"@, W_SIZE as int);
    let g = term::padded("Fmt"@, W_EXT as int);
    lemma_row_line(a, b, c, d, e, f, g);
    text::lemma_trimmed_end(row_of(a, b, c, d, e, f, g));
    lemma_row_line(
        rule(W_INDEX as int),
        rule(W_MARK as int),
        rule(wt),
        rule(wa),
        rule(W_WHEN as int),
        rule(W_SIZE as int),
        rule(W_EXT as int),
    );
}

proof fn lemma_date_line(at: nat)
    ensures
        one_line(history::date_text(at)),
{
    let (y, m, d) = history::civil(at as int / 86400);
    reveal_strlit("-");
    lemma_digits_line(y as nat);
    lemma_digits_line(m as nat);
    lemma_digits_line(d as nat);
    let a = text::zero_padded(y as nat, 4);
    let b = text::zero_padded(m as nat, 2);
    let c = text::zero_padded(d as nat, 2);
    assert(one_line(a) && one_line(b) && one_line(c) && one_line("-"@));
    lemma_joined_line(a, "-"@);
    lemma_joined_line(a + "-"@, b);
    lemma_joined_line(a + "-"@ + b, "-"@);
    lemma_joined_line(a + "-"@ + b + "-"@, c);
}

proof fn lemma_when_line(at: nat, now: nat)
    ensures
        one_line(history::when_text(at, now)),
{
    let elapsed = (now - at) as nat;
    reveal_strlit("just now");
    reveal_strlit("yesterday");
    reveal_strlit(" min ago");
    reveal_strlit("h ago");
    reveal_strlit("d ago");
    lemma_digits_line(elapsed / 60);
    lemma_digits_line(elapsed / 3600);
    lemma_digits_line(elapsed / 86400);
    lemma_joined_line(text::decimal(elapsed / 60), " min ago"@);
    lemma_joined_line(text::decimal(elapsed / 3600), "h ago"@);
    lemma_joined_line(text::decimal(elapsed / 86400), "d ago"@);
    lemma_date_line(at);
}

proof fn lemma_entry_cells(e: Entry, number: nat, disk: Disk, now: nat, wt: int, wa: int)
    requires
        one_line(e.title@),
        one_line(model::or_empty(e.authors)),
        one_line(model::or_empty(e.extension)),
    ensures
        forall|i: int|
            0 <= i < 7 ==> one_line(
                #[trigger] history_cells(e, number, disk, now, wt, wa)[i].text,
            ),
{
    reveal_strlit("");
    reveal_strlit("!");
    lemma_digits_line(number);
    lemma_column_line(e.title@, wt);
    lemma_first_author_line(model::or_empty(e.authors));
    lemma_column_line(e.first_author_text(), wa);
    lemma_when_line(e.at as nat, now);
    lemma_column_line(history::when_text(e.at as nat, now), W_WHEN as int);
    lemma_bytes_line(e.size as nat);
    lemma_column_line(model::bytes_text(e.size as nat), W_SIZE as int);
    lemma_column_line(e.ext_text(), W_EXT as int);
}

/// Whether a character is a hexadecimal digit.
pub open spec fn is_hex(c: char) -> bool {
    '0' <= c <= '9' || 'a' <= c <= 'f' || 'A' <= c <= 'F'
}

pub open spec fn hex_value(c: char) -> int {
    if '0' <= c <= '9' {
        c as u32 - 48
    } else if 'a' <= c <= 'f' {
        c as u32 - 87
    } else {
        c as u32 - 55
    }
}

/// The number that four hexadecimal digits from `i` on make.
pub open spec fn hex_code(s: Seq<char>, i: int) -> int {
    4096 * hex_value(s[i]) + 256 * hex_value(s[i + 1]) + 16 * hex_value(s[i + 2]) + hex_value(
        s[i + 3],
    )
}

/// The character that an escape of two characters stands for.
pub open spec fn short_escape(c: char) -> Option<char> {
    if c == '"' || c == '\\' || c == '/' {
        Some(c)
    } else if c == 'n' {
        Some('\n')
    } else if c == 'r' {
        Some('\r')
    } else if c == 't' {
        Some('\t')
    } else if c == 'b' {
        Some('\u{8}')
    } else if c == 'f' {
        Some('\u{c}')
    } else {
        None
    }
}

/// The character that a text inside a JSON string begins with, and how many
/// characters are spent on it: one for a character that stands for itself, two
/// or six for an escape. Nothing for a quote, a raw control character, an
/// escape that is not known or cut short, and a surrogate, paired or not.
pub open spec fn json_first(s: Seq<char>) -> Option<(char, int)> {
    if s.len() == 0 || s[0] == '"' || (s[0] as u32) < 0x20 {
        None
    } else if s[0] != '\\' {
        Some((s[0], 1))
    } else if s.len() >= 2 && short_escape(s[1]) is Some {
        Some((short_escape(s[1])->0, 2))
    } else if s.len() >= 6 && s[1] == 'u' && is_hex(s[2]) && is_hex(s[3]) && is_hex(s[4])
        && is_hex(s[5]) && !(0xD800 <= hex_code(s, 2) <= 0xDFFF) {
        Some((hex_code(s, 2) as u32 as char, 6))
    } else {
        None
    }
}

/// What a strict JSON reader makes of a string behind its opening quote: the
/// quote that ends it is the last character, and everything before is in order.
pub open spec fn json_rest(s: Seq<char>) -> Option<Seq<char>>
    decreases s.len(),
{
    if s.len() == 1 && s[0] == '"' {
        Some(seq![])
    } else {
        match json_first(s) {
            Some((c, n)) => if n <= s.len() {
                match json_rest(s.skip(n)) {
                    Some(t) => Some(seq![c] + t),
                    None => None,
                }
            } else {
                None
            },
            None => None,
        }
    }
}

/// What a strict JSON reader makes of a string, quotes included.
pub open spec fn json_string(s: Seq<char>) -> Option<Seq<char>> {
    if s.len() > 0 && s[0] == '"' {
        json_rest(s.skip(1))
    } else {
        None
    }
}

/// An escaped character is read back as itself, whatever follows.
proof fn lemma_json_first(c: char, rest: Seq<char>)
    ensures
        json_first(json_char(c) + rest) == Some((c, json_char(c).len() as int)),
{
    let head = json_char(c);
    let w = head + rest;
    assert forall|i: int| 0 <= i < head.len() implies w[i] == head[i] by {}
    if head.len() == 6 {
        let h = (c as u32 / 16) as int;
        let l = (c as u32 % 16) as int;
        let code = c as u32;
        assert(w[0] == '\\' && w[1] == 'u' && w[2] == '0' && w[3] == '0');
        assert(w[4] == text::hex_char(h) && w[5] == text::hex_char(l));
        assert(hex_value(text::hex_char(h)) == h && hex_value(text::hex_char(l)) == l);
        assert(hex_code(w, 2) == code);
        vstd::utf8::char_u32_cast(c, code);
        assert(short_escape('u') is None);
    } else if head.len() == 2 {
        assert(w[0] == '\\' && w[1] == head[1]);
    } else {
        assert(w[0] == c);
    }
}

proof fn lemma_json_rest(s: Seq<char>)
    ensures
        json_rest(json_escaped(s) + seq!['"']) == Some(s),
    decreases s.len(),
{
    let w = json_escaped(s) + seq!['"'];
    if s.len() == 0 {
        assert(w =~= seq!['"']);
        assert(s =~= seq![]);
    } else {
        let head = json_char(s[0]);
        let rest = json_escaped(s.skip(1)) + seq!['"'];
        lemma_json_rest(s.skip(1));
        lemma_json_first(s[0], rest);
        assert(w =~= head + rest);
        assert(w.len() > 1);
        assert(w.skip(head.len() as int) =~= rest);
        assert(seq![s[0]] + s.skip(1) =~= s);
    }
}

/// A strict JSON reader gets back the text that was escaped, whatever it was: it
/// meets no quote that ends the string early, no raw control character and no
/// escape it does not know.
pub proof fn lemma_json_round_trip(s: Seq<char>)
    ensures
        json_string("\""@ + json_escaped(s) + "\""@) == Some(s),
{
    let w = "\""@ + json_escaped(s) + "\""@;
    reveal_strlit("\"");
    assert("\""@ =~= seq!['"']);
    assert(w.skip(1) =~= json_escaped(s) + seq!['"']);
    lemma_json_rest(s);
}

} // verus!
