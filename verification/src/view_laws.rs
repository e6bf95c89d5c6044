//! What holds of what the interface draws.

use vstd::prelude::*;
use vstd::string::*;

use crate::history::{Disk, Entry};
use crate::html;
use crate::model;
use crate::model::Book;
use crate::order::{Order, Sorting};
use crate::screen::{Rect, RowView};
use crate::text;
use crate::tui;
use crate::tui::{AppView, Mode, Tab};
use crate::tui_keys;
use crate::view;

verus! {

// ---------------------------------------------------------------------------
// The lists
// ---------------------------------------------------------------------------

proof fn lemma_result_rows(a: AppView, n: nat)
    requires
        n <= a.visible.len(),
        forall|i: int| 0 <= i < a.visible.len() ==> #[trigger] a.visible[i] < a.results.len(),
    ensures
        a.result_rows(n).len() == n,
        forall|k: int| 0 <= k < n ==> #[trigger] a.result_rows(n)[k] == a.result_row(k),
    decreases n,
{
    if n > 0 {
        lemma_result_rows(a, (n - 1) as nat);
        assert(a.visible[n - 1] < a.results.len());
    }
}

/// The text of a cell of a row.
pub open spec fn cell(r: RowView, i: int) -> Seq<char> {
    r.cells[i].text
}

/// The list of results has a row to each result that shows, in their order, and
/// under the name of each column what the record says of it.
pub proof fn lemma_the_results_are_listed(a: AppView, area: Rect, k: int)
    requires
        0 <= k < a.visible.len(),
        forall|i: int| 0 <= i < a.visible.len() ==> #[trigger] a.visible[i] < a.results.len(),
    ensures
        ({
            let drawn = a.results_drawn(area);
            let b = a.results[a.visible[k] as int];
            let rows = drawn[0]->rows;
            let names = drawn[0]->header;
            &&& drawn.len() == 1
            &&& drawn[0] is Table
            &&& drawn[0]->Table_area == area
            &&& drawn[0]->selected == a.row
            &&& rows.len() == a.visible.len()
            &&& names.len() == 8
            &&& rows[k].cells.len() == 8
            &&& names[1] == "TITLE" && cell(rows[k], 1) == b.title@
            &&& names[2] == "AUTHOR" && cell(rows[k], 2) == b.first_author_text()
            &&& names[3] == "YEAR" && cell(rows[k], 3) == model::or_empty(b.year)
            &&& names[4] == "LANGUAGE" && cell(rows[k], 4) == model::or_empty(b.language)
            &&& names[5] == "SIZE" && cell(rows[k], 5) == b.size_text()
            &&& names[6] == "FMT" && cell(rows[k], 6) == view::spaced(b.ext_text())
            &&& names[7] == "STATUS"
        }),
{
    lemma_result_rows(a, a.visible.len());
    assert(a.result_rows(a.visible.len())[k] == a.result_row(k));
}

proof fn lemma_owned(es: Seq<Entry>, md5: Seq<char>, i: int)
    requires
        0 <= i <= es.len(),
    ensures
        tui::entry_with(es, md5, i) is Some <==> exists|k: int|
            i <= k < es.len() && (#[trigger] es[k]).md5@ == md5,
    decreases es.len() - i,
{
    if i < es.len() {
        if es[i].md5@ == md5 {
            assert(i <= i < es.len() && es[i].md5@ == md5);
        } else {
            lemma_owned(es, md5, i + 1);
            if exists|k: int| i <= k < es.len() && (#[trigger] es[k]).md5@ == md5 {
                let k = choose|k: int| i <= k < es.len() && (#[trigger] es[k]).md5@ == md5;
                assert(i + 1 <= k);
            }
        }
    }
}

/// A result's row says how its own download stands; where there is none, whether
/// it is marked, and whether a past download has its MD5.
pub proof fn lemma_a_row_says_how_its_download_stands(a: AppView, k: int)
    requires
        0 <= k < a.visible.len(),
        a.visible[k] < a.results.len(),
        a.marked.len() == a.results.len(),
    ensures
        ({
            let r = a.result_row(k);
            let md5 = a.results[a.visible[k] as int].md5@;
            let owned = exists|i: int|
                0 <= i < a.library.len() && (#[trigger] a.library[i]).md5@ == md5;
            let marked = a.marked[a.visible[k] as int];
            &&& a.jobs.contains_key(md5) && a.jobs[md5] is Queued ==> cell(r, 0) == "↓"@ && cell(
                r,
                7,
            ) == "queued"@
            &&& a.jobs.contains_key(md5) && a.jobs[md5] is Running ==> cell(r, 0) == "↓"@
            &&& a.jobs.contains_key(md5) && a.jobs[md5] is Saved ==> cell(r, 0) == "✓"@ && cell(
                r,
                7,
            ) == "saved"@
            &&& a.jobs.contains_key(md5) && a.jobs[md5] is Failed ==> cell(r, 0) == "✗"@ && cell(
                r,
                7,
            ) == "failed"@
            &&& !a.jobs.contains_key(md5) && owned ==> cell(r, 7) == "library"@
            &&& !a.jobs.contains_key(md5) && !owned ==> cell(r, 7) == Seq::<char>::empty()
            &&& !a.jobs.contains_key(md5) && (marked || owned) ==> cell(r, 0) == "●"@
            &&& !a.jobs.contains_key(md5) && !marked && !owned ==> cell(r, 0) == " "@
        }),
{
    lemma_owned(a.library, a.results[a.visible[k] as int].md5@, 0);
}

proof fn lemma_library_rows(a: AppView, n: nat, disk: Disk, now: u64)
    requires
        n <= a.shown.len(),
        forall|i: int| 0 <= i < a.shown.len() ==> #[trigger] a.shown[i] < a.library.len(),
    ensures
        a.library_rows(n, disk, now).len() == n,
        forall|k: int|
            0 <= k < n ==> #[trigger] a.library_rows(n, disk, now)[k] == view::entry_row(
                a.library[a.shown[k] as int],
                k,
                a.library_row == Some(k as usize),
                disk.holds(a.library[a.shown[k] as int].path@),
                now,
            ),
    decreases n,
{
    if n > 0 {
        lemma_library_rows(a, (n - 1) as nat, disk, now);
        assert(a.shown[n - 1] < a.library.len());
    }
}

/// The library has a row to each download that shows, in their order; one whose
/// file has gone says so.
pub proof fn lemma_the_library_is_listed(a: AppView, area: Rect, disk: Disk, now: u64, k: int)
    requires
        0 <= k < a.shown.len(),
        forall|i: int| 0 <= i < a.shown.len() ==> #[trigger] a.shown[i] < a.library.len(),
    ensures
        ({
            let drawn = a.library_drawn(area, disk, now);
            let e = a.library[a.shown[k] as int];
            let rows = drawn[0]->rows;
            &&& drawn.len() == 1
            &&& drawn[0] is Table
            &&& drawn[0]->selected == a.library_row
            &&& rows.len() == a.shown.len()
            &&& disk.holds(e.path@) ==> cell(rows[k], 0) == "•"@ && cell(rows[k], 1) == e.title@
            &&& !disk.holds(e.path@) ==> cell(rows[k], 0) == "!"@ && cell(rows[k], 1) == e.title@
                + " (missing)"@
            &&& cell(rows[k], 2) == e.first_author_text()
            &&& cell(rows[k], 3) == crate::history::when_text(e.at as nat, now as nat)
            &&& cell(rows[k], 4) == model::bytes_text(e.size as nat)
            &&& cell(rows[k], 5) == view::spaced(e.ext_text())
        }),
{
    lemma_library_rows(a, a.shown.len(), disk, now);
    let rows = a.library_rows(a.shown.len(), disk, now);
    assert(rows[k] == view::entry_row(
        a.library[a.shown[k] as int],
        k,
        a.library_row == Some(k as usize),
        disk.holds(a.library[a.shown[k] as int].path@),
        now,
    ));
}

// ---------------------------------------------------------------------------
// The details
// ---------------------------------------------------------------------------

/// The strip under the results tells of the highlighted one: its title, its
/// authors, its MD5, and at the end how its own download stands.
pub proof fn lemma_the_strip_tells_of_the_highlighted_result(a: AppView, area: Rect, place: int)
    requires
        tui_keys::on_result(a, place),
    ensures
        ({
            let b = a.results[place];
            let last = a.details_drawn(area).widgets.last();
            let lines = last->lines;
            let n = lines.len() as int;
            &&& last is Text
            &&& n >= 5
            &&& lines[0][0].text == b.title@
            &&& lines[1][0].text == b.authors_text()
            &&& lines[n - 3][1].text == b.md5@
            &&& a.error is Some ==> lines[n - 1][0].text == a.error->0
            &&& a.error is None && !a.jobs.contains_key(b.md5@) ==> lines[n - 1][1].text
                == a.settings.dest_dir@
            &&& a.error is None && a.jobs.contains_key(b.md5@) && a.jobs[b.md5@] is Saved
                ==> lines[n - 1][0].text == "✓ saved as "@ + a.jobs[b.md5@]->Saved_0
                + " — MD5 verified"@
            &&& a.error is None && a.jobs.contains_key(b.md5@) && a.jobs[b.md5@] is Failed
                ==> lines[n - 1][0].text == "✗ "@ + a.jobs[b.md5@]->Failed_0
        }),
{
    let b = a.results[place];
    assert(a.book() == Some(b));
    let w = a.details_drawn(area).widgets;
    assert(w.last() == crate::screen::text_view(
        a.strip_text(crate::screen::inside(area)),
        a.detail_lines(b),
        crate::screen::Align::Left,
        true,
    ));
}

/// The strip under the library tells of the highlighted download: its title, its
/// authors, where it is, and whether its file has gone.
pub proof fn lemma_the_strip_tells_of_the_highlighted_download(
    a: AppView,
    area: Rect,
    disk: Disk,
    place: int,
)
    requires
        tui_keys::on_download(a, place),
    ensures
        ({
            let e = a.library[place];
            let last = a.library_details_drawn(area, disk).widgets.last();
            let lines = last->lines;
            &&& last is Text
            &&& lines.len() == 6
            &&& lines[0][0].text == e.title@
            &&& lines[1][0].text == model::or_empty(e.authors)
            &&& lines[2][0].text == e.path@
            &&& lines[3][2].text == (if e.verified {
                "✓ MD5 verified"@
            } else {
                "unverified"@
            })
            &&& a.error is None && disk.holds(e.path@) ==> lines[5][0].text == "⏎ open"@
            &&& a.error is None && !disk.holds(e.path@) ==> lines[5][0].text
                == "⚠ the file is no longer there — press d to forget it"@
        }),
{
    let e = a.library[place];
    assert(a.entry() == Some(e));
    let w = a.library_details_drawn(area, disk).widgets;
    assert(w.last() == crate::screen::text_view(
        a.strip_text(crate::screen::inside(area)),
        a.entry_lines(e, disk.holds(e.path@)),
        crate::screen::Align::Left,
        true,
    ));
}

// ---------------------------------------------------------------------------
// The box and the bars
// ---------------------------------------------------------------------------

/// The box shows what was typed into it; empty and at rest it says what it is
/// for.
pub proof fn lemma_the_box_shows_its_text(a: AppView)
    ensures
        a.tab == Tab::Search && a.query.len() > 0 ==> a.prompt_line()[1].text == a.query,
        a.tab == Tab::Library && a.filter.len() > 0 ==> a.prompt_line()[1].text == a.filter,
        a.mode == Mode::Editing ==> a.prompt_line()[1].text == a.box_text(),
        a.mode == Mode::Editing ==> a.prompt_line()[0].text == "❯ "@,
        a.mode != Mode::Editing ==> a.prompt_line()[0].text == "  "@,
{
}

/// The tab that shows is the one that stands out, and the library's says how many
/// books it has.
pub proof fn lemma_the_tab_that_shows_stands_out(a: AppView)
    ensures
        a.tabs_line()[0].text == "  1 SEARCH  "@,
        a.tabs_line()[2].text == "  2 LIBRARY "@ + text::decimal(a.library.len()) + "  "@,
        a.tab == Tab::Search ==> a.tabs_line()[0].look.bg is Some && a.tabs_line()[2].look.bg is None,
        a.tab == Tab::Library ==> a.tabs_line()[2].look.bg is Some && a.tabs_line()[0].look.bg is None,
{
}

/// The count says how many results show, and of how many where some do not.
pub proof fn lemma_the_counter(a: AppView)
    ensures
        a.visible.len() < a.results.len() ==> a.counter().text == text::decimal(a.visible.len())
            + " of "@ + text::decimal(a.results.len()) + " shown "@,
        a.visible.len() >= a.results.len() ==> a.counter().text == text::decimal(a.results.len())
            + " results "@,
{
}

/// Each choice of the menu of orders stands under its name, the highlighted one
/// is marked, and the one in force says which way it goes.
pub proof fn lemma_the_menu_of_orders(a: AppView, i: int)
    requires
        0 <= i < tui_keys::menu_of(a.tab).len(),
    ensures
        ({
            let o = tui_keys::menu_of(a.tab)[i];
            let l = a.menu_lines()[i];
            &&& a.menu_lines().len() == tui_keys::menu_of(a.tab).len()
            &&& o == Order::Title ==> l[1].text == "title"@
            &&& o == Order::Author ==> l[1].text == "author"@
            &&& o == Order::Year ==> l[1].text == "year"@
            &&& o == Order::Size ==> l[1].text == "size"@
            &&& o == Order::Natural && a.tab == Tab::Search ==> l[1].text == "relevance"@
            &&& o == Order::Natural && a.tab == Tab::Library ==> l[1].text == "date added"@
            &&& a.menu == i ==> l[0].text == " › "@
            &&& a.menu != i ==> l[0].text == "   "@
            &&& tui_keys::sorting_of(a).order != o ==> l[2].text == Seq::<char>::empty()
        }),
{
}

/// Names go up unless they are turned round, and numbers go down.
pub proof fn lemma_the_arrow_of_an_order(backwards: bool)
    ensures
        view::direction(Sorting { order: Order::Title, backwards }) == (if backwards {
            " ↓"@
        } else {
            " ↑"@
        }),
        view::direction(Sorting { order: Order::Author, backwards }) == (if backwards {
            " ↓"@
        } else {
            " ↑"@
        }),
        view::direction(Sorting { order: Order::Size, backwards }) == (if backwards {
            " ↑"@
        } else {
            " ↓"@
        }),
        view::direction(Sorting { order: Order::Year, backwards }) == (if backwards {
            " ↑"@
        } else {
            " ↓"@
        }),
{
}

/// What is marked adds up: one more book adds its own size, and an unknown one
/// nothing.
pub proof fn lemma_sizes_add_up(books: Seq<Book>, b: Book)
    ensures
        view::total_size(books.push(b)) == view::total_size(books) + (match b.size_bytes {
            Some(n) => n as nat,
            None => 0,
        }),
        view::total_size(seq![]) == 0,
{
    assert(books.push(b).drop_last() =~= books);
}

/// The same of the library.
pub proof fn lemma_the_library_adds_up(es: Seq<Entry>, e: Entry)
    ensures
        view::shelf_size(es.push(e)) == view::shelf_size(es) + e.size as nat,
        view::shelf_size(seq![]) == 0,
{
    assert(es.push(e).drop_last() =~= es);
}

// ---------------------------------------------------------------------------
// Pages
// ---------------------------------------------------------------------------

proof fn lemma_first_tag(p: Seq<char>, i: int, a: int)
    requires
        0 <= i <= a,
        a + 4 <= p.len(),
        forall|k: int| i <= k < a ==> (#[trigger] p[k]) != '<',
        p[a] == '<',
        p[a + 1] == 'i',
        p[a + 2] == 'm',
        p[a + 3] == 'g',
    ensures
        text::find_from(text::ascii_lower(p), "<img"@, i) == Some(a),
    decreases a - i,
{
    reveal_strlit("<img");
    let l = text::ascii_lower(p);
    let w = "<img"@;
    if i < a {
        if text::stands_at(l, w, i) {
            assert(l.subrange(i, i + 4)[0] == w[0]);
            assert(l[i] == '<');
            assert(p[i] == '<');
        }
        lemma_first_tag(p, i + 1, a);
    } else {
        assert(l.subrange(a, a + 4) =~= w);
    }
}

/// A picture that a page names is found by what it names, as it is written there,
/// and reading goes on behind its tag.
pub proof fn lemma_a_picture_on_a_page(p: Seq<char>, i: int, before: Seq<char>, src: Seq<char>, after: Seq<char>)
    requires
        0 <= i,
        i <= p.len(),
        p.skip(i) == before + "<img src=\""@ + src + "\">"@ + after,
        text::free_of(before, '<'),
        text::free_of(src, '"'),
        text::free_of(src, '>'),
    ensures
        html::srcs_from(p, i) == seq![src] + html::srcs_from(
            p,
            i + before.len() + 11 + src.len(),
        ),
{
    reveal_strlit("<img src=\"");
    reveal_strlit("\">");
    reveal_strlit("src=");
    let t = "<img src=\""@;
    let q = p.skip(i);
    let n = before.len() as int;
    let m = src.len() as int;
    let a = i + n;
    assert(t.len() == 10 && "\">"@.len() == 2);
    assert(q == before + t + src + "\">"@ + after);
    assert(q.len() == n + 10 + m + 2 + after.len());
    assert(q.len() == p.len() - i);
    assert forall|k: int| 0 <= k < q.len() implies #[trigger] q[k] == p[i + k] by {}
    assert forall|k: int| i <= k < a implies (#[trigger] p[k]) != '<' by {
        assert(p[k] == q[k - i]);
        assert(q[k - i] == before[k - i]);
    }
    assert forall|k: int| 0 <= k < 10 implies p[a + k] == t[k] by {
        assert(p[a + k] == q[n + k]);
    }
    assert(p[a] == '<' && p[a + 1] == 'i' && p[a + 2] == 'm' && p[a + 3] == 'g' && p[a + 4] == ' '
        && p[a + 5] == 's' && p[a + 6] == 'r' && p[a + 7] == 'c' && p[a + 8] == '=' && p[a + 9]
        == '"') by {
        assert(p[a + 0] == t[0] && p[a + 1] == t[1] && p[a + 2] == t[2] && p[a + 3] == t[3]);
        assert(p[a + 4] == t[4] && p[a + 5] == t[5] && p[a + 6] == t[6] && p[a + 7] == t[7]);
        assert(p[a + 8] == t[8] && p[a + 9] == t[9]);
    }
    lemma_first_tag(p, i, a);
    assert forall|k: int| 0 <= k < m implies p[a + 10 + k] == src[k] by {
        assert(p[a + 10 + k] == q[n + 10 + k]);
    }
    assert(p[a + 10 + m] == '"') by {
        assert(p[a + 10 + m] == q[n + 10 + m]);
        assert("\">"@[0] == '"');
    }
    assert(p[a + 11 + m] == '>') by {
        assert(p[a + 11 + m] == q[n + 11 + m]);
        assert("\">"@[1] == '>');
    }
    text::lemma_first_at(p, '>', a + 4);
    let e = text::first_at(p, '>', a + 4);
    assert(e == a + 11 + m) by {
        if e < a + 11 + m {
            if e < a + 10 {
                let k = e - a;
                assert(p[a + k] == t[k]);
            } else if e < a + 10 + m {
                assert(p[e] == src[e - a - 10]);
            }
        }
    }
    let l = text::ascii_lower(p);
    assert(!text::stands_at(l, "src="@, a + 4)) by {
        if text::stands_at(l, "src="@, a + 4) {
            assert(l.subrange(a + 4, a + 8)[0] == "src="@[0]);
            assert(l[a + 4] == ' ');
        }
    }
    assert(l.subrange(a + 5, a + 9) =~= "src="@);
    assert(text::stands_at(l, "src="@, a + 5));
    assert(l[a + 4] == ' ');
    reveal_with_fuel(html::src_at, 3);
    assert(html::src_at(l, a + 4, e) == Some(a + 5));
    text::lemma_first_at(p, '"', a + 10);
    let end = text::first_at(p, '"', a + 10);
    assert(end == a + 10 + m) by {
        if end < a + 10 + m {
            assert(p[end] == src[end - a - 10]);
        }
    }
    assert(p.subrange(a + 10, end) =~= src);
}

} // verus!
