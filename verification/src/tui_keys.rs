//! What each key and each piece of news does to the interface.

use vstd::prelude::*;
use vstd::string::*;

use crate::graphics::Protocol;
use crate::history::Entry;
use crate::model::{Book, Topic};
use crate::order::{Order, Sorting};
use crate::path;
use crate::text;
use crate::tui;
use crate::tui::{ActionView, AppView, Ev, JobView, Key, KeyCode, Mode, SlotView, Tab};
use crate::tui_laws;

verus! {

/// A letter pressed without a modifier.
pub open spec fn letter(c: char) -> Key {
    Key { code: KeyCode::Char(c), ctrl: false }
}

/// Another key pressed without a modifier.
pub open spec fn key(code: KeyCode) -> Key {
    Key { code, ctrl: false }
}

/// Whether the results have the keyboard.
pub open spec fn over_results(a: AppView) -> bool {
    a.mode == Mode::Browsing && a.tab == Tab::Search
}

/// Whether the library has the keyboard.
pub open spec fn over_library(a: AppView) -> bool {
    a.mode == Mode::Browsing && a.tab == Tab::Library
}

/// Whether the highlight of the results is on the book at a place of them.
pub open spec fn on_result(a: AppView, place: int) -> bool {
    &&& a.row is Some
    &&& a.row->0 < a.visible.len()
    &&& a.visible[a.row->0 as int] == place
    &&& 0 <= place < a.results.len()
}

/// Whether the highlight of the library is on the download at a place of it.
pub open spec fn on_download(a: AppView, place: int) -> bool {
    &&& a.library_row is Some
    &&& a.library_row->0 < a.shown.len()
    &&& a.shown[a.library_row->0 as int] == place
    &&& 0 <= place < a.library.len()
}

// ---------------------------------------------------------------------------
// Opening
// ---------------------------------------------------------------------------

#[verifier::spinoff_prover]
proof fn lemma_entry_with(past: Seq<Entry>, md5: Seq<char>, i: int, k: int)
    requires
        0 <= i <= k < past.len(),
        past[k].md5@ == md5,
        forall|j: int| 0 <= j < k ==> (#[trigger] past[j]).md5@ != md5,
    ensures
        tui::entry_with(past, md5, i) == Some(k),
    decreases k - i,
{
    if i < k {
        assert(past[i].md5@ != md5);
        lemma_entry_with(past, md5, i + 1, k);
    }
}

#[verifier::spinoff_prover]
proof fn lemma_entry_without(past: Seq<Entry>, md5: Seq<char>, i: int)
    requires
        0 <= i <= past.len(),
        forall|j: int| 0 <= j < past.len() ==> (#[trigger] past[j]).md5@ != md5,
    ensures
        tui::entry_with(past, md5, i) is None,
    decreases past.len() - i,
{
    if i < past.len() {
        assert(past[i].md5@ != md5);
        lemma_entry_without(past, md5, i + 1);
    }
}

/// The last part of a path, as it is said of a file.
pub open spec fn name_said(p: Seq<char>) -> Seq<char> {
    match path::name_of(p) {
        Some(n) => n,
        None => p,
    }
}

/// `o` over the results opens the download whose MD5 is that of the highlighted
/// result, and `f` shows it in the file manager: of several, the one that comes
/// first in the history. Nothing else changes.
#[verifier::spinoff_prover]
pub proof fn lemma_o_opens_the_highlighted_result(
    a: AppView,
    now: u64,
    past: Seq<Entry>,
    place: int,
    k: int,
)
    requires
        over_results(a),
        on_result(a, place),
        0 <= k < past.len(),
        past[k].md5@ == a.results[place].md5@,
        forall|j: int| 0 <= j < k ==> (#[trigger] past[j]).md5@ != a.results[place].md5@,
    ensures
        a.pressed(letter('o'), now, past) == (AppView {
            actions: a.actions.push(
                ActionView::Launch {
                    path: past[k].path@,
                    reveal: false,
                    said: "opened"@ + " "@ + name_said(past[k].path@),
                },
            ),
            ..a
        }),
        a.pressed(letter('f'), now, past) == (AppView {
            actions: a.actions.push(
                ActionView::Launch {
                    path: past[k].path@,
                    reveal: true,
                    said: "opened"@ + " "@ + name_said(past[k].path@),
                },
            ),
            ..a
        }),
{
    lemma_entry_with(past, a.results[place].md5@, 0, k);
}

/// `o` and `f` over a result that was never downloaded open nothing, and say so.
#[verifier::spinoff_prover]
pub proof fn lemma_o_opens_nothing_else(a: AppView, now: u64, past: Seq<Entry>, place: int)
    requires
        over_results(a),
        on_result(a, place),
        forall|j: int|
            0 <= j < past.len() ==> (#[trigger] past[j]).md5@ != a.results[place].md5@,
    ensures
        a.pressed(letter('o'), now, past) == (AppView {
            error: Some("that one has not been downloaded yet"@),
            ..a
        }),
        a.pressed(letter('f'), now, past) == (AppView {
            error: Some("that one has not been downloaded yet"@),
            ..a
        }),
{
    lemma_entry_without(past, a.results[place].md5@, 0);
}

/// Whatever `o` or `f` over the results opens is a past download with the MD5 of
/// the highlighted result.
#[verifier::spinoff_prover]
pub proof fn lemma_what_is_opened_was_highlighted(
    a: AppView,
    now: u64,
    past: Seq<Entry>,
    showing: bool,
)
    requires
        over_results(a),
    ensures
        ({
            let b = a.pressed(
                letter(
                    if showing {
                        'f'
                    } else {
                        'o'
                    },
                ),
                now,
                past,
            );
            b.actions != a.actions ==> {
                &&& b.actions.len() == a.actions.len() + 1
                &&& b.actions.drop_last() == a.actions
                &&& b.actions.last() is Launch
                &&& b.actions.last()->reveal == showing
                &&& exists|place: int, k: int|
                    #![trigger a.results[place], past[k]]
                    {
                        &&& on_result(a, place)
                        &&& 0 <= k < past.len()
                        &&& past[k].md5@ == a.results[place].md5@
                        &&& past[k].path@ == b.actions.last()->path
                        &&& forall|j: int|
                            0 <= j < k ==> (#[trigger] past[j]).md5@ != a.results[place].md5@
                    }
            }
        }),
{
    let c = if showing {
        'f'
    } else {
        'o'
    };
    let b = a.pressed(letter(c), now, past);
    if a.book() is Some {
        let place = a.visible[a.row->0 as int] as int;
        assert(on_result(a, place));
        let md5 = a.results[place].md5@;
        if exists|k: int| 0 <= k < past.len() && (#[trigger] past[k]).md5@ == md5 {
            let k = lemma_first_with(past, md5);
            lemma_entry_with(past, md5, 0, k);
            assert(past[k].md5@ == a.results[place].md5@);
            assert(b.actions.drop_last() =~= a.actions);
        } else {
            lemma_entry_without(past, md5, 0);
        }
    }
}

#[verifier::spinoff_prover]
proof fn lemma_first_with(past: Seq<Entry>, md5: Seq<char>) -> (k: int)
    requires
        exists|k: int| 0 <= k < past.len() && (#[trigger] past[k]).md5@ == md5,
    ensures
        0 <= k < past.len(),
        past[k].md5@ == md5,
        forall|j: int| 0 <= j < k ==> (#[trigger] past[j]).md5@ != md5,
{
    let some = choose|k: int| 0 <= k < past.len() && (#[trigger] past[k]).md5@ == md5;
    lemma_first_up_to(past, md5, 0, some)
}

#[verifier::spinoff_prover]
proof fn lemma_first_up_to(past: Seq<Entry>, md5: Seq<char>, i: int, some: int) -> (k: int)
    requires
        0 <= i <= some < past.len(),
        past[some].md5@ == md5,
        forall|j: int| 0 <= j < i ==> (#[trigger] past[j]).md5@ != md5,
    ensures
        0 <= k < past.len(),
        past[k].md5@ == md5,
        forall|j: int| 0 <= j < k ==> (#[trigger] past[j]).md5@ != md5,
    decreases some - i,
{
    if past[i].md5@ == md5 {
        i
    } else {
        lemma_first_up_to(past, md5, i + 1, some)
    }
}

/// Over the library, `o` and ⏎ open the highlighted download, `f` shows it in
/// the file manager, and `d` forgets it.
#[verifier::spinoff_prover]
pub proof fn lemma_library_keys_act_on_the_highlighted_download(
    a: AppView,
    now: u64,
    past: Seq<Entry>,
    place: int,
)
    requires
        over_library(a),
        on_download(a, place),
    ensures
        ({
            let e = a.library[place];
            let opened = AppView {
                actions: a.actions.push(
                    ActionView::Launch {
                        path: e.path@,
                        reveal: false,
                        said: "opened"@ + " "@ + name_said(e.path@),
                    },
                ),
                ..a
            };
            &&& a.pressed(letter('o'), now, past) == opened
            &&& a.pressed(key(KeyCode::Enter), now, past) == opened
            &&& a.pressed(letter('f'), now, past) == (AppView {
                actions: a.actions.push(
                    ActionView::Launch {
                        path: e.path@,
                        reveal: true,
                        said: "showing"@ + " "@ + name_said(e.path@),
                    },
                ),
                ..a
            })
            &&& a.pressed(letter('d'), now, past) == (AppView {
                actions: a.actions.push(ActionView::Forget(e)),
                ..a
            })
        }),
{
}

/// `y` copies the MD5 of whatever is highlighted.
#[verifier::spinoff_prover]
pub proof fn lemma_y_copies_the_md5(a: AppView, now: u64, past: Seq<Entry>, place: int)
    ensures
        over_results(a) && on_result(a, place) ==> a.pressed(letter('y'), now, past) == (AppView {
            status: "copied "@ + a.results[place].md5@,
            actions: a.actions.push(ActionView::Copy(a.results[place].md5@)),
            ..a
        }),
        over_library(a) && on_download(a, place) ==> a.pressed(letter('y'), now, past) == (
        AppView {
            status: "copied "@ + a.library[place].md5@,
            actions: a.actions.push(ActionView::Copy(a.library[place].md5@)),
            ..a
        }),
{
}

// ---------------------------------------------------------------------------
// Downloading
// ---------------------------------------------------------------------------

/// Whether some places are those of the marked results, in order.
pub open spec fn marked_places(a: AppView, places: Seq<int>) -> bool {
    &&& forall|i: int, j: int| 0 <= i < j < places.len() ==> places[i] < places[j]
    &&& forall|i: int|
        0 <= i < places.len() ==> 0 <= #[trigger] places[i] < a.results.len()
            && a.marked[places[i]]
    &&& forall|k: int|
        0 <= k < a.results.len() && #[trigger] a.marked[k] ==> places.contains(k)
}

#[verifier::spinoff_prover]
proof fn lemma_marked_books(a: AppView, n: nat) -> (places: Seq<int>)
    requires
        n <= a.results.len(),
        a.marked.len() == a.results.len(),
    ensures
        places.len() == a.marked_books(n).len(),
        forall|i: int, j: int| 0 <= i < j < places.len() ==> places[i] < places[j],
        forall|i: int|
            0 <= i < places.len() ==> 0 <= #[trigger] places[i] < n && a.marked[places[i]]
                && a.marked_books(n)[i] == a.results[places[i]],
        forall|k: int| 0 <= k < n && #[trigger] a.marked[k] ==> places.contains(k),
    decreases n,
{
    if n == 0 {
        seq![]
    } else {
        let before = lemma_marked_books(a, (n - 1) as nat);
        if a.marked[n - 1] {
            let places = before.push(n - 1);
            assert forall|k: int| 0 <= k < n && #[trigger] a.marked[k] implies places.contains(
                k,
            ) by {
                if k == n - 1 {
                    assert(places[before.len() as int] == k);
                } else {
                    let j = choose|j: int| 0 <= j < before.len() && before[j] == k;
                    assert(places[j] == k);
                }
            }
            places
        } else {
            before
        }
    }
}

#[verifier::spinoff_prover]
proof fn lemma_any_mark(a: AppView, n: nat)
    requires
        n <= a.marked.len(),
    ensures
        a.any_mark(n) <==> exists|k: int| 0 <= k < n && #[trigger] a.marked[k],
    decreases n,
{
    if n > 0 {
        lemma_any_mark(a, (n - 1) as nat);
        if exists|k: int| 0 <= k < n && #[trigger] a.marked[k] {
            let k = choose|k: int| 0 <= k < n && #[trigger] a.marked[k];
            if k == n - 1 {
                assert(a.marked[n - 1]);
            } else {
                assert(0 <= k < n - 1 && a.marked[k]);
            }
        }
    }
}

#[verifier::spinoff_prover]
proof fn lemma_queued(jobs: Map<Seq<char>, JobView>, books: Seq<Book>, md5: Seq<char>)
    ensures
        (exists|i: int| 0 <= i < books.len() && (#[trigger] books[i]).md5@ == md5) ==> tui::queued(
            jobs,
            books,
        ).contains_key(md5) && tui::queued(jobs, books)[md5] == JobView::Queued,
        !(exists|i: int| 0 <= i < books.len() && (#[trigger] books[i]).md5@ == md5) ==> (
        tui::queued(jobs, books).contains_key(md5) <==> jobs.contains_key(md5)) && (
        jobs.contains_key(md5) ==> tui::queued(jobs, books)[md5] == jobs[md5]),
    decreases books.len(),
{
    if books.len() > 0 {
        let head = books.drop_last();
        lemma_queued(jobs, head, md5);
        if books.last().md5@ == md5 {
            assert(books[books.len() - 1].md5@ == md5);
        } else if exists|i: int| 0 <= i < books.len() && (#[trigger] books[i]).md5@ == md5 {
            let i = choose|i: int| 0 <= i < books.len() && (#[trigger] books[i]).md5@ == md5;
            assert(head[i].md5@ == md5);
        } else {
            assert forall|i: int| 0 <= i < head.len() implies (#[trigger] head[i]).md5@ != md5 by {
                assert(books[i].md5@ != md5);
            }
        }
    }
}

/// ⏎ over the results downloads every marked result and no other, in their
/// order; where none is marked, the highlighted one. What is downloaded is
/// queued, and other jobs stay what they are.
#[verifier::spinoff_prover]
pub proof fn lemma_enter_downloads_what_is_marked(
    a: AppView,
    now: u64,
    past: Seq<Entry>,
    md5: Seq<char>,
) -> (places: Seq<int>)
    requires
        over_results(a),
        !a.downloading,
        a.marked.len() == a.results.len(),
        exists|k: int| 0 <= k < a.marked.len() && #[trigger] a.marked[k],
    ensures
        marked_places(a, places),
        ({
            let b = a.pressed(key(KeyCode::Enter), now, past);
            let books = Seq::new(places.len(), |i: int| a.results[places[i]]);
            &&& b.actions == a.actions.push(ActionView::Download(books))
            &&& b.downloading
            &&& b.error is None
            &&& (exists|i: int| 0 <= i < books.len() && (#[trigger] books[i]).md5@ == md5)
                ==> b.jobs.contains_key(md5) && b.jobs[md5] == JobView::Queued
            &&& !(exists|i: int| 0 <= i < books.len() && (#[trigger] books[i]).md5@ == md5) ==> (
            b.jobs.contains_key(md5) <==> a.jobs.contains_key(md5)) && (a.jobs.contains_key(md5)
                ==> b.jobs[md5] == a.jobs[md5])
        }),
{
    let places = lemma_marked_books(a, a.results.len());
    let books = Seq::new(places.len(), |i: int| a.results[places[i]]);
    lemma_any_mark(a, a.marked.len());
    assert(a.marked_books(a.results.len()) =~= books);
    lemma_queued(a.jobs, books, md5);
    let k = choose|k: int| 0 <= k < a.marked.len() && #[trigger] a.marked[k];
    assert(places.contains(k));
    assert(books.len() > 0);
    lemma_enter_fetches(a, now, past);
    lemma_fetched(a, books);
    places
}

#[verifier::spinoff_prover]
proof fn lemma_enter_fetches(a: AppView, now: u64, past: Seq<Entry>)
    requires
        over_results(a),
    ensures
        a.pressed(key(KeyCode::Enter), now, past) == a.fetching(),
{
}

#[verifier::spinoff_prover]
proof fn lemma_fetched(a: AppView, books: Seq<Book>)
    requires
        !a.downloading,
        a.chosen() == books,
        books.len() > 0,
    ensures
        a.fetching().actions == a.actions.push(ActionView::Download(books)),
        a.fetching().downloading,
        a.fetching().error is None,
        a.fetching().jobs == tui::queued(a.jobs, books),
{
}

/// ⏎ with nothing marked downloads the highlighted result alone.
#[verifier::spinoff_prover]
pub proof fn lemma_enter_downloads_the_highlighted_result(
    a: AppView,
    now: u64,
    past: Seq<Entry>,
    place: int,
)
    requires
        over_results(a),
        !a.downloading,
        on_result(a, place),
        forall|k: int| 0 <= k < a.marked.len() ==> !#[trigger] a.marked[k],
    ensures
        ({
            let b = a.pressed(key(KeyCode::Enter), now, past);
            &&& b.actions == a.actions.push(ActionView::Download(seq![a.results[place]]))
            &&& b.downloading
            &&& b.jobs == a.jobs.insert(a.results[place].md5@, JobView::Queued)
        }),
{
    lemma_any_mark(a, a.marked.len());
    reveal_with_fuel(tui::queued, 2);
    let one = seq![a.results[place]];
    assert(one.drop_last() =~= seq![]);
    assert(one.last() == a.results[place]);
}

/// Space turns over the mark of the highlighted result, and no other, and goes
/// on to the next.
#[verifier::spinoff_prover]
pub proof fn lemma_space_marks_the_highlighted_result(
    a: AppView,
    now: u64,
    past: Seq<Entry>,
    place: int,
    k: int,
)
    requires
        over_results(a),
        on_result(a, place),
        a.marked.len() == a.results.len(),
        a.visible.len() <= usize::MAX,
        0 <= k < a.marked.len(),
    ensures
        ({
            let b = a.pressed(letter(' '), now, past);
            &&& b.marked.len() == a.marked.len()
            &&& k == place ==> b.marked[k] == !a.marked[k]
            &&& k != place ==> b.marked[k] == a.marked[k]
            &&& b.row is Some
            &&& b.row->0 == (if a.row->0 + 1 < a.visible.len() {
                a.row->0 + 1
            } else {
                a.row->0 as int
            })
        }),
{
}

// ---------------------------------------------------------------------------
// Moving about
// ---------------------------------------------------------------------------

/// A row so many further down, or up, but within the list.
pub open spec fn shifted(row: int, by: int, rows: int) -> int {
    if row + by < 0 {
        0
    } else if row + by > rows - 1 {
        rows - 1
    } else {
        row + by
    }
}

#[verifier::spinoff_prover]
proof fn lemma_results_step_keys(a: AppView, now: u64, past: Seq<Entry>)
    requires
        over_results(a),
    ensures
        a.pressed(letter('j'), now, past) == a.moved(1, now),
        a.pressed(letter('k'), now, past) == a.moved(-1, now),
        a.pressed(key(KeyCode::Down), now, past) == a.moved(1, now),
        a.pressed(key(KeyCode::Up), now, past) == a.moved(-1, now),
{
}

#[verifier::spinoff_prover]
proof fn lemma_results_page_keys(a: AppView, now: u64, past: Seq<Entry>)
    requires
        over_results(a),
    ensures
        a.pressed(key(KeyCode::PageDown), now, past) == a.moved(10, now),
        a.pressed(key(KeyCode::PageUp), now, past) == a.moved(-10, now),
{
}

#[verifier::spinoff_prover]
proof fn lemma_results_end_keys(a: AppView, now: u64, past: Seq<Entry>)
    requires
        over_results(a),
        a.visible.len() > 0,
    ensures
        a.pressed(letter('g'), now, past) == a.at_row(0, now),
        a.pressed(letter('G'), now, past) == a.at_row((a.visible.len() - 1) as usize, now),
        a.pressed(key(KeyCode::Home), now, past) == a.at_row(0, now),
        a.pressed(key(KeyCode::End), now, past) == a.at_row((a.visible.len() - 1) as usize, now),
{
}

#[verifier::spinoff_prover]
proof fn lemma_results_moved(a: AppView, by: int, now: u64)
    requires
        a.row is Some,
        a.row->0 < a.visible.len() <= usize::MAX,
    ensures
        a.moved(by, now).row == Some(
            shifted(a.row->0 as int, by, a.visible.len() as int) as usize,
        ),
{
}

/// The keys that move the highlight of the results, and by how much.
#[verifier::spinoff_prover]
pub proof fn lemma_keys_move_the_highlight(a: AppView, now: u64, past: Seq<Entry>)
    requires
        over_results(a),
        a.row is Some,
        a.row->0 < a.visible.len(),
        a.visible.len() <= usize::MAX,
    ensures
        ({
            let r = a.row->0 as int;
            let n = a.visible.len() as int;
            &&& a.pressed(letter('j'), now, past).row == Some(shifted(r, 1, n) as usize)
            &&& a.pressed(letter('k'), now, past).row == Some(shifted(r, -1, n) as usize)
            &&& a.pressed(key(KeyCode::Down), now, past).row == Some(shifted(r, 1, n) as usize)
            &&& a.pressed(key(KeyCode::Up), now, past).row == Some(shifted(r, -1, n) as usize)
            &&& a.pressed(key(KeyCode::PageDown), now, past).row == Some(
                shifted(r, 10, n) as usize,
            )
            &&& a.pressed(key(KeyCode::PageUp), now, past).row == Some(shifted(r, -10, n) as usize)
            &&& a.pressed(letter('g'), now, past).row == Some(0usize)
            &&& a.pressed(letter('G'), now, past).row == Some((n - 1) as usize)
            &&& a.pressed(key(KeyCode::Home), now, past).row == Some(0usize)
            &&& a.pressed(key(KeyCode::End), now, past).row == Some((n - 1) as usize)
        }),
{
    lemma_results_step_keys(a, now, past);
    lemma_results_page_keys(a, now, past);
    lemma_results_end_keys(a, now, past);
    lemma_results_moved(a, 1, now);
    lemma_results_moved(a, -1, now);
    lemma_results_moved(a, 10, now);
    lemma_results_moved(a, -10, now);
}

#[verifier::spinoff_prover]
proof fn lemma_library_step_keys(a: AppView, now: u64, past: Seq<Entry>)
    requires
        over_library(a),
    ensures
        a.pressed(letter('j'), now, past) == a.moved_library(1, now),
        a.pressed(letter('k'), now, past) == a.moved_library(-1, now),
        a.pressed(key(KeyCode::Down), now, past) == a.moved_library(1, now),
        a.pressed(key(KeyCode::Up), now, past) == a.moved_library(-1, now),
{
}

#[verifier::spinoff_prover]
proof fn lemma_library_page_keys(a: AppView, now: u64, past: Seq<Entry>)
    requires
        over_library(a),
    ensures
        a.pressed(key(KeyCode::PageDown), now, past) == a.moved_library(10, now),
        a.pressed(key(KeyCode::PageUp), now, past) == a.moved_library(-10, now),
{
}

#[verifier::spinoff_prover]
proof fn lemma_library_end_keys(a: AppView, now: u64, past: Seq<Entry>)
    requires
        over_library(a),
        a.shown.len() > 0,
    ensures
        a.pressed(letter('g'), now, past) == a.at_library_row(0, now),
        a.pressed(letter('G'), now, past) == a.at_library_row((a.shown.len() - 1) as usize, now),
        a.pressed(key(KeyCode::Home), now, past) == a.at_library_row(0, now),
        a.pressed(key(KeyCode::End), now, past) == a.at_library_row((a.shown.len() - 1) as usize, now),
{
}

#[verifier::spinoff_prover]
proof fn lemma_library_moved(a: AppView, by: int, now: u64)
    requires
        a.library_row is Some,
        a.library_row->0 < a.shown.len() <= usize::MAX,
    ensures
        a.moved_library(by, now).library_row == Some(
            shifted(a.library_row->0 as int, by, a.shown.len() as int) as usize,
        ),
{
}

/// The same of the library.
#[verifier::spinoff_prover]
pub proof fn lemma_keys_move_the_library_highlight(a: AppView, now: u64, past: Seq<Entry>)
    requires
        over_library(a),
        a.library_row is Some,
        a.library_row->0 < a.shown.len(),
        a.shown.len() <= usize::MAX,
    ensures
        ({
            let r = a.library_row->0 as int;
            let n = a.shown.len() as int;
            &&& a.pressed(letter('j'), now, past).library_row == Some(shifted(r, 1, n) as usize)
            &&& a.pressed(letter('k'), now, past).library_row == Some(shifted(r, -1, n) as usize)
            &&& a.pressed(key(KeyCode::Down), now, past).library_row == Some(
                shifted(r, 1, n) as usize,
            )
            &&& a.pressed(key(KeyCode::Up), now, past).library_row == Some(
                shifted(r, -1, n) as usize,
            )
            &&& a.pressed(key(KeyCode::PageDown), now, past).library_row == Some(
                shifted(r, 10, n) as usize,
            )
            &&& a.pressed(key(KeyCode::PageUp), now, past).library_row == Some(
                shifted(r, -10, n) as usize,
            )
            &&& a.pressed(letter('g'), now, past).library_row == Some(0usize)
            &&& a.pressed(letter('G'), now, past).library_row == Some((n - 1) as usize)
            &&& a.pressed(key(KeyCode::Home), now, past).library_row == Some(0usize)
            &&& a.pressed(key(KeyCode::End), now, past).library_row == Some((n - 1) as usize)
        }),
{
    lemma_library_step_keys(a, now, past);
    lemma_library_page_keys(a, now, past);
    lemma_library_end_keys(a, now, past);
    lemma_library_moved(a, 1, now);
    lemma_library_moved(a, -1, now);
    lemma_library_moved(a, 10, now);
    lemma_library_moved(a, -10, now);
}

/// A selection that moves to another row has a cover looked for a quarter of a
/// second later, where the terminal can draw one.
#[verifier::spinoff_prover]
pub proof fn lemma_a_moved_selection_waits(a: AppView, now: u64, past: Seq<Entry>)
    requires
        over_results(a),
        a.row is Some,
        a.row->0 + 1 < a.visible.len() <= usize::MAX,
        a.protocol != Protocol::Nothing,
        now + 250 <= u64::MAX,
    ensures
        a.pressed(letter('j'), now, past).cover_due == Some((now + 250) as u64),
{
}

// ---------------------------------------------------------------------------
// Modes and tabs
// ---------------------------------------------------------------------------

/// `q` and Esc quit from either tab.
#[verifier::spinoff_prover]
pub proof fn lemma_q_quits(a: AppView, now: u64, past: Seq<Entry>)
    requires
        a.mode == Mode::Browsing,
    ensures
        a.pressed(letter('q'), now, past) == (AppView { quit: true, ..a }),
        a.pressed(key(KeyCode::Esc), now, past) == (AppView { quit: true, ..a }),
{
}

/// `/` and `i` put the caret at the end of the box of the tab; `?` shows the help.
#[verifier::spinoff_prover]
pub proof fn lemma_slash_edits(a: AppView, now: u64, past: Seq<Entry>)
    requires
        a.mode == Mode::Browsing,
        a.query.len() <= usize::MAX,
        a.filter.len() <= usize::MAX,
    ensures
        a.pressed(letter('/'), now, past).mode == Mode::Editing,
        a.pressed(letter('/'), now, past).caret == (match a.tab {
            Tab::Search => a.query.len(),
            Tab::Library => a.filter.len(),
        }),
        a.pressed(letter('i'), now, past) == a.pressed(letter('/'), now, past),
        a.pressed(letter('/'), now, past).query == a.query,
        a.pressed(letter('/'), now, past).filter == a.filter,
        a.pressed(letter('?'), now, past) == (AppView { mode: Mode::Help, ..a }),
{
}

#[verifier::spinoff_prover]
proof fn lemma_showing_library(a: AppView, now: u64, past: Seq<Entry>)
    requires
        a.tab == Tab::Search,
    ensures
        a.showing(Tab::Library, now, past).tab == Tab::Library,
        a.showing(Tab::Library, now, past).mode == a.mode,
        a.showing(Tab::Library, now, past).library == past,
        past.len() == 0 ==> a.showing(Tab::Library, now, past).status == "nothing downloaded yet"@,
        past.len() == 1 ==> a.showing(Tab::Library, now, past).status == "1 book in the library"@,
        past.len() > 1 ==> a.showing(Tab::Library, now, past).status == text::decimal(past.len())
            + " books in the library"@,
{
}

/// `2` shows the library, and so does `h` from the results. The library is then
/// the history as it stands, and what is said counts it.
#[verifier::spinoff_prover]
pub proof fn lemma_two_shows_the_library(a: AppView, now: u64, past: Seq<Entry>)
    requires
        a.mode != Mode::Editing,
        a.tab == Tab::Search,
    ensures
        ({
            let b = a.pressed(letter('2'), now, past);
            &&& b.tab == Tab::Library
            &&& b.mode == Mode::Browsing
            &&& b.library == past
            &&& past.len() == 0 ==> b.status == "nothing downloaded yet"@
            &&& past.len() == 1 ==> b.status == "1 book in the library"@
            &&& past.len() > 1 ==> b.status == text::decimal(past.len()) + " books in the library"@
        }),
        over_results(a) ==> a.pressed(letter('h'), now, past) == a.pressed(letter('2'), now, past),
{
    lemma_showing_library(AppView { mode: Mode::Browsing, ..a }, now, past);
}

/// `1` shows the search.
#[verifier::spinoff_prover]
pub proof fn lemma_one_shows_the_search(a: AppView, now: u64, past: Seq<Entry>)
    requires
        a.mode != Mode::Editing,
        a.tab == Tab::Library,
    ensures
        ({
            let b = a.pressed(letter('1'), now, past);
            &&& b.tab == Tab::Search
            &&& b.mode == Mode::Browsing
            &&& b.results == a.results
            &&& b.row == a.row
            &&& a.results.len() == 0 ==> b.status == "press / to search"@
            &&& a.results.len() > 0 ==> b.status == text::decimal(a.results.len()) + " result(s)"@
        }),
{
}

/// `x` clears both filters, and nothing but the rows follows from it.
#[verifier::spinoff_prover]
pub proof fn lemma_x_clears_the_filters(a: AppView, now: u64, past: Seq<Entry>)
    requires
        over_results(a),
    ensures
        a.pressed(letter('x'), now, past).fmt_filter is None,
        a.pressed(letter('x'), now, past).lang_filter is None,
        a.pressed(letter('x'), now, past).results == a.results,
        a.pressed(letter('x'), now, past).marked == a.marked,
{
}

/// Stepping through one facet leaves the other alone; from none it goes to the most
/// common value, or backwards to the last.
#[verifier::spinoff_prover]
pub proof fn lemma_stepping_through_a_facet(a: AppView, format: bool, by: int, now: u64)
    requires
        by == 1 || by == -1,
    ensures
        format ==> a.cycled(format, by, now).lang_filter == a.lang_filter,
        !format ==> a.cycled(format, by, now).fmt_filter == a.fmt_filter,
        a.options(format).len() > 0 && a.facet(format) is None ==> a.cycled(
            format,
            by,
            now,
        ).facet(format) == Some(
            if by == 1 {
                a.options(format)[0].0
            } else {
                a.options(format).last().0
            },
        ),
{
    lemma_round(a.options(format).len() as int);
}

/// `e` steps through the formats.
#[verifier::spinoff_prover]
pub proof fn lemma_e_goes_to_the_next_format(a: AppView, now: u64, past: Seq<Entry>)
    requires
        over_results(a),
    ensures
        a.pressed(letter('e'), now, past) == a.cycled(true, 1, now),
{
}

/// `E` steps back through the formats.
#[verifier::spinoff_prover]
pub proof fn lemma_shift_e_goes_to_the_format_before(a: AppView, now: u64, past: Seq<Entry>)
    requires
        over_results(a),
    ensures
        a.pressed(letter('E'), now, past) == a.cycled(true, -1, now),
{
}

/// `l` steps through the languages.
#[verifier::spinoff_prover]
pub proof fn lemma_l_goes_to_the_next_language(a: AppView, now: u64, past: Seq<Entry>)
    requires
        over_results(a),
    ensures
        a.pressed(letter('l'), now, past) == a.cycled(false, 1, now),
{
}

/// `L` steps back through the languages.
#[verifier::spinoff_prover]
pub proof fn lemma_shift_l_goes_to_the_language_before(a: AppView, now: u64, past: Seq<Entry>)
    requires
        over_results(a),
    ensures
        a.pressed(letter('L'), now, past) == a.cycled(false, -1, now),
{
}

#[verifier::spinoff_prover]
proof fn lemma_round(n: int)
    requires
        n >= 0,
    ensures
        n > 0 ==> 1int % (n + 1) == 1,
        n > 0 ==> (-1int) % (n + 1) == n,
{
    if n > 0 {
        vstd::arithmetic::div_mod::lemma_small_mod(1, (n + 1) as nat);
        vstd::arithmetic::div_mod::lemma_fundamental_div_mod_converse(-1, n + 1, -1, n);
    }
}

/// `m` looks for mirrors afresh.
#[verifier::spinoff_prover]
pub proof fn lemma_m_looks_for_mirrors(a: AppView, now: u64, past: Seq<Entry>)
    requires
        over_results(a),
    ensures
        a.pressed(letter('m'), now, past).actions == a.actions.push(
            ActionView::ResolveMirrors { refresh: true },
        ),
        a.pressed(letter('m'), now, past).busy,
{
}

/// `r` over the library reads the history again.
#[verifier::spinoff_prover]
pub proof fn lemma_r_reads_the_history(a: AppView, now: u64, past: Seq<Entry>)
    requires
        over_library(a),
    ensures
        a.pressed(letter('r'), now, past).library == past,
        a.pressed(letter('r'), now, past).status == text::decimal(past.len()) + " book(s)"@,
{
}

// ---------------------------------------------------------------------------
// The box
// ---------------------------------------------------------------------------

/// The caret keys move the caret by one, or to either end, and change nothing
/// else.
#[verifier::spinoff_prover]
pub proof fn lemma_caret_keys(a: AppView, now: u64, past: Seq<Entry>)
    requires
        a.mode == Mode::Editing,
        a.caret <= a.box_text().len() <= usize::MAX,
    ensures
        a.pressed(key(KeyCode::Left), now, past) == (AppView {
            caret: (if a.caret > 0 {
                a.caret - 1
            } else {
                0
            }) as usize,
            ..a
        }),
        a.pressed(key(KeyCode::Right), now, past) == (AppView {
            caret: (if a.caret < a.box_text().len() {
                a.caret + 1
            } else {
                a.caret as int
            }) as usize,
            ..a
        }),
        a.pressed(key(KeyCode::Home), now, past) == (AppView { caret: 0, ..a }),
        a.pressed(key(KeyCode::End), now, past) == (AppView {
            caret: a.box_text().len() as usize,
            ..a
        }),
        a.pressed(key(KeyCode::Esc), now, past) == (AppView { mode: Mode::Browsing, ..a }),
{
}

/// What a character does to the box: the text before the caret, the character,
/// and the text behind it. Backspace and Delete take out the character before the
/// caret and the one at it, and Ctrl-U everything.
#[verifier::spinoff_prover]
pub proof fn lemma_typing_edits_the_box(a: AppView, c: char, now: u64, past: Seq<Entry>)
    requires
        a.mode == Mode::Editing,
        a.caret <= a.box_text().len() < usize::MAX,
    ensures
        ({
            let s = a.box_text();
            let at = a.caret as int;
            let typed = a.pressed(letter(c), now, past);
            let back = a.pressed(key(KeyCode::Backspace), now, past);
            let gone = a.pressed(key(KeyCode::Delete), now, past);
            let empty = a.pressed(Key { code: KeyCode::Char('u'), ctrl: true }, now, past);
            &&& typed.box_text() == s.take(at) + seq![c] + s.skip(at)
            &&& typed.caret == at + 1
            &&& at > 0 ==> back.box_text() == s.take(at - 1) + s.skip(at) && back.caret == at - 1
            &&& at < s.len() ==> gone.box_text() == s.take(at) + s.skip(at + 1) && gone.caret == at
            &&& empty.box_text() == Seq::<char>::empty() && empty.caret == 0
        }),
{
    let s = a.box_text();
    let at = a.caret as int;
    assert(s.insert(at, c) =~= s.take(at) + seq![c] + s.skip(at));
    if at > 0 {
        assert(s.remove(at - 1) =~= s.take(at - 1) + s.skip(at));
    }
    if at < s.len() {
        assert(s.remove(at) =~= s.take(at) + s.skip(at + 1));
    }
}

/// ⏎ in the search box runs the search with what the box asks for: the words, and
/// what the tags among them say. Without a topic both books and fiction are
/// searched.
#[verifier::spinoff_prover]
pub proof fn lemma_enter_runs_the_search(a: AppView, now: u64, past: Seq<Entry>)
    requires
        a.mode == Mode::Editing,
        a.tab == Tab::Search,
        a.mirrors.len() > 0,
        text::trimmed(a.query).len() > 0,
        text::trimmed(
            text::joined(crate::query::read_query(text::trimmed(a.query)).words, " "@),
        ).len() > 0,
    ensures
        ({
            let b = a.pressed(key(KeyCode::Enter), now, past);
            let r = crate::query::read_query(text::trimmed(a.query));
            &&& b.mode == Mode::Browsing
            &&& b.busy
            &&& b.error is None
            &&& b.actions.len() == a.actions.len() + 1
            &&& b.actions.drop_last() == a.actions
            &&& b.actions.last() is Search
            &&& b.actions.last()->Search_0.terms == text::joined(r.words, " "@)
            &&& b.actions.last()->Search_0.fields == r.fields
            &&& b.actions.last()->Search_0.extension == r.extension
            &&& b.actions.last()->Search_0.language == r.language
            &&& b.actions.last()->Search_0.limit == 100
            &&& r.topics.len() > 0 ==> b.actions.last()->Search_0.topics == r.topics
            &&& r.topics.len() == 0 ==> b.actions.last()->Search_0.topics == seq![
                Topic::Libgen,
                Topic::Fiction,
            ]
        }),
{
    let b = a.pressed(key(KeyCode::Enter), now, past);
    assert(b.actions.drop_last() =~= a.actions);
}

/// `r` over the results runs the search in the box again, as ⏎ in the box does.
#[verifier::spinoff_prover]
pub proof fn lemma_r_repeats_the_search(a: AppView, now: u64, past: Seq<Entry>)
    requires
        over_results(a),
    ensures
        a.pressed(letter('r'), now, past).actions == (AppView { mode: Mode::Editing, ..a }).pressed(
            key(KeyCode::Enter),
            now,
            past,
        ).actions,
{
}

// ---------------------------------------------------------------------------
// Sorting
// ---------------------------------------------------------------------------

/// What the results can be sorted by, in the order of the menu; the library has
/// no years.
pub open spec fn menu_of(tab: Tab) -> Seq<Order> {
    match tab {
        Tab::Search => seq![Order::Natural, Order::Title, Order::Author, Order::Year, Order::Size],
        Tab::Library => seq![Order::Natural, Order::Title, Order::Author, Order::Size],
    }
}

/// How the list of a tab is sorted.
pub open spec fn sorting_of(a: AppView) -> Sorting {
    match a.tab {
        Tab::Search => a.sorting,
        Tab::Library => a.shelving,
    }
}

#[verifier::spinoff_prover]
proof fn lemma_sorting_keys(a: AppView, now: u64, past: Seq<Entry>)
    ensures
        a.mode == Mode::Browsing ==> a.pressed(letter('s'), now, past) == a.menu_opened(),
        a.mode == Mode::Sorting ==> a.pressed(key(KeyCode::Down), now, past) == a.menu_moved(false),
        a.mode == Mode::Sorting ==> a.pressed(key(KeyCode::Up), now, past) == a.menu_moved(true),
        a.mode == Mode::Sorting ==> a.pressed(key(KeyCode::Enter), now, past) == a.order_chosen(
            now,
        ),
{
}

/// `s` opens the menu on what the list is sorted by.
#[verifier::spinoff_prover]
pub proof fn lemma_s_opens_the_menu(a: AppView, now: u64, past: Seq<Entry>)
    requires
        a.mode == Mode::Browsing,
        a.tab == Tab::Search || a.shelving.order != Order::Year,
    ensures
        ({
            let b = a.pressed(letter('s'), now, past);
            &&& b.mode == Mode::Sorting
            &&& b.menu < menu_of(a.tab).len()
            &&& menu_of(a.tab)[b.menu as int] == sorting_of(a).order
        }),
{
    lemma_sorting_keys(a, now, past);
}

/// The arrows move within the menu.
#[verifier::spinoff_prover]
pub proof fn lemma_arrows_move_in_the_menu(a: AppView, now: u64, past: Seq<Entry>)
    requires
        a.mode == Mode::Sorting,
        a.menu < menu_of(a.tab).len(),
    ensures
        a.pressed(key(KeyCode::Down), now, past) == (AppView {
            menu: shifted(a.menu as int, 1, menu_of(a.tab).len() as int) as usize,
            ..a
        }),
        a.pressed(key(KeyCode::Up), now, past) == (AppView {
            menu: shifted(a.menu as int, -1, menu_of(a.tab).len() as int) as usize,
            ..a
        }),
{
    lemma_sorting_keys(a, now, past);
}

/// ⏎ sorts by what is highlighted in the menu, and only the list of this tab. What
/// it was sorted by already keeps its direction; anything else starts in its own.
#[verifier::spinoff_prover]
pub proof fn lemma_enter_sorts(a: AppView, now: u64, past: Seq<Entry>)
    requires
        a.mode == Mode::Sorting,
        a.menu < menu_of(a.tab).len(),
    ensures
        ({
            let picked = a.pressed(key(KeyCode::Enter), now, past);
            &&& picked.mode == Mode::Browsing
            &&& sorting_of(picked).order == menu_of(a.tab)[a.menu as int]
            &&& menu_of(a.tab)[a.menu as int] == sorting_of(a).order ==> sorting_of(picked)
                == sorting_of(a)
            &&& menu_of(a.tab)[a.menu as int] != sorting_of(a).order ==> !sorting_of(
                picked,
            ).backwards
            &&& a.tab == Tab::Search ==> picked.shelving == a.shelving
            &&& a.tab == Tab::Library ==> picked.sorting == a.sorting
        }),
{
    lemma_sorting_keys(a, now, past);
    let closed = AppView { mode: Mode::Browsing, ..a };
    let order = menu_of(a.tab)[a.menu as int];
    lemma_resorted(closed, Sorting { order, backwards: false }, now);
}

#[verifier::spinoff_prover]
proof fn lemma_resorted(a: AppView, s: Sorting, now: u64)
    ensures
        a.resorted(s, now).mode == a.mode,
        a.resorted(s, now).tab == a.tab,
        a.tab == Tab::Search ==> a.resorted(s, now).sorting == s,
        a.tab == Tab::Search ==> a.resorted(s, now).shelving == a.shelving,
        a.tab == Tab::Library ==> a.resorted(s, now).shelving == s,
        a.tab == Tab::Library ==> a.resorted(s, now).sorting == a.sorting,
{
    reveal(AppView::resorted);
}

/// `S` turns the list of the tab round, and twice turns it back.
#[verifier::spinoff_prover]
pub proof fn lemma_shift_s_turns_round(a: AppView, now: u64, past: Seq<Entry>)
    requires
        a.mode == Mode::Browsing,
    ensures
        ({
            let b = a.pressed(letter('S'), now, past);
            &&& sorting_of(b).order == sorting_of(a).order
            &&& sorting_of(b).backwards == !sorting_of(a).backwards
            &&& b.tab == a.tab
            &&& a.tab == Tab::Search ==> b.shelving == a.shelving
            &&& a.tab == Tab::Library ==> b.sorting == a.sorting
        }),
{
    let now_sorted = a.current_sorting();
    lemma_resorted(a, Sorting { backwards: !now_sorted.backwards, ..now_sorted }, now);
}

// ---------------------------------------------------------------------------
// News
// ---------------------------------------------------------------------------

/// Results that come in are the results; none is marked, the first that shows is
/// highlighted, and the search is over.
#[verifier::spinoff_prover]
pub proof fn lemma_results_come_in(a: AppView, books: Vec<Book>, host: String, now: u64, past: Seq<Entry>)
    ensures
        ({
            let b = a.handled(Ev::Results(Ok((books, host))), now, past);
            &&& b.results == books@
            &&& b.marked.len() == books@.len()
            &&& forall|i: int| 0 <= i < books@.len() ==> !#[trigger] b.marked[i]
            &&& !b.busy
            &&& b.mode == Mode::Browsing
            &&& b.mirror_label == host@
            &&& b.visible.len() > 0 ==> b.row == Some(0usize)
            &&& b.visible.len() == 0 ==> b.row is None
            &&& b.actions == a.actions
            &&& books@.len() == 0 ==> b.status == "nothing found — try fewer words"@
            &&& books@.len() > 0 && b.visible.len() >= books@.len() ==> b.status == text::decimal(
                books@.len(),
            ) + " result(s)"@
            &&& b.visible.len() < books@.len() ==> b.status == text::decimal(b.visible.len())
                + " of "@ + text::decimal(books@.len()) + " match the filters"@
        }),
{
}

/// How far a download has come is noted of that download alone.
#[verifier::spinoff_prover]
pub proof fn lemma_progress_is_noted(
    a: AppView,
    md5: String,
    done: u64,
    total: Option<u64>,
    other: Seq<char>,
    now: u64,
    past: Seq<Entry>,
)
    ensures
        ({
            let b = a.handled(Ev::Progress { md5, done, total }, now, past);
            &&& b.jobs.contains_key(md5@)
            &&& b.jobs[md5@] == (JobView::Running { done, total })
            &&& other != md5@ && a.jobs.contains_key(other) ==> b.jobs.contains_key(other)
                && b.jobs[other] == a.jobs[other]
            &&& b == (AppView { jobs: b.jobs, ..a })
        }),
{
}

/// A download that is saved is so noted and said, and stands in the library; one
/// that failed is noted with the reason. Another can start once nothing is queued
/// or running.
#[verifier::spinoff_prover]
pub proof fn lemma_a_download_ends(
    a: AppView,
    md5: String,
    outcome: Result<String, String>,
    other: Seq<char>,
    now: u64,
    past: Seq<Entry>,
)
    ensures
        ({
            let b = a.handled(Ev::Finished { md5, outcome }, now, past);
            &&& b.jobs.contains_key(md5@)
            &&& outcome is Ok ==> b.jobs[md5@] == JobView::Saved(outcome->Ok_0@)
            &&& outcome is Ok ==> b.status == "saved "@ + outcome->Ok_0@
            &&& outcome is Ok ==> b.library == past
            &&& outcome is Err ==> b.jobs[md5@] is Failed
            &&& outcome is Err ==> b.error is Some
            &&& outcome is Err ==> b.library == a.library
            &&& other != md5@ && a.jobs.contains_key(other) ==> b.jobs.contains_key(other)
                && b.jobs[other] == a.jobs[other]
            &&& b.downloading <==> exists|k: Seq<char>| #[trigger]
                b.jobs.contains_key(k) && (b.jobs[k] is Queued || b.jobs[k] is Running)
        }),
{
    let b = a.handled(Ev::Finished { md5, outcome }, now, past);
    if b.downloading {
        let k = choose|k: Seq<char>| #[trigger] b.jobs.contains_key(k) && tui::active(b.jobs[k]);
        assert(b.jobs.contains_key(k));
    } else if exists|k: Seq<char>| #[trigger]
        b.jobs.contains_key(k) && (b.jobs[k] is Queued || b.jobs[k] is Running) {
        let k = choose|k: Seq<char>| #[trigger]
            b.jobs.contains_key(k) && (b.jobs[k] is Queued || b.jobs[k] is Running);
        assert(tui::active(b.jobs[k]));
    }
}

/// A pool of mirrors that was found is the pool; a failure is said and leaves the
/// pool as it was.
#[verifier::spinoff_prover]
pub proof fn lemma_mirrors_come_in(
    a: AppView,
    found: Result<Vec<String>, String>,
    now: u64,
    past: Seq<Entry>,
)
    requires
        !a.pending_search,
    ensures
        ({
            let b = a.handled(Ev::Mirrors(found), now, past);
            &&& !b.busy
            &&& found is Ok ==> b.mirrors == text::texts(found->Ok_0@)
            &&& found is Ok ==> b.status == text::decimal(found->Ok_0@.len())
                + " mirror(s) available"@
            &&& found is Err ==> b.mirrors == a.mirrors
            &&& found is Err ==> b.mirror_label == "unavailable"@
            &&& found is Err ==> b.error is Some
            &&& b.actions == a.actions
        }),
{
}

/// A file that was handed over is said to be; one that was not is an error.
#[verifier::spinoff_prover]
pub proof fn lemma_a_file_is_handed_over(
    a: AppView,
    said: String,
    outcome: Result<(), String>,
    now: u64,
    past: Seq<Entry>,
)
    ensures
        ({
            let b = a.handled(Ev::Launched { said, outcome }, now, past);
            &&& outcome is Ok ==> b == (AppView { error: None, status: said@, ..a })
            &&& outcome is Err ==> b.error is Some && b == (AppView { error: b.error, ..a })
        }),
{
}

/// A download that was forgotten is gone from the library, and the file is said
/// to be still there.
#[verifier::spinoff_prover]
pub proof fn lemma_a_download_is_forgotten(
    a: AppView,
    name: String,
    outcome: Result<(), String>,
    now: u64,
    past: Seq<Entry>,
)
    ensures
        ({
            let b = a.handled(Ev::Forgotten { name, outcome }, now, past);
            &&& outcome is Ok ==> b.library == past
            &&& outcome is Ok ==> b.status == "forgot "@ + name@ + " — the file is still there"@
            &&& outcome is Err ==> b.error is Some && b == (AppView { error: b.error, ..a })
        }),
{
}

/// A cover that comes in, or will not, is noted of its book alone.
#[verifier::spinoff_prover]
pub proof fn lemma_a_cover_comes_in(
    a: AppView,
    md5: String,
    result: Result<Option<crate::cover::Cover>, String>,
    other: Seq<char>,
    now: u64,
    past: Seq<Entry>,
)
    ensures
        ({
            let b = a.handled(Ev::Cover { md5, result }, now, past);
            &&& b.covers.contains_key(md5@)
            &&& result is Err ==> b.covers[md5@] == SlotView::Nothing
            &&& result is Ok && result->Ok_0 is None ==> b.covers[md5@] == SlotView::Nothing
            &&& other != md5@ && a.covers.contains_key(other) ==> b.covers.contains_key(other)
                && b.covers[other] == a.covers[other]
            &&& b == (AppView { covers: b.covers, ..a })
        }),
{
}

/// Once the selection has been still for long enough, the cover of the
/// highlighted book is looked for: of a search result on a mirror, of a past
/// download in its file.
#[verifier::spinoff_prover]
pub proof fn lemma_the_cover_of_the_highlighted_book_is_looked_for(
    a: AppView,
    now: u64,
    place: int,
)
    requires
        a.cover_due is Some,
        a.cover_due->0 <= now,
    ensures
        a.tab == Tab::Search && on_result(a, place) && a.mirrors.len() > 0
            && !a.covers.contains_key(a.results[place].md5@) ==> a.polled(now) == (AppView {
            cover_due: None,
            covers: a.covers.insert(a.results[place].md5@, SlotView::Looking),
            actions: a.actions.push(ActionView::SearchCover(a.results[place])),
            ..a
        }),
        a.tab == Tab::Library && on_download(a, place) && !a.covers.contains_key(
            a.library[place].md5@,
        ) ==> a.polled(now) == (AppView {
            cover_due: None,
            covers: a.covers.insert(a.library[place].md5@, SlotView::Looking),
            actions: a.actions.push(ActionView::LibraryCover(a.library[place])),
            ..a
        }),
        a.tab == Tab::Search && on_result(a, place) && a.mirrors.len() == 0 ==> a.polled(
            now,
        ).actions == a.actions,
{
    let settled = AppView { cover_due: None, ..a };
    assert(settled.focus() == a.focus());
    assert(settled.book() == a.book());
    assert(settled.entry() == a.entry());
}

// ---------------------------------------------------------------------------
// What shows
// ---------------------------------------------------------------------------

/// A result shows if and only if its format is the one that is asked for, if one
/// is, and its language the one that is asked for, if one is, whatever the case.
#[verifier::spinoff_prover]
pub proof fn lemma_what_the_filters_show(a: AppView, now: u64, k: int)
    requires
        a.results.len() <= usize::MAX,
        0 <= k < a.results.len(),
    ensures
        ({
            let b = a.results[k];
            let format = match b.extension {
                Some(e) => e@,
                None => seq![],
            };
            let language = match b.language {
                Some(l) => l@,
                None => "unknown"@,
            };
            a.refined(now).visible.contains(k as usize) <==> (a.fmt_filter is Some
                ==> text::ascii_lower(format) == text::ascii_lower(a.fmt_filter->0)) && (
            a.lang_filter is Some ==> text::ascii_lower(language) == text::ascii_lower(
                a.lang_filter->0,
            ))
        }),
{
    tui_laws::lemma_filters_compose(a, now, k);
}

#[verifier::spinoff_prover]
proof fn lemma_listed_places(a: AppView, n: nat, k: int)
    requires
        n <= a.library.len() <= usize::MAX,
        0 <= k < a.library.len(),
    ensures
        a.listed(n).contains(k as usize) <==> k < n && a.lists(a.library[k]),
    decreases n,
{
    if n > 0 {
        let before = a.listed((n - 1) as nat);
        lemma_listed_places(a, (n - 1) as nat, k);
        if a.lists(a.library[n - 1]) {
            let all = before.push((n - 1) as usize);
            assert(all.last() == (n - 1) as usize);
            if before.contains(k as usize) {
                let j = choose|j: int| 0 <= j < before.len() && before[j] == k as usize;
                assert(all[j] == k as usize);
            }
            if all.contains(k as usize) && k != n - 1 {
                let j = choose|j: int| 0 <= j < all.len() && all[j] == k as usize;
                assert(before[j] == k as usize);
            }
        }
    }
}

/// A past download shows if and only if what is typed stands in its title, its
/// authors or the name of its file, whatever the case; everything shows where
/// nothing is typed.
#[verifier::spinoff_prover]
pub proof fn lemma_what_the_library_shows(a: AppView, k: int)
    requires
        a.library.len() <= usize::MAX,
        0 <= k < a.library.len(),
    ensures
        ({
            let e = a.library[k];
            let typed = text::lowercased(text::trimmed(a.filter));
            a.refiltered().shown.contains(k as usize) <==> {
                ||| typed.len() == 0
                ||| text::has(text::lowercased(e.title@), typed)
                ||| e.authors is Some && text::has(text::lowercased(e.authors->0@), typed)
                ||| text::has(text::lowercased(name_said(e.path@)), typed)
            }
        }),
{
    reveal(AppView::shelved);
    let all = a.listed(a.library.len());
    lemma_listed_places(a, a.library.len(), k);
    crate::order::lemma_sorting_keeps_everything(
        crate::order::entry_keys(a.shelving.order, a.library),
        a.shelving.backwards,
        all,
    );
}

} // verus!
