//! What holds of the interface whatever happens.

use vstd::prelude::*;
use vstd::string::*;

use crate::graphics::Protocol;
use crate::history::Entry;
use crate::model::Book;
use crate::order;
use crate::order::Sorting;
use crate::query;
use crate::text;
use crate::tui;
use crate::tui::{AppView, Ev, Key, KeyCode, Mode, Tab};

verus! {

impl AppView {
    /// Everything points at something: the rows that show are places of results
    /// and of past downloads, the highlights are rows that show, there is a mark
    /// to every result, and the caret is within the box.
    #[verifier::opaque]
    pub open spec fn sound(self) -> bool {
        &&& self.marked.len() == self.results.len()
        &&& forall|i: int|
            0 <= i < self.visible.len() ==> #[trigger] self.visible[i] < self.results.len()
        &&& (match self.row {
            Some(i) => i < self.visible.len(),
            None => self.visible.len() == 0,
        })
        &&& forall|i: int|
            0 <= i < self.shown.len() ==> #[trigger] self.shown[i] < self.library.len()
        &&& (match self.library_row {
            Some(i) => i < self.shown.len(),
            None => self.shown.len() == 0,
        })
        &&& self.caret <= self.box_text().len()
    }

    /// The texts and lists are of lengths that a machine can hold.
    pub open spec fn held(self) -> bool {
        &&& self.query.len() < usize::MAX
        &&& self.filter.len() < usize::MAX
        &&& self.results.len() <= usize::MAX
        &&& self.library.len() <= usize::MAX
        &&& self.visible.len() <= usize::MAX
        &&& self.shown.len() <= usize::MAX
    }
}

proof fn lemma_listed(a: AppView, n: nat)
    requires
        n <= a.library.len(),
        a.library.len() <= usize::MAX,
    ensures
        forall|i: int| 0 <= i < a.listed(n).len() ==> #[trigger] a.listed(n)[i] < n,
        a.listed(n).len() <= n,
    decreases n,
{
    if n > 0 {
        lemma_listed(a, (n - 1) as nat);
    }
}

proof fn lemma_refiltered_sound(a: AppView)
    requires
        a.marked.len() == a.results.len(),
        forall|i: int| 0 <= i < a.visible.len() ==> #[trigger] a.visible[i] < a.results.len(),
        (match a.row {
            Some(i) => i < a.visible.len(),
            None => a.visible.len() == 0,
        }),
        a.caret <= a.box_text().len(),
        a.library.len() <= usize::MAX,
    ensures
        a.refiltered().sound(),
{
    reveal(AppView::sound);
    reveal(AppView::shelved);
    lemma_listed(a, a.library.len());
    order::lemma_sorting_stays_within(
        order::entry_keys(a.shelving.order, a.library),
        a.shelving.backwards,
        a.listed(a.library.len()),
        a.library.len(),
    );
}

proof fn lemma_row_of(a: AppView, md5: Seq<char>, p: int)
    requires
        0 <= p,
        a.visible.len() <= usize::MAX,
    ensures
        match a.row_of(md5, p) {
            Some(q) => p <= q < a.visible.len() && a.results[a.visible[q as int] as int].md5@
                == md5,
            None => forall|i: int|
                p <= i < a.visible.len() ==> a.results[#[trigger] a.visible[i] as int].md5@ != md5,
        },
    decreases a.visible.len() - p,
{
    if p < a.visible.len() && a.results[a.visible[p] as int].md5@ != md5 {
        lemma_row_of(a, md5, p + 1);
    }
}

proof fn lemma_refined_sound(a: AppView, now: u64)
    requires
        a.marked.len() == a.results.len(),
        a.results.len() <= usize::MAX,
        forall|i: int| 0 <= i < a.shown.len() ==> #[trigger] a.shown[i] < a.library.len(),
        (match a.library_row {
            Some(i) => i < a.shown.len(),
            None => a.shown.len() == 0,
        }),
        a.caret <= a.box_text().len(),
    ensures
        a.refined(now).sound(),
{
    reveal(AppView::sound);
    reveal(AppView::ordered);
    a.lemma_admitted(a.results.len());
    order::lemma_sorting_stays_within(
        order::book_keys(a.sorting.order, a.results),
        a.sorting.backwards,
        a.admitted(a.results.len()),
        a.results.len(),
    );
    let cut = AppView { visible: a.ordered(), ..a };
    match a.book() {
        Some(b) => {
            lemma_row_of(cut, b.md5@, 0);
        },
        None => {},
    }
}

proof fn lemma_moved_sound(a: AppView, delta: int, now: u64)
    requires
        a.sound(),
        a.held(),
    ensures
        a.moved(delta, now).sound(),
        a.moved_library(delta, now).sound(),
        a.moved_either(delta, now).sound(),
{
    reveal(AppView::sound);
}

proof fn lemma_marks_len(a: AppView, value: bool, n: nat)
    requires
        n <= a.visible.len(),
    ensures
        a.marks_set(value, n).len() == a.marked.len(),
    decreases n,
{
    if n > 0 {
        lemma_marks_len(a, value, (n - 1) as nat);
    }
}

proof fn lemma_cycled_sound(a: AppView, format: bool, step: int, now: u64)
    requires
        a.sound(),
        a.held(),
    ensures
        a.cycled(format, step, now).sound(),
        a.unfiltered(now).sound(),
{
    reveal(AppView::sound);
    let options = a.options(format);
    if options.len() > 0 {
        let at = match a.facet(format) {
            Some(c) => match tui::option_at(options, c, 0) {
                Some(i) => i + 1,
                None => 0,
            },
            None => 0,
        };
        let next = (at + step) % (options.len() as int + 1);
        let value = if next > 0 {
            Some(options[next - 1].0)
        } else {
            None
        };
        if format {
            lemma_refined_sound(AppView { fmt_filter: value, ..a }, now);
        } else {
            lemma_refined_sound(AppView { lang_filter: value, ..a }, now);
        }
    }
    lemma_refined_sound(AppView { fmt_filter: None, lang_filter: None, ..a }, now);
}

proof fn lemma_after_last_space(s: Seq<char>, e: int)
    requires
        0 <= e,
    ensures
        0 <= tui::after_last_space(s, e) <= e,
    decreases e,
{
    if e > 0 && s[e - 1] != ' ' {
        lemma_after_last_space(s, e - 1);
    }
}

proof fn lemma_white_start_within(s: Seq<char>, hi: int)
    requires
        0 <= hi <= s.len(),
    ensures
        0 <= text::white_start(s, 0, hi) <= hi,
    decreases hi,
{
    if 0 < hi && text::is_white(s[hi - 1]) {
        lemma_white_start_within(s, hi - 1);
    }
}

proof fn lemma_typed_sound(a: AppView, s: Seq<char>, caret: usize)
    requires
        a.sound(),
        a.held(),
        caret <= s.len(),
    ensures
        a.typed(s, caret).sound(),
{
    reveal(AppView::sound);
    match a.tab {
        Tab::Search => {},
        Tab::Library => {
            lemma_refiltered_sound(AppView { filter: s, caret, ..a });
        },
    }
}

/// What the soundness does not look at may change.
proof fn lemma_kept(a: AppView, b: AppView)
    requires
        a.sound(),
        b.results == a.results,
        b.marked == a.marked,
        b.visible == a.visible,
        b.row == a.row,
        b.library == a.library,
        b.shown == a.shown,
        b.library_row == a.library_row,
        b.caret <= b.box_text().len(),
    ensures
        b.sound(),
{
    reveal(AppView::sound);
}

proof fn lemma_caret(a: AppView)
    requires
        a.sound(),
    ensures
        a.caret <= a.box_text().len(),
{
    reveal(AppView::sound);
}

proof fn lemma_editing_char_sound(a: AppView, c: char, ctrl: bool, now: u64)
    requires
        a.sound(),
        a.held(),
    ensures
        a.pressed_editing(Key { code: KeyCode::Char(c), ctrl }, now).sound(),
{
    lemma_caret(a);
    let s = a.box_text();
    let at = tui::caret_in(a.caret, s.len());
    if ctrl && c == 'u' {
        lemma_typed_sound(a, seq![], 0);
    } else if ctrl && c == 'w' {
        let head = text::trimmed_end(s.take(at));
        lemma_white_start_within(s.take(at), at);
        lemma_after_last_space(head, head.len() as int);
        let cut = tui::after_last_space(head, head.len() as int);
        lemma_typed_sound(a, s.take(cut) + s.skip(at), cut as usize);
    } else {
        let caret = if a.caret < usize::MAX {
            (a.caret + 1) as usize
        } else {
            a.caret
        };
        lemma_typed_sound(a, s.insert(at, c), caret);
    }
}

proof fn lemma_editing_erase_sound(a: AppView, now: u64)
    requires
        a.sound(),
        a.held(),
    ensures
        a.pressed_editing(Key { code: KeyCode::Backspace, ctrl: false }, now).sound(),
        a.pressed_editing(Key { code: KeyCode::Delete, ctrl: false }, now).sound(),
{
    lemma_caret(a);
    let s = a.box_text();
    if a.caret > 0 {
        lemma_typed_sound(a, s.remove(a.caret - 1), (a.caret - 1) as usize);
    }
    if a.caret < s.len() {
        lemma_typed_sound(a, s.remove(a.caret as int), a.caret);
    }
}

proof fn lemma_searching_sound(a: AppView)
    requires
        a.sound(),
    ensures
        a.searching().sound(),
{
    lemma_caret(a);
    lemma_kept(a, a.searching());
}

proof fn lemma_editing_sound(a: AppView, key: Key, now: u64)
    requires
        a.sound(),
        a.held(),
    ensures
        a.pressed_editing(key, now).sound(),
{
    let after = a.pressed_editing(key, now);
    lemma_caret(a);
    match key.code {
        KeyCode::Enter => {
            let done = AppView { mode: Mode::Browsing, ..a };
            lemma_kept(a, done);
            lemma_searching_sound(done);
        },
        KeyCode::Char(c) => {
            lemma_editing_char_sound(a, c, key.ctrl, now);
        },
        KeyCode::Backspace => {
            lemma_editing_erase_sound(a, now);
        },
        KeyCode::Delete => {
            lemma_editing_erase_sound(a, now);
        },
        KeyCode::Down => {
            lemma_moved_sound(a, 1, now);
        },
        KeyCode::Up => {
            lemma_moved_sound(a, -1, now);
        },
        _ => {
            lemma_kept(a, after);
        },
    }
}

proof fn lemma_jumps_sound(a: AppView, now: u64)
    requires
        a.sound(),
        a.held(),
    ensures
        a.visible.len() > 0 ==> a.at_row(0, now).sound(),
        a.visible.len() > 0 ==> a.at_row((a.visible.len() - 1) as usize, now).sound(),
        a.shown.len() > 0 ==> a.at_library_row(0, now).sound(),
        a.shown.len() > 0 ==> a.at_library_row((a.shown.len() - 1) as usize, now).sound(),
{
    reveal(AppView::sound);
}

proof fn lemma_marking_sound(a: AppView, now: u64)
    requires
        a.sound(),
        a.held(),
    ensures
        a.mark_turned().moved(1, now).sound(),
        a.all_turned().sound(),
{
    lemma_marks_len(a, !a.all_marked(a.visible.len()), a.visible.len());
    assert(a.mark_turned().sound()) by {
        reveal(AppView::sound);
    }
    assert(a.all_turned().sound()) by {
        reveal(AppView::sound);
    }
    lemma_moved_sound(a.mark_turned(), 1, now);
}

proof fn lemma_work_sound(a: AppView, showing: bool, past: Seq<Entry>)
    requires
        a.sound(),
    ensures
        a.fetching().sound(),
        a.resolving(true).sound(),
        a.launched_result(showing, past).sound(),
        a.launched_entry(showing).sound(),
        a.forgetting().sound(),
{
    lemma_caret(a);
    lemma_kept(a, a.fetching());
    lemma_kept(a, a.resolving(true));
    lemma_kept(a, a.launched_result(showing, past));
    lemma_kept(a, a.launched_entry(showing));
    lemma_kept(a, a.forgetting());
}

#[verifier::spinoff_prover]
proof fn lemma_results_char_sound(a: AppView, c: char, ctrl: bool, now: u64, past: Seq<Entry>)
    requires
        a.sound(),
        a.held(),
        a.tab == Tab::Search,
        past.len() <= usize::MAX,
    ensures
        a.pressed_results(Key { code: KeyCode::Char(c), ctrl }, now, past).sound(),
{
    lemma_caret(a);
    if c == 'q' || c == '/' || c == 'i' || c == '?' || c == 'y' || c == 's' {
        lemma_kept(a, a.pressed_results(Key { code: KeyCode::Char(c), ctrl }, now, past));
    } else if c == 'j' {
        lemma_moved_sound(a, 1, now);
    } else if c == 'k' {
        lemma_moved_sound(a, -1, now);
    } else if c == 'g' || c == 'G' {
        lemma_jumps_sound(a, now);
    } else if c == ' ' || c == 'a' || c == 'A' {
        lemma_marking_sound(a, now);
    } else if c == 'e' {
        lemma_cycled_sound(a, true, 1, now);
    } else if c == 'E' {
        lemma_cycled_sound(a, true, -1, now);
    } else if c == 'l' {
        lemma_cycled_sound(a, false, 1, now);
    } else if c == 'L' || c == 'x' {
        lemma_cycled_sound(a, false, -1, now);
    } else if c == 'r' {
        lemma_searching_sound(a);
    } else if c == 'm' || c == 'o' {
        lemma_work_sound(a, false, past);
    } else if c == 'f' {
        lemma_work_sound(a, true, past);
    } else if c == 'h' {
        lemma_showing_sound(a, Tab::Library, now, past);
    } else if c == 'S' {
        lemma_reversed_sound(a, now);
    }
}

proof fn lemma_resorted_sound(a: AppView, s: Sorting, now: u64)
    requires
        a.sound(),
        a.held(),
    ensures
        a.resorted(s, now).sound(),
{
    reveal(AppView::sound);
    reveal(AppView::resorted);
    match a.tab {
        Tab::Search => lemma_refined_sound(AppView { sorting: s, ..a }, now),
        Tab::Library => lemma_refiltered_sound(AppView { shelving: s, ..a }),
    }
}

proof fn lemma_reversed_sound(a: AppView, now: u64)
    requires
        a.sound(),
        a.held(),
    ensures
        a.reversed(now).sound(),
{
    let s = a.current_sorting();
    lemma_resorted_sound(a, Sorting { backwards: !s.backwards, ..s }, now);
}

proof fn lemma_sorting_sound(a: AppView, key: Key, now: u64)
    requires
        a.sound(),
        a.held(),
    ensures
        a.pressed_sorting(key, now).sound(),
{
    lemma_caret(a);
    let closed = AppView { mode: Mode::Browsing, ..a };
    lemma_kept(a, closed);
    lemma_kept(a, a.menu_moved(true));
    lemma_kept(a, a.menu_moved(false));
    lemma_reversed_sound(a, now);
    let all = tui::choices(a.tab);
    if a.menu < all.len() {
        lemma_resorted_sound(
            closed,
            Sorting { order: all[a.menu as int], backwards: false },
            now,
        );
    }
}

proof fn lemma_results_sound(a: AppView, key: Key, now: u64, past: Seq<Entry>)
    requires
        a.sound(),
        a.held(),
        a.tab == Tab::Search,
        past.len() <= usize::MAX,
    ensures
        a.pressed_results(key, now, past).sound(),
{
    match key.code {
        KeyCode::Esc => {
            lemma_caret(a);
            lemma_kept(a, a.pressed_results(key, now, past));
        },
        KeyCode::Down => {
            lemma_moved_sound(a, 1, now);
        },
        KeyCode::Up => {
            lemma_moved_sound(a, -1, now);
        },
        KeyCode::PageDown => {
            lemma_moved_sound(a, 10, now);
        },
        KeyCode::PageUp => {
            lemma_moved_sound(a, -10, now);
        },
        KeyCode::Home => {
            lemma_jumps_sound(a, now);
        },
        KeyCode::End => {
            lemma_jumps_sound(a, now);
        },
        KeyCode::Enter => {
            lemma_work_sound(a, false, past);
        },
        KeyCode::Char(c) => {
            lemma_results_char_sound(a, c, key.ctrl, now, past);
        },
        _ => {},
    }
}

proof fn lemma_reloaded_sound(a: AppView, past: Seq<Entry>)
    requires
        a.sound(),
        past.len() <= usize::MAX,
    ensures
        a.reloaded(past).sound(),
{
    reveal(AppView::sound);
    lemma_refiltered_sound(AppView { library: past, ..a });
}

#[verifier::spinoff_prover]
proof fn lemma_library_char_sound(a: AppView, c: char, ctrl: bool, now: u64, past: Seq<Entry>)
    requires
        a.sound(),
        a.held(),
        a.tab == Tab::Library,
        past.len() <= usize::MAX,
    ensures
        a.pressed_library(Key { code: KeyCode::Char(c), ctrl }, now, past).sound(),
{
    lemma_caret(a);
    let after = a.pressed_library(Key { code: KeyCode::Char(c), ctrl }, now, past);
    if c == 'q' || c == '/' || c == 'i' || c == '?' || c == 'y' || c == 's' {
        lemma_kept(a, after);
    } else if c == 'S' {
        lemma_reversed_sound(a, now);
    } else if c == 'j' {
        lemma_moved_sound(a, 1, now);
    } else if c == 'k' {
        lemma_moved_sound(a, -1, now);
    } else if c == 'g' || c == 'G' {
        lemma_jumps_sound(a, now);
    } else if c == 'o' || c == 'd' {
        lemma_work_sound(a, false, past);
    } else if c == 'f' {
        lemma_work_sound(a, true, past);
    } else if c == 'r' {
        lemma_reloaded_sound(a, past);
        lemma_caret(a.reloaded(past));
        lemma_kept(a.reloaded(past), after);
    }
}

proof fn lemma_library_sound(a: AppView, key: Key, now: u64, past: Seq<Entry>)
    requires
        a.sound(),
        a.held(),
        a.tab == Tab::Library,
        past.len() <= usize::MAX,
    ensures
        a.pressed_library(key, now, past).sound(),
{
    match key.code {
        KeyCode::Esc => {
            lemma_caret(a);
            lemma_kept(a, a.pressed_library(key, now, past));
        },
        KeyCode::Down => {
            lemma_moved_sound(a, 1, now);
        },
        KeyCode::Up => {
            lemma_moved_sound(a, -1, now);
        },
        KeyCode::PageDown => {
            lemma_moved_sound(a, 10, now);
        },
        KeyCode::PageUp => {
            lemma_moved_sound(a, -10, now);
        },
        KeyCode::Home => {
            lemma_jumps_sound(a, now);
        },
        KeyCode::End => {
            lemma_jumps_sound(a, now);
        },
        KeyCode::Enter => {
            lemma_work_sound(a, false, past);
        },
        KeyCode::Char(c) => {
            lemma_library_char_sound(a, c, key.ctrl, now, past);
        },
        _ => {},
    }
}

proof fn lemma_showing_sound(a: AppView, tab: Tab, now: u64, past: Seq<Entry>)
    requires
        a.sound(),
        a.held(),
        past.len() <= usize::MAX,
    ensures
        a.showing(tab, now, past).sound(),
{
    reveal(AppView::sound);
    let turned = AppView { tab, error: None, ..a };
    let placed = AppView { caret: turned.box_text().len() as usize, ..turned };
    lemma_refiltered_sound(AppView { library: past, ..placed });
}

/// Whatever key is pressed, everything still points at something: the highlight
/// cannot run off a list, and the caret cannot leave the box.
pub proof fn lemma_keys_keep_the_interface_sound(
    a: AppView,
    key: Key,
    now: u64,
    past: Seq<Entry>,
)
    requires
        a.sound(),
        a.held(),
        past.len() <= usize::MAX,
    ensures
        a.pressed(key, now, past).sound(),
{
    if key.ctrl && key.code == KeyCode::Char('c') {
        lemma_caret(a);
        lemma_kept(a, a.pressed(key, now, past));
    } else if key.code == KeyCode::Tab || key.code == KeyCode::BackTab {
        let out = AppView {
            mode: if a.mode == Mode::Editing {
                Mode::Editing
            } else {
                Mode::Browsing
            },
            ..a
        };
        lemma_caret(a);
        lemma_kept(a, out);
        lemma_showing_sound(out, a.tab.beside(), now, past);
    } else if key.code == KeyCode::Char('1') && a.mode != Mode::Editing {
        let out = AppView { mode: Mode::Browsing, ..a };
        lemma_caret(a);
        lemma_kept(a, out);
        lemma_showing_sound(out, Tab::Search, now, past);
    } else if key.code == KeyCode::Char('2') && a.mode != Mode::Editing {
        let out = AppView { mode: Mode::Browsing, ..a };
        lemma_caret(a);
        lemma_kept(a, out);
        lemma_showing_sound(out, Tab::Library, now, past);
    } else {
        match a.mode {
            Mode::Help => {
                lemma_caret(a);
                lemma_kept(a, AppView { mode: Mode::Browsing, ..a });
            },
            Mode::Editing => {
                lemma_editing_sound(a, key, now);
            },
            Mode::Sorting => {
                lemma_sorting_sound(a, key, now);
            },
            Mode::Browsing => {
                if a.tab == Tab::Search {
                    lemma_results_sound(a, key, now, past);
                } else {
                    lemma_library_sound(a, key, now, past);
                }
            },
        }
    }
}

proof fn lemma_resolved_sound(a: AppView, found: Result<Vec<String>, String>, now: u64)
    requires
        a.sound(),
    ensures
        a.resolved(found, now).sound(),
{
    lemma_caret(a);
    lemma_kept(a, a.resolved(found, now));
}

proof fn lemma_found_sound(a: AppView, outcome: Result<(Vec<Book>, String), String>, now: u64)
    requires
        a.sound(),
        (match outcome {
            Ok((books, _)) => books@.len() <= usize::MAX,
            Err(_) => true,
        }),
    ensures
        a.found(outcome, now).sound(),
{
    lemma_caret(a);
    match outcome {
        Ok((books, host)) => {
            let fresh = AppView {
                busy: false,
                mirror_label: host@,
                marked: Seq::new(books@.len(), |i: int| false),
                row: None,
                results: books@,
                ..a
            };
            assert(fresh.refined(now).sound()) by {
                reveal(AppView::sound);
                lemma_refined_sound(fresh, now);
            }
            lemma_caret(fresh.refined(now));
            lemma_kept(fresh.refined(now), a.found(outcome, now));
        },
        Err(e) => {
            lemma_kept(a, a.found(outcome, now));
        },
    }
}

proof fn lemma_finished_sound(
    a: AppView,
    md5: Seq<char>,
    outcome: Result<String, String>,
    past: Seq<Entry>,
)
    requires
        a.sound(),
        past.len() <= usize::MAX,
    ensures
        a.finished(md5, outcome, past).sound(),
{
    lemma_caret(a);
    match outcome {
        Ok(name) => {
            let there = AppView { status: "saved "@ + name@, ..a };
            lemma_kept(a, there);
            lemma_reloaded_sound(there, past);
            lemma_caret(there.reloaded(past));
            lemma_kept(there.reloaded(past), a.finished(md5, outcome, past));
        },
        Err(e) => {
            lemma_kept(a, a.finished(md5, outcome, past));
        },
    }
}

proof fn lemma_forgotten_sound(
    a: AppView,
    name: Seq<char>,
    outcome: Result<(), String>,
    past: Seq<Entry>,
)
    requires
        a.sound(),
        past.len() <= usize::MAX,
    ensures
        a.forgotten(name, outcome, past).sound(),
{
    lemma_caret(a);
    lemma_reloaded_sound(a, past);
    lemma_caret(a.reloaded(past));
    match outcome {
        Ok(_) => {
            lemma_kept(a.reloaded(past), a.forgotten(name, outcome, past));
        },
        Err(e) => {
            lemma_kept(a, a.forgotten(name, outcome, past));
        },
    }
}

proof fn lemma_news_sound(
    a: AppView,
    md5: Seq<char>,
    job: tui::JobView,
    result: Result<Option<crate::cover::Cover>, String>,
    said: Seq<char>,
    outcome: Result<(), String>,
)
    requires
        a.sound(),
    ensures
        a.erased().sound(),
        (AppView { jobs: a.jobs.insert(md5, job), ..a }).sound(),
        a.covered(md5, result).sound(),
        a.launched(said, outcome).sound(),
{
    lemma_caret(a);
    lemma_kept(a, a.erased());
    lemma_kept(a, AppView { jobs: a.jobs.insert(md5, job), ..a });
    lemma_kept(a, a.covered(md5, result));
    lemma_kept(a, a.launched(said, outcome));
}

/// Whatever happens, everything still points at something.
pub proof fn lemma_events_keep_the_interface_sound(
    a: AppView,
    ev: Ev,
    now: u64,
    past: Seq<Entry>,
)
    requires
        a.sound(),
        a.held(),
        past.len() <= usize::MAX,
        (match ev {
            Ev::Results(Ok((books, _))) => books@.len() <= usize::MAX,
            _ => true,
        }),
    ensures
        a.handled(ev, now, past).sound(),
{
    match ev {
        Ev::Key(key) => {
            lemma_keys_keep_the_interface_sound(a, key, now, past);
        },
        Ev::Mirrors(found) => {
            lemma_resolved_sound(a, found, now);
        },
        Ev::Results(found) => {
            lemma_found_sound(a, found, now);
        },
        Ev::Finished { md5, outcome } => {
            lemma_finished_sound(a, md5@, outcome, past);
        },
        Ev::Forgotten { name, outcome } => {
            lemma_forgotten_sound(a, name@, outcome, past);
        },
        Ev::Redraw => {
            lemma_news_sound(a, seq![], tui::JobView::Queued, Ok(None), seq![], Ok(()));
        },
        Ev::Progress { md5, done, total } => {
            let job = tui::JobView::Running { done, total };
            lemma_news_sound(a, md5@, job, Ok(None), seq![], Ok(()));
        },
        Ev::Cover { md5, result } => {
            lemma_news_sound(a, md5@, tui::JobView::Queued, result, seq![], Ok(()));
        },
        Ev::Launched { said, outcome } => {
            lemma_news_sound(a, seq![], tui::JobView::Queued, Ok(None), said@, outcome);
        },
    }
}

/// A fresh session is sound.
pub proof fn lemma_a_session_begins_sound(
    settings: crate::commands::Settings,
    query: Seq<char>,
    protocol: Protocol,
    past: Seq<Entry>,
    refresh: bool,
)
    requires
        query.len() < usize::MAX,
        past.len() <= usize::MAX,
    ensures
        AppView::fresh(settings, query, protocol).reloaded(past).resolving(refresh).sound(),
{
    reveal(AppView::sound);
    let a = AppView::fresh(settings, query, protocol);
    lemma_refiltered_sound(AppView { library: past, ..a });
}

/// The history is read when it counts: what asks for it is known beforehand, and
/// anything else is handled the same whatever the history holds.
pub proof fn lemma_the_history_is_read_when_it_counts(
    a: AppView,
    ev: Ev,
    now: u64,
    past: Seq<Entry>,
    other: Seq<Entry>,
)
    requires
        !a.consults(ev),
    ensures
        a.handled(ev, now, past) == a.handled(ev, now, other),
{
    match ev {
        Ev::Key(key) => lemma_a_key_without_the_history(a, key, now, past, other),
        _ => {},
    }
}

#[verifier::spinoff_prover]
proof fn lemma_a_key_without_the_history(
    a: AppView,
    key: Key,
    now: u64,
    past: Seq<Entry>,
    other: Seq<Entry>,
)
    requires
        !a.key_consults(key),
    ensures
        a.pressed(key, now, past) == a.pressed(key, now, other),
{
    if key.ctrl && key.code == KeyCode::Char('c') {
    } else if key.code == KeyCode::Tab || key.code == KeyCode::BackTab {
    } else if key.code == KeyCode::Char('1') && a.mode != Mode::Editing {
    } else if key.code == KeyCode::Char('2') && a.mode != Mode::Editing {
    } else if a.mode == Mode::Browsing {
        if a.tab == Tab::Search {
            lemma_results_without_the_history(a, key, now, past, other);
        } else {
            lemma_library_without_the_history(a, key, now, past, other);
        }
    }
}

#[verifier::spinoff_prover]
proof fn lemma_results_without_the_history(
    a: AppView,
    key: Key,
    now: u64,
    past: Seq<Entry>,
    other: Seq<Entry>,
)
    requires
        key.code != KeyCode::Char('o'),
        key.code != KeyCode::Char('f'),
        key.code != KeyCode::Char('h'),
    ensures
        a.pressed_results(key, now, past) == a.pressed_results(key, now, other),
{
}

#[verifier::spinoff_prover]
proof fn lemma_library_without_the_history(
    a: AppView,
    key: Key,
    now: u64,
    past: Seq<Entry>,
    other: Seq<Entry>,
)
    requires
        key.code != KeyCode::Char('r'),
    ensures
        a.pressed_library(key, now, past) == a.pressed_library(key, now, other),
{
}

/// Ctrl-C quits from anywhere, and nothing else is touched.
pub proof fn lemma_ctrl_c_quits(a: AppView, now: u64, past: Seq<Entry>)
    ensures
        a.pressed(Key { code: KeyCode::Char('c'), ctrl: true }, now, past) == (AppView {
            quit: true,
            ..a
        }),
{
}

/// Any key but Ctrl-C closes the help; and closing it is all a key does that
/// goes to no tab.
pub proof fn lemma_any_key_closes_help(a: AppView, key: Key, now: u64, past: Seq<Entry>)
    requires
        a.mode == Mode::Help,
        !(key.ctrl && key.code == KeyCode::Char('c')),
    ensures
        a.pressed(key, now, past).mode == Mode::Browsing,
        key.code != KeyCode::Tab && key.code != KeyCode::BackTab && key.code != KeyCode::Char('1')
            && key.code != KeyCode::Char('2') ==> a.pressed(key, now, past) == (AppView {
            mode: Mode::Browsing,
            ..a
        }),
{
}

proof fn lemma_tab_turns(a: AppView, now: u64, past: Seq<Entry>)
    ensures
        a.pressed(Key { code: KeyCode::Tab, ctrl: false }, now, past).tab == a.tab.beside(),
{
    let out = AppView {
        mode: if a.mode == Mode::Editing {
            Mode::Editing
        } else {
            Mode::Browsing
        },
        ..a
    };
    assert(out.showing(a.tab.beside(), now, past).tab == a.tab.beside());
}

/// Tab always reaches the other tab, whatever is going on, and pressing it again
/// comes back.
pub proof fn lemma_tab_always_works(a: AppView, now: u64, past: Seq<Entry>)
    ensures
        ({
            let key = Key { code: KeyCode::Tab, ctrl: false };
            let there = a.pressed(key, now, past);
            &&& there.tab == a.tab.beside()
            &&& there.tab != a.tab
            &&& there.pressed(key, now, past).tab == a.tab
        }),
{
    let key = Key { code: KeyCode::Tab, ctrl: false };
    lemma_tab_turns(a, now, past);
    lemma_tab_turns(a.pressed(key, now, past), now, past);
}

proof fn lemma_typing(a: AppView, c: char, now: u64, past: Seq<Entry>)
    requires
        a.mode == Mode::Editing,
    ensures
        a.pressed(Key { code: KeyCode::Char(c), ctrl: false }, now, past) == a.with_char(c),
{
}

proof fn lemma_erasing(a: AppView, now: u64, past: Seq<Entry>)
    requires
        a.mode == Mode::Editing,
        a.caret > 0,
    ensures
        a.pressed(Key { code: KeyCode::Backspace, ctrl: false }, now, past) == a.without_char(
            a.caret - 1,
            (a.caret - 1) as usize,
        ),
{
}

proof fn lemma_boxes(a: AppView, s: Seq<char>, caret: usize)
    ensures
        a.typed(s, caret).box_text() == s,
        a.typed(s, caret).caret == caret,
        a.typed(s, caret).mode == a.mode,
        a.typed(s, caret).quit == a.quit,
        a.typed(s, caret).tab == a.tab,
{
}

/// Letters reach the box while it has the keyboard, whatever they mean
/// elsewhere.
pub proof fn lemma_letters_are_literal_while_editing(
    a: AppView,
    c: char,
    now: u64,
    past: Seq<Entry>,
)
    requires
        a.mode == Mode::Editing,
        a.sound(),
        a.held(),
    ensures
        ({
            let next = a.pressed(Key { code: KeyCode::Char(c), ctrl: false }, now, past);
            &&& next.box_text() == a.box_text().insert(a.caret as int, c)
            &&& next.caret == a.caret + 1
            &&& next.quit == a.quit
        }),
{
    lemma_caret(a);
    lemma_typing(a, c, now, past);
    lemma_boxes(a, a.box_text().insert(a.caret as int, c), (a.caret + 1) as usize);
}

proof fn lemma_char_undone(a: AppView, c: char)
    requires
        a.caret <= a.box_text().len(),
        a.box_text().len() < usize::MAX,
    ensures
        ({
            let typed = a.with_char(c);
            let back = typed.without_char(typed.caret - 1, (typed.caret - 1) as usize);
            &&& typed.mode == a.mode
            &&& typed.caret > 0
            &&& back.box_text() == a.box_text()
            &&& back.caret == a.caret
        }),
{
    let s = a.box_text();
    let at = a.caret as int;
    lemma_boxes(a, s.insert(at, c), (at + 1) as usize);
    assert(s.insert(at, c).remove(at) =~= s);
    lemma_boxes(a.with_char(c), s, a.caret);
}

/// Typing a character and taking it back leaves the box and the caret as they
/// were.
pub proof fn lemma_backspace_undoes_typing(a: AppView, c: char, now: u64, past: Seq<Entry>)
    requires
        a.mode == Mode::Editing,
        a.sound(),
        a.held(),
    ensures
        ({
            let typed = a.pressed(Key { code: KeyCode::Char(c), ctrl: false }, now, past);
            let back = typed.pressed(Key { code: KeyCode::Backspace, ctrl: false }, now, past);
            &&& back.box_text() == a.box_text()
            &&& back.caret == a.caret
        }),
{
    lemma_caret(a);
    lemma_char_undone(a, c);
    lemma_typing(a, c, now, past);
    lemma_erasing(a.with_char(c), now, past);
}

/// The rows that show are exactly the results that both filters admit, each
/// once; in the order they came in, unless they are sorted otherwise.
pub proof fn lemma_filters_compose(a: AppView, now: u64, k: int)
    requires
        a.results.len() <= usize::MAX,
        0 <= k < a.results.len(),
    ensures
        a.refined(now).visible.contains(k as usize) <==> (tui::fmt_fits(a.fmt_filter, a.results[k])
            && tui::lang_fits(a.lang_filter, a.results[k])),
        a.refined(now).visible.no_duplicates(),
        a.sorting == order::as_it_came() ==> forall|i: int, j: int|
            0 <= i < j < a.refined(now).visible.len() ==> a.refined(now).visible[i] < a.refined(
                now,
            ).visible[j],
{
    reveal(AppView::ordered);
    a.lemma_admitted(a.results.len());
    let all = a.admitted(a.results.len());
    order::lemma_sorting_keeps_everything(
        order::book_keys(a.sorting.order, a.results),
        a.sorting.backwards,
        all,
    );
    assert(a.refined(now).visible == a.ordered());
    assert(a.ordered().contains(k as usize) <==> all.contains(k as usize));
    if all.contains(k as usize) {
        let i = choose|i: int| 0 <= i < all.len() && all[i] == k as usize;
        assert(a.admits(a.results[all[i] as int]));
    }
    if a.sorting == order::as_it_came() {
        order::lemma_results_stay_as_they_came(a.results, all);
    }
}

/// The rows that show are in the order that was chosen: none goes before one
/// that stands ahead of it.
pub proof fn lemma_results_are_in_order(a: AppView, now: u64)
    ensures
        order::in_order(
            order::book_keys(a.sorting.order, a.results),
            a.sorting.backwards,
            a.refined(now).visible,
        ),
{
    order::lemma_sorting_sorts(
        order::book_keys(a.sorting.order, a.results),
        a.sorting.backwards,
        a.admitted(a.results.len()),
    );
    reveal(AppView::ordered);
    assert(a.refined(now).visible == a.ordered());
}

/// The same of the library.
pub proof fn lemma_the_library_is_in_order(a: AppView)
    ensures
        order::in_order(
            order::entry_keys(a.shelving.order, a.library),
            a.shelving.backwards,
            a.refiltered().shown,
        ),
{
    reveal(AppView::shelved);
    order::lemma_sorting_sorts(
        order::entry_keys(a.shelving.order, a.library),
        a.shelving.backwards,
        a.listed(a.library.len()),
    );
}

/// The highlight stays on the same book when it survives the cut.
pub proof fn lemma_refining_keeps_the_highlighted_book(a: AppView, now: u64)
    requires
        a.sound(),
        a.results.len() <= usize::MAX,
        a.book() is Some,
        a.admits(a.book()->0),
    ensures
        a.refined(now).book() is Some,
        a.refined(now).book()->0.md5@ == a.book()->0.md5@,
{
    reveal(AppView::sound);
    let n = a.results.len();
    let b = a.book()->0;
    let place = a.visible[a.row->0 as int];
    reveal(AppView::ordered);
    a.lemma_admitted(n);
    order::lemma_sorting_stays_within(
        order::book_keys(a.sorting.order, a.results),
        a.sorting.backwards,
        a.admitted(n),
        n,
    );
    order::lemma_sorting_keeps_everything(
        order::book_keys(a.sorting.order, a.results),
        a.sorting.backwards,
        a.admitted(n),
    );
    let cut = AppView { visible: a.ordered(), ..a };
    lemma_row_of(cut, b.md5@, 0);
    assert(a.results[place as int] == b);
    assert(a.admitted(n).contains(place));
    assert(cut.visible.contains(place));
    let i = choose|i: int| 0 <= i < cut.visible.len() && cut.visible[i] == place;
    assert(a.results[cut.visible[i] as int].md5@ == b.md5@);
}

/// The filters survive a new search; the marks do not.
pub proof fn lemma_filters_survive_a_new_search(
    a: AppView,
    books: Seq<Book>,
    host: Seq<char>,
    now: u64,
)
    ensures
        ({
            let next = a.with_results(books, host, now);
            &&& next.fmt_filter == a.fmt_filter
            &&& next.lang_filter == a.lang_filter
            &&& next.results == books
            &&& forall|i: int| 0 <= i < next.marked.len() ==> !#[trigger] next.marked[i]
        }),
{
}

proof fn lemma_marks_set(a: AppView, value: bool, n: nat, k: int)
    requires
        n <= a.visible.len(),
        0 <= k < a.marked.len(),
    ensures
        a.marks_set(value, n).len() == a.marked.len(),
        a.marks_set(value, n)[k] == (if exists|i: int| 0 <= i < n && #[trigger] a.visible[i] == k {
            value
        } else {
            a.marked[k]
        }),
    decreases n,
{
    if n > 0 {
        lemma_marks_set(a, value, (n - 1) as nat, k);
        if a.visible[n - 1] == k {
            assert(a.visible[n - 1] == k);
        } else if exists|i: int| 0 <= i < n && #[trigger] a.visible[i] == k {
            let i = choose|i: int| 0 <= i < n && #[trigger] a.visible[i] == k;
            assert(i < n - 1);
        }
    }
}

/// Marking everything marks only what is showing: a result that the filters hide
/// keeps the mark it has.
pub proof fn lemma_marking_everything_means_everything_showing(a: AppView, k: int)
    requires
        a.sound(),
        0 <= k < a.marked.len(),
    ensures
        a.all_turned().marked[k] == (if exists|i: int|
            0 <= i < a.visible.len() && #[trigger] a.visible[i] == k {
            !a.all_marked(a.visible.len())
        } else {
            a.marked[k]
        }),
{
    reveal(AppView::sound);
    lemma_marks_set(a, !a.all_marked(a.visible.len()), a.visible.len(), k);
}

// ---------------------------------------------------------------------------
// Facets
// ---------------------------------------------------------------------------

/// How many of the first `n` results the other facet admits and carry a value.
spec fn carrying(a: AppView, format: bool, name: Seq<char>, n: nat) -> nat
    decreases n,
{
    if n == 0 {
        0
    } else {
        carrying(a, format, name, (n - 1) as nat) + (if a.other_fits(format, a.results[n - 1])
            && tui::alike(a.facet_value(format, a.results[n - 1]), name) {
            1nat
        } else {
            0nat
        })
    }
}

/// No two options carry the same name, whatever the case of its letters.
spec fn unlike(v: Seq<(Seq<char>, nat)>) -> bool {
    forall|i: int, j: int|
        0 <= i < j < v.len() ==> !tui::alike((#[trigger] v[i]).0, (#[trigger] v[j]).0)
}

proof fn lemma_option_at(v: Seq<(Seq<char>, nat)>, name: Seq<char>, i: int)
    requires
        0 <= i,
    ensures
        match tui::option_at(v, name, i) {
            Some(k) => i <= k < v.len() && tui::alike(v[k].0, name),
            None => forall|k: int| i <= k < v.len() ==> !tui::alike((#[trigger] v[k]).0, name),
        },
    decreases v.len() - i,
{
    if i < v.len() && !tui::alike(v[i].0, name) {
        lemma_option_at(v, name, i + 1);
    }
}

proof fn lemma_lower_twice(s: Seq<char>)
    ensures
        text::ascii_lower(text::ascii_lower(s)) == text::ascii_lower(s),
{
    assert(text::ascii_lower(text::ascii_lower(s)) =~= text::ascii_lower(s));
}

/// A value that no result carries is counted by no one.
proof fn lemma_none_carrying(a: AppView, format: bool, name: Seq<char>, n: nat)
    requires
        n <= a.results.len(),
        forall|k: int|
            0 <= k < a.tally(format, n).len() ==> !tui::alike(
                (#[trigger] a.tally(format, n)[k]).0,
                name,
            ),
    ensures
        carrying(a, format, name, n) == 0,
    decreases n,
{
    if n > 0 {
        let before = a.tally(format, (n - 1) as nat);
        let all = a.tally(format, n);
        let b = a.results[n - 1];
        let value = a.facet_value(format, b);
        if a.other_fits(format, b) {
            lemma_option_at(before, value, 0);
            assert forall|k: int| 0 <= k < before.len() implies !tui::alike(
                (#[trigger] before[k]).0,
                name,
            ) by {
                assert(all[k].0 == before[k].0);
            }
            lemma_none_carrying(a, format, name, (n - 1) as nat);
            match tui::option_at(before, value, 0) {
                Some(i) => {
                    assert(all[i].0 == before[i].0);
                },
                None => {
                    assert(all[before.len() as int].0 == value);
                },
            }
        } else {
            lemma_none_carrying(a, format, name, (n - 1) as nat);
        }
    }
}

proof fn lemma_tally(a: AppView, format: bool, n: nat)
    requires
        n <= a.results.len(),
    ensures
        unlike(a.tally(format, n)),
        forall|k: int|
            0 <= k < a.tally(format, n).len() ==> (#[trigger] a.tally(format, n)[k]).1 == carrying(
                a,
                format,
                a.tally(format, n)[k].0,
                n,
            ),
    decreases n,
{
    if n > 0 {
        let before = a.tally(format, (n - 1) as nat);
        let all = a.tally(format, n);
        let b = a.results[n - 1];
        let value = a.facet_value(format, b);
        lemma_tally(a, format, (n - 1) as nat);
        if a.other_fits(format, b) {
            lemma_option_at(before, value, 0);
            match tui::option_at(before, value, 0) {
                Some(i) => {
                    assert forall|k: int| 0 <= k < all.len() implies (#[trigger] all[k]).1
                        == carrying(a, format, all[k].0, n) by {
                        assert(all[k].0 == before[k].0);
                        if k < i {
                            assert(!tui::alike(before[k].0, before[i].0));
                        } else if k > i {
                            assert(!tui::alike(before[i].0, before[k].0));
                        }
                    }
                    assert forall|x: int, y: int| 0 <= x < y < all.len() implies !tui::alike(
                        (#[trigger] all[x]).0,
                        (#[trigger] all[y]).0,
                    ) by {
                        assert(!tui::alike(before[x].0, before[y].0));
                    }
                },
                None => {
                    lemma_none_carrying(a, format, value, (n - 1) as nat);
                    assert forall|k: int| 0 <= k < all.len() implies (#[trigger] all[k]).1
                        == carrying(a, format, all[k].0, n) by {
                        if k < before.len() {
                            assert(all[k] == before[k]);
                            assert(!tui::alike(before[k].0, value));
                        }
                    }
                    assert forall|x: int, y: int| 0 <= x < y < all.len() implies !tui::alike(
                        (#[trigger] all[x]).0,
                        (#[trigger] all[y]).0,
                    ) by {
                        if y < before.len() {
                            assert(!tui::alike(before[x].0, before[y].0));
                        } else {
                            assert(!tui::alike(before[x].0, value));
                        }
                    }
                },
            }
        }
    }
}

proof fn lemma_arranged_in_holds(v: Seq<(Seq<char>, nat)>, o: (Seq<char>, nat), k: int) -> (i: int)
    requires
        0 <= k < tui::arranged_in(v, o).len(),
    ensures
        i == -1 ==> tui::arranged_in(v, o)[k] == o,
        i != -1 ==> 0 <= i < v.len() && tui::arranged_in(v, o)[k] == v[i],
    decreases v.len(),
{
    if v.len() == 0 || !tui::ahead(o, v.last()) {
        if k < v.len() {
            k
        } else {
            -1
        }
    } else {
        let front = tui::arranged_in(v.drop_last(), o);
        if k < front.len() {
            let i = lemma_arranged_in_holds(v.drop_last(), o, k);
            i
        } else {
            v.len() - 1
        }
    }
}

proof fn lemma_arranged_holds(v: Seq<(Seq<char>, nat)>, k: int) -> (i: int)
    requires
        0 <= k < tui::arranged(v).len(),
    ensures
        0 <= i < v.len(),
        tui::arranged(v)[k] == v[i],
    decreases v.len(),
{
    let front = tui::arranged(v.drop_last());
    let j = lemma_arranged_in_holds(front, v.last(), k);
    if j == -1 {
        v.len() - 1
    } else {
        lemma_arranged_holds(v.drop_last(), j)
    }
}

proof fn lemma_admitted_count(a: AppView, format: bool, name: Seq<char>, n: nat)
    requires
        n <= a.results.len(),
        a.facet(format) == Some(name),
    ensures
        a.admitted(n).len() == carrying(a, format, name, n),
    decreases n,
{
    if n > 0 {
        lemma_admitted_count(a, format, name, (n - 1) as nat);
        lemma_lower_twice(a.results[n - 1].ext_text());
    }
}

proof fn lemma_carrying_ignores_own_facet(a: AppView, b: AppView, format: bool, name: Seq<char>, n: nat)
    requires
        n <= a.results.len(),
        a.results == b.results,
        format ==> a.lang_filter == b.lang_filter,
        !format ==> a.fmt_filter == b.fmt_filter,
    ensures
        carrying(a, format, name, n) == carrying(b, format, name, n),
    decreases n,
{
    if n > 0 {
        lemma_carrying_ignores_own_facet(a, b, format, name, (n - 1) as nat);
    }
}

/// The number beside a choice of a facet is the number of results that choosing
/// it leaves on screen.
pub proof fn lemma_counts_say_what_a_choice_leaves(a: AppView, format: bool, k: int, now: u64)
    requires
        0 <= k < a.options(format).len(),
    ensures
        ({
            let (name, count) = a.options(format)[k];
            let chosen = if format {
                AppView { fmt_filter: Some(name), ..a }
            } else {
                AppView { lang_filter: Some(name), ..a }
            };
            chosen.refined(now).visible.len() == count
        }),
{
    let n = a.results.len();
    let t = a.tally(format, n);
    let (name, count) = a.options(format)[k];
    let i = lemma_arranged_holds(t, k);
    lemma_tally(a, format, n);
    assert(t[i].1 == carrying(a, format, t[i].0, n));
    let chosen = if format {
        AppView { fmt_filter: Some(name), ..a }
    } else {
        AppView { lang_filter: Some(name), ..a }
    };
    lemma_carrying_ignores_own_facet(a, chosen, format, name, n);
    reveal(AppView::ordered);
    lemma_admitted_count(chosen, format, name, n);
    order::lemma_sorting_keeps_everything(
        order::book_keys(chosen.sorting.order, chosen.results),
        chosen.sorting.backwards,
        chosen.admitted(n),
    );
}

proof fn lemma_arranged_in_counts(v: Seq<(Seq<char>, nat)>, o: (Seq<char>, nat))
    requires
        forall|i: int, j: int| 0 <= i <= j < v.len() ==> v[i].1 >= v[j].1,
    ensures
        forall|i: int, j: int|
            0 <= i <= j < tui::arranged_in(v, o).len() ==> tui::arranged_in(v, o)[i].1
                >= tui::arranged_in(v, o)[j].1,
        forall|i: int|
            0 <= i < tui::arranged_in(v, o).len() ==> (#[trigger] tui::arranged_in(v, o)[i]).1
                >= o.1 || (v.len() > 0 && tui::arranged_in(v, o)[i].1 >= v.last().1),
    decreases v.len(),
{
    if v.len() == 0 || !tui::ahead(o, v.last()) {
    } else {
        let front = v.drop_last();
        lemma_arranged_in_counts(front, o);
        let w = tui::arranged_in(front, o);
        let all = tui::arranged_in(v, o);
        assert(front.len() > 0 ==> front.last().1 >= v.last().1);
        assert forall|i: int, j: int| 0 <= i <= j < all.len() implies all[i].1 >= all[j].1 by {
            if j < w.len() {
                assert(all[i] == w[i] && all[j] == w[j]);
            } else if i < w.len() {
                assert(all[i] == w[i]);
            }
        }
        assert forall|i: int| 0 <= i < all.len() implies (#[trigger] all[i]).1 >= o.1 || all[i].1
            >= v.last().1 by {
            if i < w.len() {
                assert(all[i] == w[i]);
            }
        }
    }
}

proof fn lemma_arranged_counts(v: Seq<(Seq<char>, nat)>)
    ensures
        forall|i: int, j: int|
            0 <= i <= j < tui::arranged(v).len() ==> tui::arranged(v)[i].1 >= tui::arranged(v)[j].1,
    decreases v.len(),
{
    if v.len() > 0 {
        lemma_arranged_counts(v.drop_last());
        lemma_arranged_in_counts(tui::arranged(v.drop_last()), v.last());
    }
}

/// The choices of a facet come most common first.
pub proof fn lemma_most_common_first(a: AppView, format: bool, i: int, j: int)
    requires
        0 <= i <= j < a.options(format).len(),
    ensures
        a.options(format)[i].1 >= a.options(format)[j].1,
{
    lemma_arranged_counts(a.tally(format, a.results.len()));
}

proof fn lemma_tally_ignores_own_facet(a: AppView, b: AppView, format: bool, n: nat)
    requires
        n <= a.results.len(),
        a.results == b.results,
        format ==> a.lang_filter == b.lang_filter,
        !format ==> a.fmt_filter == b.fmt_filter,
    ensures
        a.tally(format, n) == b.tally(format, n),
    decreases n,
{
    if n > 0 {
        lemma_tally_ignores_own_facet(a, b, format, (n - 1) as nat);
    }
}

/// What a facet offers does not depend on what it is set to, so that cycling goes
/// round the same choices: from none to the most common, and from the last of
/// them back to none.
pub proof fn lemma_cycling_goes_round(a: AppView, format: bool, now: u64)
    requires
        a.options(format).len() > 0,
    ensures
        a.cycled(format, 1, now).options(format) == a.options(format),
        a.facet(format) is None ==> a.cycled(format, 1, now).facet(format) == Some(
            a.options(format)[0].0,
        ),
        (a.facet(format) is Some && tui::option_at(a.options(format), a.facet(format)->0, 0)
            == Some(a.options(format).len() - 1)) ==> a.cycled(format, 1, now).facet(
            format,
        ) is None,
{
    let next = a.cycled(format, 1, now);
    let n = a.options(format).len() as int;
    lemma_tally_ignores_own_facet(a, next, format, a.results.len());
    let m = n + 1;
    assert(1int % m == 1) by (nonlinear_arith)
        requires
            m >= 2,
    ;
    assert(m % m == 0) by (nonlinear_arith)
        requires
            m >= 2,
    ;
}

// ---------------------------------------------------------------------------
// Work
// ---------------------------------------------------------------------------

/// Downloads run one at a time: while one runs, asking for another starts
/// nothing.
pub proof fn lemma_downloads_run_one_at_a_time(a: AppView)
    requires
        a.downloading,
    ensures
        a.fetching().actions == a.actions,
        a.fetching().jobs == a.jobs,
{
}

/// A search made before there is a mirror is not lost: it is run as soon as one
/// turns up.
pub proof fn lemma_a_deferred_search_is_run(a: AppView, mirrors: Seq<Seq<char>>, now: u64)
    requires
        a.mirrors.len() == 0,
        mirrors.len() > 0,
        text::trimmed(a.query).len() > 0,
        text::trimmed(
            text::joined(query::read_query(text::trimmed(a.query)).words, " "@),
        ).len() > 0,
    ensures
        a.searching().pending_search,
        a.searching().actions == a.actions,
        ({
            let later = a.searching().with_mirrors(mirrors, now);
            &&& !later.pending_search
            &&& later.actions.len() == a.actions.len() + 1
            &&& later.actions.last() is Search
        }),
{
}

/// Nothing is looked up while the selection is still moving.
pub proof fn lemma_covers_wait_for_the_selection_to_settle(a: AppView, now: u64)
    requires
        (match a.cover_due {
            Some(due) => now < due,
            None => true,
        }),
    ensures
        a.polled(now) == a,
{
}

/// A book whose cover is known, whatever the answer was, is not looked up again.
pub proof fn lemma_a_known_cover_is_not_looked_up_again(a: AppView, now: u64)
    requires
        a.focus() is Some,
        a.covers.contains_key(a.focus()->0),
    ensures
        a.polled(now).actions == a.actions,
        a.polled(now).covers == a.covers,
{
    let settled = AppView { cover_due: None, ..a };
    assert(settled.focus() == a.focus());
}

/// A terminal that can draw nothing never has a cover looked up, and never
/// reserves room for one.
pub proof fn lemma_without_graphics_no_covers(a: AppView, now: u64, delta: int)
    requires
        a.protocol == Protocol::Nothing,
    ensures
        !a.shows_cover(),
        a.moved(delta, now).cover_due == a.cover_due,
        a.moved_library(delta, now).cover_due == a.cover_due,
        a.refined(now).cover_due == a.cover_due,
{
}

} // verus!
