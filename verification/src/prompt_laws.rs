//! What holds of what is asked and answered, and of the lines in between.

use vstd::prelude::*;

use crate::args::SearchView;
use crate::commands;
use crate::cover;
use crate::graphics;
use crate::history::{Disk, Entry};
use crate::launch;
use crate::model;
use crate::model::{Book, SearchQuery};
use crate::net;
use crate::pages_laws;
use crate::term;
use crate::term::{Progress, Style};
use crate::text;
use crate::ui;
use crate::ui::{Health, MirrorStatus};

verus! {

// ---------------------------------------------------------------------------
// Answers
// ---------------------------------------------------------------------------

/// Nothing, blanks and a `q` of either case decline; no other answer does.
pub proof fn lemma_what_declines(l: Seq<char>)
    ensures
        ui::declines(None),
        text::trimmed(l) == Seq::<char>::empty() ==> ui::declines(Some(l)),
        text::trimmed(l) == seq!['q'] ==> ui::declines(Some(l)),
        text::trimmed(l) == seq!['Q'] ==> ui::declines(Some(l)),
        text::trimmed(l).len() > 1 ==> !ui::declines(Some(l)),
        text::trimmed(l).len() == 1 && text::is_digit(text::trimmed(l)[0]) ==> !ui::declines(
            Some(l),
        ),
{
    reveal_strlit("q");
    let t = text::trimmed(l);
    assert("q"@ =~= seq!['q']);
    assert(text::ascii_lower("q"@) =~= seq!['q']);
    assert(text::ascii_lower(t).len() == t.len());
    if t.len() == 1 {
        assert(text::ascii_lower(t)[0] == text::low(t[0]));
    }
    if t == seq!['q'] || t == seq!['Q'] {
        assert(text::ascii_lower(t) =~= seq!['q']);
    }
}

/// Whether a text is one part of a selection: not blank, and with nothing in it
/// that parts selections.
pub open spec fn one_part(w: Seq<char>) -> bool {
    &&& w.len() > 0
    &&& text::trimmed(w) == w
    &&& forall|i: int| 0 <= i < w.len() ==> (#[trigger] w[i]) != ',' && w[i] != ' '
}

proof fn lemma_parts_behind(a: Seq<char>, t: Seq<char>, from: int, i: int)
    requires
        0 <= from <= i,
    ensures
        term::parts_from(a + t, a.len() + from, a.len() + i) == term::parts_from(t, from, i),
    decreases t.len() + 1 - i,
{
    let s = a + t;
    if i <= t.len() {
        if i < t.len() {
            assert(s[a.len() + i] == t[i]);
        }
        assert(s.subrange(a.len() + from, a.len() + i) =~= t.subrange(from, i));
        if i == t.len() || t[i] == ',' || t[i] == ' ' {
            lemma_parts_behind(a, t, i + 1, i + 1);
        } else {
            lemma_parts_behind(a, t, from, i + 1);
        }
    }
}

proof fn lemma_part_runs(w: Seq<char>, t: Seq<char>, i: int)
    requires
        one_part(w),
        0 <= i <= w.len(),
        t.len() > 0 ==> t[0] == ',' || t[0] == ' ',
    ensures
        term::parts_from(w + t, 0, i) == term::parts_from(w + t, 0, w.len() as int),
    decreases w.len() - i,
{
    if i < w.len() {
        assert((w + t)[i] == w[i]);
        lemma_part_runs(w, t, i + 1);
    }
}

/// What an answer selects by its parts: a part by itself is one, a comma or a
/// space ends a part, and what stands there alone is passed over.
pub proof fn lemma_parts_of_an_answer(w: Seq<char>, rest: Seq<char>)
    requires
        one_part(w),
    ensures
        term::parts_from(w, 0, 0) == seq![w],
        term::parts_from(w + seq![','] + rest, 0, 0) == seq![w] + term::parts_from(rest, 0, 0),
        term::parts_from(w + seq![' '] + rest, 0, 0) == seq![w] + term::parts_from(rest, 0, 0),
        term::parts_from(seq![','] + rest, 0, 0) == term::parts_from(rest, 0, 0),
        term::parts_from(seq![' '] + rest, 0, 0) == term::parts_from(rest, 0, 0),
        term::parts_from(Seq::<char>::empty(), 0, 0) == Seq::<Seq<char>>::empty(),
{
    let none = Seq::<char>::empty();
    let n = w.len() as int;
    assert(w + none =~= w);
    lemma_part_runs(w, none, 0);
    assert(w.subrange(0, n) =~= w);
    assert(term::parts_from(w, n + 1, n + 1) =~= seq![]);
    assert(seq![w] + Seq::<Seq<char>>::empty() =~= seq![w]);
    lemma_part_ends(w, ',', rest);
    lemma_part_ends(w, ' ', rest);
    lemma_nothing_before(',', rest);
    lemma_nothing_before(' ', rest);
    lemma_empty_trimmed();
    assert(none.subrange(0, 0) =~= none);
    assert(term::parts_from(none, 1, 1) =~= seq![]);
}

proof fn lemma_empty_trimmed()
    ensures
        text::trimmed(Seq::<char>::empty()).len() == 0,
{
    text::lemma_trimmed_range(Seq::<char>::empty());
}

proof fn lemma_part_ends(w: Seq<char>, c: char, rest: Seq<char>)
    requires
        one_part(w),
        c == ',' || c == ' ',
    ensures
        term::parts_from(w + seq![c] + rest, 0, 0) == seq![w] + term::parts_from(rest, 0, 0),
{
    let n = w.len() as int;
    let t = seq![c] + rest;
    let s = w + seq![c] + rest;
    assert(w + t =~= s);
    lemma_part_runs(w, t, 0);
    assert(s.subrange(0, n) =~= w);
    assert(s[n] == c);
    lemma_parts_behind(w + seq![c], rest, 0, 0);
}

proof fn lemma_nothing_before(c: char, rest: Seq<char>)
    requires
        c == ',' || c == ' ',
    ensures
        term::parts_from(seq![c] + rest, 0, 0) == term::parts_from(rest, 0, 0),
{
    let s = seq![c] + rest;
    assert(s[0] == c);
    lemma_empty_trimmed();
    assert(s.subrange(0, 0) =~= Seq::<char>::empty());
    lemma_parts_behind(seq![c], rest, 0, 0);
}

/// A selection is at fault where one of its parts is, and what is said is what is
/// wrong with the first of them.
pub proof fn lemma_the_first_fault_is_told(parts: Seq<Seq<char>>, k: int, max: int)
    requires
        0 <= k < parts.len(),
        term::part_range(parts[k], max) is Err,
        forall|i: int| 0 <= i < k ==> term::part_range(#[trigger] parts[i], max) is Ok,
    ensures
        term::selection_fault(parts, max) == Some(term::part_range(parts[k], max)->Err_0),
    decreases parts.len(),
{
    let front = parts.drop_last();
    if k == parts.len() - 1 {
        lemma_no_fault(front, max);
    } else {
        assert(front[k] == parts[k]);
        assert forall|i: int| 0 <= i < k implies term::part_range(#[trigger] front[i], max) is Ok by {
            assert(front[i] == parts[i]);
        }
        lemma_the_first_fault_is_told(front, k, max);
    }
}

/// A selection all of whose parts can be read is not at fault.
pub proof fn lemma_no_fault(parts: Seq<Seq<char>>, max: int)
    requires
        forall|i: int| 0 <= i < parts.len() ==> term::part_range(#[trigger] parts[i], max) is Ok,
    ensures
        term::selection_fault(parts, max) is None,
    decreases parts.len(),
{
    if parts.len() > 0 {
        let front = parts.drop_last();
        assert forall|i: int| 0 <= i < front.len() implies term::part_range(
            #[trigger] front[i],
            max,
        ) is Ok by {
            assert(front[i] == parts[i]);
        }
        lemma_no_fault(front, max);
        assert(term::part_range(parts[parts.len() - 1], max) is Ok);
    }
}

/// What is wrong with a part: no number, none of those on offer, or a range that
/// counts down.
pub proof fn lemma_what_is_wrong_with_a_part(n: nat, max: int)
    requires
        n <= usize::MAX,
    ensures
        n > max ==> term::part_range(text::decimal(n), max) == Err::<(int, int), Seq<char>>(
            "`"@ + text::decimal(n) + "` is outside 1-"@ + text::decimal(max as nat),
        ),
        n == 0 ==> term::part_range(text::decimal(n), max) is Err,
        1 <= n <= max ==> term::part_range(text::decimal(n), max) == Ok::<(int, int), Seq<char>>(
            (n as int, n as int),
        ),
{
    text::lemma_number_of_decimal(n);
    lemma_no_dash(n);
}

proof fn lemma_no_dash(n: nat)
    ensures
        text::cut(text::decimal(n), '-') is None,
{
    let s = text::decimal(n);
    text::lemma_number_of_decimal(n);
    text::lemma_first_at(s, '-', 0);
    let e = text::first_at(s, '-', 0);
    if e < s.len() {
        assert(text::is_digit(s[e]));
    }
}

// ---------------------------------------------------------------------------
// Mirrors
// ---------------------------------------------------------------------------

/// A mirror that answered is up, with how many milliseconds it took and how many
/// results it gave; one that did not is down, with the reason.
pub proof fn lemma_a_mirror_in_the_table(m: MirrorStatus, width: int, ms: nat, nanos: nat)
    requires
        nanos < 1_000_000,
    ensures
        ({
            let plain = Style { enabled: false };
            let row = ui::mirror_row(m, width, plain);
            let name = term::padded(ui::mirror_name(m.base@), width);
            &&& m.outcome is Healthy && m.outcome->latency == 1_000_000 * ms + nanos ==> row
                == "  "@ + name + "  "@ + term::padded("up"@, 8) + "  "@ + (text::decimal(ms)
                + " ms, "@ + text::decimal(m.outcome->results as nat) + " results"@) + "\n"@
            &&& m.outcome is Unhealthy ==> row == "  "@ + name + "  "@ + term::padded("down"@, 8)
                + "  "@ + m.outcome->Unhealthy_0@ + "\n"@
        }),
{
    assert((1_000_000 * ms + nanos) / 1_000_000 == ms as int);
}

/// A mirror is called by the host of its address.
pub proof fn lemma_a_mirror_is_called_by_its_host(base: Seq<char>)
    ensures
        net::uri_host(base) is Some ==> ui::mirror_name(base) == net::uri_host(base)->0,
        net::uri_host(base) is None ==> ui::mirror_name(base) == base,
{
}

/// The rows of the table are the mirrors in order.
pub proof fn lemma_mirrors_by_row(ms: Seq<MirrorStatus>, m: MirrorStatus, width: int, style: Style)
    ensures
        ui::mirror_rows(seq![], width, style) == Seq::<char>::empty(),
        ui::mirror_rows(ms.push(m), width, style) == ui::mirror_rows(ms, width, style)
            + ui::mirror_row(m, width, style),
{
    assert(ms.push(m).drop_last() =~= ms);
}

/// Every host has room in its column.
pub proof fn lemma_room_for_every_host(ms: Seq<MirrorStatus>, i: int)
    requires
        0 <= i < ms.len(),
        net::uri_host(ms[i].base@) is Some,
        term::cells(net::uri_host(ms[i].base@)->0) <= usize::MAX,
    ensures
        term::cells(net::uri_host(ms[i].base@)->0) <= ui::host_column(ms),
        6 <= ui::host_column(ms),
{
    lemma_widest_host(ms, i);
}

proof fn lemma_widest_host(ms: Seq<MirrorStatus>, i: int)
    requires
        0 <= i < ms.len(),
        net::uri_host(ms[i].base@) is Some,
        term::cells(net::uri_host(ms[i].base@)->0) <= usize::MAX,
    ensures
        0 <= term::cells(net::uri_host(ms[i].base@)->0) <= ui::widest_host(ms),
    decreases ms.len(),
{
    if i < ms.len() - 1 {
        assert(ms.drop_last()[i] == ms[i]);
        lemma_widest_host(ms.drop_last(), i);
    }
}

/// How many mirrors are up counts those that answered.
pub proof fn lemma_mirrors_that_are_up(ms: Seq<MirrorStatus>, m: MirrorStatus)
    ensures
        commands::healthy_count(seq![]) == 0,
        m.outcome is Healthy ==> commands::healthy_count(ms.push(m)) == commands::healthy_count(ms)
            + 1,
        m.outcome is Unhealthy ==> commands::healthy_count(ms.push(m)) == commands::healthy_count(
            ms,
        ),
{
    assert(ms.push(m).drop_last() =~= ms);
}

// ---------------------------------------------------------------------------
// JSON
// ---------------------------------------------------------------------------

proof fn lemma_book_objects_say(books: Seq<Book>, k: nat, i: int)
    requires
        0 <= i < k <= books.len(),
    ensures
        pages_laws::says(
            ui::book_objects(books, k),
            ui::json_object(ui::book_fields(books[i]), i == books.len() - 1),
        ),
    decreases k,
{
    let object = ui::json_object(ui::book_fields(books[i]), i == books.len() - 1);
    let front = ui::book_objects(books, (k - 1) as nat);
    if i == k - 1 {
        pages_laws::lemma_says_at_the_end(front, object);
    } else {
        lemma_book_objects_say(books, (k - 1) as nat, i);
        pages_laws::lemma_says_more(
            front,
            object,
            ui::json_object(ui::book_fields(books[k - 1]), k == books.len()),
        );
    }
}

/// Every result stands in the JSON as an object, with a comma behind all but the
/// last.
pub proof fn lemma_every_result_is_in_the_json(books: Seq<Book>, i: int)
    requires
        0 <= i < books.len(),
    ensures
        i < books.len() - 1 ==> pages_laws::says(
            ui::results_json(books),
            "  {\n"@ + text::joined(ui::book_fields(books[i]), ",\n"@) + "\n"@ + "  },\n"@,
        ),
        i == books.len() - 1 ==> pages_laws::says(
            ui::results_json(books),
            "  {\n"@ + text::joined(ui::book_fields(books[i]), ",\n"@) + "\n"@ + "  }\n"@,
        ),
{
    let object = ui::json_object(ui::book_fields(books[i]), i == books.len() - 1);
    let all = ui::book_objects(books, books.len());
    lemma_book_objects_say(books, books.len(), i);
    pages_laws::lemma_says_behind("[\n"@, all, object);
    pages_laws::lemma_says_more("[\n"@ + all, object, "]\n"@);
}

proof fn lemma_entry_objects_say(es: Seq<Entry>, disk: Disk, k: nat, i: int)
    requires
        0 <= i < k <= es.len(),
    ensures
        pages_laws::says(
            ui::entry_objects(es, disk, k),
            ui::json_object(ui::entry_fields(es[i], disk), i == es.len() - 1),
        ),
    decreases k,
{
    let object = ui::json_object(ui::entry_fields(es[i], disk), i == es.len() - 1);
    let front = ui::entry_objects(es, disk, (k - 1) as nat);
    if i == k - 1 {
        pages_laws::lemma_says_at_the_end(front, object);
    } else {
        lemma_entry_objects_say(es, disk, (k - 1) as nat, i);
        pages_laws::lemma_says_more(
            front,
            object,
            ui::json_object(ui::entry_fields(es[k - 1], disk), k == es.len()),
        );
    }
}

/// Every download stands in the JSON as an object, with a comma behind all but
/// the last.
pub proof fn lemma_every_download_is_in_the_json(es: Seq<Entry>, disk: Disk, i: int)
    requires
        0 <= i < es.len(),
    ensures
        i < es.len() - 1 ==> pages_laws::says(
            ui::history_json(es, disk),
            "  {\n"@ + text::joined(ui::entry_fields(es[i], disk), ",\n"@) + "\n"@ + "  },\n"@,
        ),
        i == es.len() - 1 ==> pages_laws::says(
            ui::history_json(es, disk),
            "  {\n"@ + text::joined(ui::entry_fields(es[i], disk), ",\n"@) + "\n"@ + "  }\n"@,
        ),
{
    let object = ui::json_object(ui::entry_fields(es[i], disk), i == es.len() - 1);
    let all = ui::entry_objects(es, disk, es.len());
    lemma_entry_objects_say(es, disk, es.len(), i);
    pages_laws::lemma_says_behind("[\n"@, all, object);
    pages_laws::lemma_says_more("[\n"@ + all, object, "]\n"@);
}

// ---------------------------------------------------------------------------
// What is said
// ---------------------------------------------------------------------------

/// What is said of downloads that are gone: how many, and nothing where none is.
pub proof fn lemma_what_is_said_of_what_is_gone(n: nat)
    ensures
        ({
            let plain = Style { enabled: false };
            &&& commands::gone_text(0, plain) == Seq::<char>::empty()
            &&& commands::gone_text(1, plain) == "\n  "@ + "!"@ + " "@ + (text::decimal(1)
                + " of these "@ + "is"@ + " no longer where "@ + "it was"@ + " downloaded"@) + "\n"@
            &&& n > 1 ==> commands::gone_text(n, plain) == "\n  "@ + "!"@ + " "@ + (text::decimal(n)
                + " of these "@ + "are"@ + " no longer where "@ + "they were"@ + " downloaded"@)
                + "\n"@
        }),
{
}

/// A search that found nothing says what it searched for, and speaks of filters
/// only where there were some; one that found something says how much and where.
pub proof fn lemma_what_is_said_of_a_search(terms: Seq<char>, host: Seq<char>, n: nat)
    ensures
        ({
            let plain = Style { enabled: false };
            &&& commands::nothing_found(terms, false, plain) == "\n  "@ + "∅"@
                + " nothing found for “"@ + terms + "”.\n  "@ + "Try fewer words."@ + "\n\n"@
            &&& commands::nothing_found(terms, true, plain) == "\n  "@ + "∅"@
                + " nothing found for “"@ + terms + "”.\n  "@
                + "Try fewer words, or drop the format and language filters."@ + "\n\n"@
            &&& commands::results_heading(1, host, plain) == "\n  "@ + text::decimal(1) + " "@
                + "result from"@ + " "@ + host + "\n\n"@
            &&& n != 1 ==> commands::results_heading(n, host, plain) == "\n  "@ + text::decimal(n)
                + " "@ + "results from"@ + " "@ + host + "\n\n"@
        }),
{
}

/// A search for a format or a language is a narrow one.
pub proof fn lemma_what_narrows_a_search(s: SearchView, q: SearchQuery)
    ensures
        q.extension is Some ==> commands::narrowed(s, q),
        q.language is Some ==> commands::narrowed(s, q),
{
}

/// A history that is empty says whether downloads will be recorded.
pub proof fn lemma_what_is_said_of_an_empty_history()
    ensures
        ({
            let plain = Style { enabled: false };
            &&& commands::nothing_yet(true, plain) == "\n  "@ + "•"@
                + " nothing downloaded yet.\n  "@ + "Downloads are recorded here as you make them."@
                + "\n\n"@
            &&& commands::nothing_yet(false, plain) == "\n  "@ + "•"@
                + " nothing downloaded yet.\n  "@
                + "Recording is off — set `history = true` in the config to keep a list."@
                + "\n\n"@
        }),
{
}

/// What is said of a launcher that failed is the first line of what it said, or
/// that it failed where that line is blank.
pub proof fn lemma_what_is_said_of_a_launcher(program: Seq<char>, said: Seq<char>)
    ensures
        text::lines_of(said).len() > 0 && text::trimmed(text::lines_of(said)[0]).len() > 0
            ==> launch::run_failure_text(program, said) == text::trimmed(text::lines_of(said)[0]),
        text::lines_of(said).len() == 0 ==> launch::run_failure_text(program, said) == "`"@
            + program + "` failed"@,
{
}

/// A reference that begins with a letter, letters and a colon is an address of its
/// own; one with a slash in front, or with no colon, is none.
pub proof fn lemma_addresses_of_their_own(word: Seq<char>, rest: Seq<char>)
    requires
        word.len() > 0,
        forall|i: int|
            0 <= i < word.len() ==> 'a' <= (#[trigger] word[i]) <= 'z' || 'A' <= word[i] <= 'Z',
    ensures
        net::has_scheme(word + seq![':'] + rest),
        !net::has_scheme(seq!['/'] + rest),
        !net::has_scheme(word),
{
    let s = word + seq![':'] + rest;
    let n = word.len() as int;
    text::lemma_first_at(s, ':', 0);
    let e = text::first_at(s, ':', 0);
    assert(s[n] == ':');
    assert forall|i: int| 0 <= i < n implies (#[trigger] s[i]) == word[i] by {}
    assert(e == n);
    assert(net::is_letter(s[0]));
    let t = seq!['/'] + rest;
    assert(t[0] == '/');
    text::lemma_first_at(word, ':', 0);
}

/// A number that is set counts; a text that is none leaves the default.
pub proof fn lemma_numbers_from_outside(n: nat, default: int)
    requires
        n <= usize::MAX,
    ensures
        term::number_or(Some(text::decimal(n)), default) == n,
        term::number_or(None, default) == default,
        term::number_or(Some(Seq::<char>::empty()), default) == default,
{
    text::lemma_number_of_decimal(n);
}

// ---------------------------------------------------------------------------
// Progress
// ---------------------------------------------------------------------------

/// How long a transfer still takes is not known before anything came, and is no
/// time once all of it did.
pub proof fn lemma_how_long_a_transfer_takes(done: nat, total: nat, nanos: nat)
    ensures
        term::eta(0, total, nanos) == "--"@,
        done > 0 && done >= total ==> term::eta(done, total, nanos) == term::eta_text(0),
{
    reveal_with_fuel(crate::double::doubled, 2);
}

/// A line of progress begins with its label and ends with its figures: how much
/// came, of how much where that is known.
pub proof fn lemma_a_line_of_progress(p: Progress, nanos: nat)
    requires
        !p.style.enabled,
    ensures
        p.total is None ==> p.line_text(nanos) == "  "@ + p.label@ + " "@ + (model::bytes_text(
            p.current as nat,
        ) + "  "@ + p.speed_text(nanos)),
        p.total is Some && p.total->0 > 0 ==> pages_laws::says(
            p.line_text(nanos),
            p.stats_text(p.total->0 as nat, nanos),
        ) && p.line_text(nanos).take(("  "@ + p.label@).len() as int) == "  "@ + p.label@,
{
    if p.total is Some && p.total->0 > 0 {
        let total = p.total->0 as nat;
        let stats = p.stats_text(total, nanos);
        let w = p.bar_width(stats);
        let filled = term::filled_cells(term::share(p.current as nat, total), w as nat);
        let head = "  "@ + p.label@;
        let bar = text::repeated('█', filled as int) + text::repeated('░', w - filled);
        assert(p.line_text(nanos) == head + " "@ + bar + "  "@ + stats);
        pages_laws::lemma_says_at_the_end(head + " "@ + bar + "  "@, stats);
        assert((head + " "@ + bar + "  "@ + stats).take(head.len() as int) =~= head);
    }
}

/// The figures say how much came and of how much.
pub proof fn lemma_the_figures_of_progress(p: Progress, total: nat, nanos: nat)
    ensures
        pages_laws::says(
            p.stats_text(total, nanos),
            model::bytes_text(p.current as nat) + " / "@ + model::bytes_text(total),
        ),
{
    let head = term::right_aligned(
        text::decimal(term::percent(term::share(p.current as nat, total))),
        3,
    ) + "%  "@;
    let came = model::bytes_text(p.current as nat);
    let all = model::bytes_text(total);
    let both = came + " / "@ + all;
    let t1 = head + came + " / "@ + all;
    assert(t1 =~= head + both);
    pages_laws::lemma_says_at_the_end(head, both);
    let t2 = t1 + "  "@;
    let t3 = t2 + p.speed_text(nanos);
    let t4 = t3 + "  eta "@;
    pages_laws::lemma_says_more(t1, both, "  "@);
    pages_laws::lemma_says_more(t2, both, p.speed_text(nanos));
    pages_laws::lemma_says_more(t3, both, "  eta "@);
    pages_laws::lemma_says_more(t4, both, term::eta(p.current as nat, total, nanos));
}

// ---------------------------------------------------------------------------
// Sums
// ---------------------------------------------------------------------------

/// Sizes add up, in whatever order they come.
pub proof fn lemma_sizes_add_up(a: Seq<u64>, b: Seq<u64>)
    ensures
        cover::sum_of(a + b) == cover::sum_of(a) + cover::sum_of(b),
        a.len() == 1 ==> cover::sum_of(a) == a[0],
    decreases b.len(),
{
    reveal_with_fuel(cover::sum_of, 2);
    if b.len() == 0 {
        assert(a + b =~= a);
    } else {
        assert((a + b).drop_last() =~= a + b.drop_last());
        lemma_sizes_add_up(a, b.drop_last());
    }
}

/// What puts a text on the clipboard carries the bytes of the text in base 64.
pub proof fn lemma_the_clipboard_carries_the_text(t: Seq<char>)
    ensures
        pages_laws::says(
            graphics::clipboard_text(t),
            graphics::base64_text(vstd::utf8::encode_utf8(t)),
        ),
{
    let code = graphics::base64_text(vstd::utf8::encode_utf8(t));
    pages_laws::lemma_says_at_the_end("\x1b]52;c;"@, code);
    pages_laws::lemma_says_more("\x1b]52;c;"@ + code, code, "\x07"@);
}

} // verus!
