//! What holds of what people type and of what they are shown.

use vstd::prelude::*;

use crate::commands;
use crate::history::{Disk, Entry};
use crate::launch;
use crate::launch::{AttemptView, System};
use crate::model;
use crate::model::Book;
use crate::term;
use crate::text;
use crate::ui;
use crate::ui::MirrorStatus;

verus! {

// ---------------------------------------------------------------------------
// Selections
// ---------------------------------------------------------------------------

proof fn lemma_number_has_no_dash(n: nat)
    ensures
        text::cut(text::decimal(n), '-') is None,
        text::trimmed(text::decimal(n)) == text::decimal(n),
{
    let d = text::decimal(n);
    text::lemma_number_of_decimal(n);
    text::lemma_first_at(d, '-', 0);
    let e = text::first_at(d, '-', 0);
    if e < d.len() {
        assert(text::is_digit(d[e]));
    }
    assert(text::is_digit(d[0]));
    assert(text::is_digit(d[d.len() - 1]));
    text::lemma_trimmed_is(d, 0, d.len() as int);
    assert(d.subrange(0, d.len() as int) =~= d);
}

/// A number selects itself, where there is so much to select from; nothing and
/// more than there is are refused.
pub proof fn lemma_a_number_selects_itself(n: nat, max: int, k: int)
    requires
        0 <= max <= usize::MAX,
    ensures
        1 <= n <= max ==> (term::part_selects(text::decimal(n), max, k) <==> k == n),
        1 <= n <= max <==> term::part_range(text::decimal(n), max) is Ok,
{
    text::lemma_number_of_decimal(n);
    lemma_number_has_no_dash(n);
}

/// Two numbers with a dash between them select everything from the one to the
/// other.
pub proof fn lemma_a_range_selects_all_of_it(a: nat, b: nat, max: int, k: int)
    requires
        0 <= max <= usize::MAX,
    ensures
        ({
            let part = text::decimal(a) + seq!['-'] + text::decimal(b);
            &&& 1 <= a <= b <= max ==> (term::part_selects(part, max, k) <==> a <= k <= b)
            &&& 1 <= a <= b <= max <==> term::part_range(part, max) is Ok
        }),
{
    let x = text::decimal(a);
    let y = text::decimal(b);
    let part = x + seq!['-'] + y;
    text::lemma_number_of_decimal(a);
    text::lemma_number_of_decimal(b);
    lemma_number_has_no_dash(a);
    lemma_number_has_no_dash(b);
    text::lemma_first_at(part, '-', 0);
    let e = text::first_at(part, '-', 0);
    assert(part[x.len() as int] == '-');
    if e < x.len() {
        assert(part[e] == x[e]);
        assert(text::is_digit(x[e]));
    }
    assert(part.subrange(0, e) =~= x);
    assert(part.subrange(e + 1, part.len() as int) =~= y);
}

// ---------------------------------------------------------------------------
// Sizes and times
// ---------------------------------------------------------------------------

/// A size is shown in the largest unit of which there is one at least.
pub proof fn lemma_sizes_are_shown(k: nat)
    ensures
        k < 1024 ==> model::bytes_text(k) == text::decimal(k) + " B"@,
        100 <= k < 1024 ==> model::bytes_text(k * 1024) == text::decimal(k) + " KB"@,
        100 <= k < 1024 ==> model::bytes_text(k * 1048576) == text::decimal(k) + " MB"@,
        100 <= k < 1024 ==> model::bytes_text(k * 1073741824) == text::decimal(k) + " GB"@,
        100 <= k ==> model::bytes_text(k * 1099511627776) == text::decimal(k) + " TB"@,
        1 <= k < 10 ==> model::bytes_text(k * 1024) == text::decimal(k) + "."@ + text::zero_padded(
            0,
            2,
        ) + " KB"@,
        1 <= k < 10 ==> model::bytes_text(k * 1048576) == text::decimal(k) + "."@
            + text::zero_padded(0, 2) + " MB"@,
        10 <= k < 100 ==> model::bytes_text(k * 1024) == text::decimal(k) + "."@ + text::decimal(0)
            + " KB"@,
        10 <= k < 100 ==> model::bytes_text(k * 1048576) == text::decimal(k) + "."@
            + text::decimal(0) + " MB"@,
{
}

/// Seconds are shown as such up to a minute, then with minutes, and from an hour
/// on in hours and minutes.
pub proof fn lemma_times_are_shown(h: nat, m: nat, s: nat)
    requires
        m < 60,
        s < 60,
    ensures
        term::eta_text(s) == text::decimal(s) + "s"@,
        m > 0 ==> term::eta_text(60 * m + s) == text::decimal(m) + "m"@ + text::zero_padded(s, 2)
            + "s"@,
        h > 0 ==> term::eta_text(3600 * h + 60 * m + s) == text::decimal(h) + "h"@
            + text::zero_padded(m, 2) + "m"@,
{
}

// ---------------------------------------------------------------------------
// JSON
// ---------------------------------------------------------------------------

/// A member of an object whose value is a text.
pub open spec fn member(key: Seq<char>, value: Seq<char>) -> Seq<char> {
    "    \""@ + key + "\": \""@ + ui::json_escaped(value) + "\""@
}

/// A member whose value stands without quotes.
pub open spec fn bare_member(key: Seq<char>, value: Seq<char>) -> Seq<char> {
    "    \""@ + key + "\": "@ + value
}

/// Whether there is something in a value that may be there.
pub open spec fn filled(v: Option<String>) -> bool {
    v is Some && text::trimmed(v->0@).len() > 0
}

proof fn lemma_added(f: Seq<Seq<char>>, key: Seq<char>, v: Option<String>)
    ensures
        filled(v) ==> ui::with_text(f, key, v) == f.push(member(key, v->0@)),
        !filled(v) ==> ui::with_text(f, key, v) == f,
{
}

proof fn lemma_still_there(f: Seq<Seq<char>>, m: Seq<char>, x: Seq<char>)
    requires
        f.contains(x),
    ensures
        f.push(m).contains(x),
{
    let i = choose|i: int| 0 <= i < f.len() && f[i] == x;
    assert(f.push(m)[i] == x);
}

proof fn lemma_now_there(f: Seq<Seq<char>>, m: Seq<char>)
    ensures
        f.push(m).contains(m),
{
    assert(f.push(m)[f.len() as int] == m);
}

/// A step of adding a value that may be there keeps what was there.
proof fn lemma_kept(f: Seq<Seq<char>>, key: Seq<char>, v: Option<String>, x: Seq<char>)
    requires
        f.contains(x),
    ensures
        ui::with_text(f, key, v).contains(x),
{
    lemma_added(f, key, v);
    if filled(v) {
        lemma_still_there(f, member(key, v->0@), x);
    }
}

proof fn lemma_put(f: Seq<Seq<char>>, key: Seq<char>, v: Option<String>)
    ensures
        filled(v) ==> ui::with_text(f, key, v).contains(member(key, v->0@)),
{
    lemma_added(f, key, v);
    if filled(v) {
        lemma_now_there(f, member(key, v->0@));
    }
}

/// What a book is as JSON: under each name its own value, where there is one.
#[verifier::spinoff_prover]
pub proof fn lemma_a_book_as_json(b: Book)
    ensures
        ui::book_fields(b).contains(member("md5"@, b.md5@)),
        ui::book_fields(b).contains(member("title"@, b.title@)),
        filled(b.authors) ==> ui::book_fields(b).contains(member("authors"@, b.authors->0@)),
        filled(b.publisher) ==> ui::book_fields(b).contains(member("publisher"@, b.publisher->0@)),
        filled(b.year) ==> ui::book_fields(b).contains(member("year"@, b.year->0@)),
        filled(b.language) ==> ui::book_fields(b).contains(member("language"@, b.language->0@)),
        filled(b.pages) ==> ui::book_fields(b).contains(member("pages"@, b.pages->0@)),
        filled(b.extension) ==> ui::book_fields(b).contains(member("extension"@, b.extension->0@)),
        b.size_bytes is Some ==> ui::book_fields(b).contains(
            bare_member("size_bytes"@, text::decimal(b.size_bytes->0 as nat)),
        ),
{
    let f0 = seq![ui::json_text("md5"@, b.md5@), ui::json_text("title"@, b.title@)];
    let md5 = member("md5"@, b.md5@);
    let title = member("title"@, b.title@);
    assert(f0[0] == md5 && f0[1] == title);
    assert(f0.contains(md5) && f0.contains(title));
    let f1 = ui::with_text(f0, "authors"@, b.authors);
    lemma_put(f0, "authors"@, b.authors);
    lemma_kept(f0, "authors"@, b.authors, md5);
    lemma_kept(f0, "authors"@, b.authors, title);
    let f2 = ui::with_text(f1, "publisher"@, b.publisher);
    lemma_put(f1, "publisher"@, b.publisher);
    lemma_kept(f1, "publisher"@, b.publisher, md5);
    lemma_kept(f1, "publisher"@, b.publisher, title);
    if filled(b.authors) {
        lemma_kept(f1, "publisher"@, b.publisher, member("authors"@, b.authors->0@));
    }
    let f3 = ui::with_text(f2, "year"@, b.year);
    lemma_put(f2, "year"@, b.year);
    lemma_kept(f2, "year"@, b.year, md5);
    lemma_kept(f2, "year"@, b.year, title);
    if filled(b.authors) {
        lemma_kept(f2, "year"@, b.year, member("authors"@, b.authors->0@));
    }
    if filled(b.publisher) {
        lemma_kept(f2, "year"@, b.year, member("publisher"@, b.publisher->0@));
    }
    let f4 = ui::with_text(f3, "language"@, b.language);
    lemma_put(f3, "language"@, b.language);
    lemma_kept(f3, "language"@, b.language, md5);
    lemma_kept(f3, "language"@, b.language, title);
    if filled(b.authors) {
        lemma_kept(f3, "language"@, b.language, member("authors"@, b.authors->0@));
    }
    if filled(b.publisher) {
        lemma_kept(f3, "language"@, b.language, member("publisher"@, b.publisher->0@));
    }
    if filled(b.year) {
        lemma_kept(f3, "language"@, b.language, member("year"@, b.year->0@));
    }
    let f5 = ui::with_text(f4, "pages"@, b.pages);
    lemma_put(f4, "pages"@, b.pages);
    lemma_kept(f4, "pages"@, b.pages, md5);
    lemma_kept(f4, "pages"@, b.pages, title);
    if filled(b.authors) {
        lemma_kept(f4, "pages"@, b.pages, member("authors"@, b.authors->0@));
    }
    if filled(b.publisher) {
        lemma_kept(f4, "pages"@, b.pages, member("publisher"@, b.publisher->0@));
    }
    if filled(b.year) {
        lemma_kept(f4, "pages"@, b.pages, member("year"@, b.year->0@));
    }
    if filled(b.language) {
        lemma_kept(f4, "pages"@, b.pages, member("language"@, b.language->0@));
    }
    let f6 = ui::with_text(f5, "extension"@, b.extension);
    lemma_put(f5, "extension"@, b.extension);
    lemma_kept(f5, "extension"@, b.extension, md5);
    lemma_kept(f5, "extension"@, b.extension, title);
    if filled(b.authors) {
        lemma_kept(f5, "extension"@, b.extension, member("authors"@, b.authors->0@));
    }
    if filled(b.publisher) {
        lemma_kept(f5, "extension"@, b.extension, member("publisher"@, b.publisher->0@));
    }
    if filled(b.year) {
        lemma_kept(f5, "extension"@, b.extension, member("year"@, b.year->0@));
    }
    if filled(b.language) {
        lemma_kept(f5, "extension"@, b.extension, member("language"@, b.language->0@));
    }
    if filled(b.pages) {
        lemma_kept(f5, "extension"@, b.extension, member("pages"@, b.pages->0@));
    }
    if b.size_bytes is Some {
        let size = bare_member("size_bytes"@, text::decimal(b.size_bytes->0 as nat));
        lemma_now_there(f6, size);
        lemma_still_there(f6, size, md5);
        lemma_still_there(f6, size, title);
        if filled(b.authors) {
            lemma_still_there(f6, size, member("authors"@, b.authors->0@));
        }
        if filled(b.publisher) {
            lemma_still_there(f6, size, member("publisher"@, b.publisher->0@));
        }
        if filled(b.year) {
            lemma_still_there(f6, size, member("year"@, b.year->0@));
        }
        if filled(b.language) {
            lemma_still_there(f6, size, member("language"@, b.language->0@));
        }
        if filled(b.pages) {
            lemma_still_there(f6, size, member("pages"@, b.pages->0@));
        }
        if filled(b.extension) {
            lemma_still_there(f6, size, member("extension"@, b.extension->0@));
        }
    }
}

/// What a past download is as JSON: under each name its own value.
#[verifier::spinoff_prover]
pub proof fn lemma_a_download_as_json(e: Entry, disk: Disk)
    ensures
        ({
            let f = ui::entry_fields(e, disk);
            &&& f.len() >= 8
            &&& f[0] == bare_member("downloaded_at"@, text::decimal(e.at as nat))
            &&& f[2] == member("md5"@, e.md5@)
            &&& f[3] == member("title"@, e.title@)
            &&& f[4] == member("path"@, e.path@)
            &&& f[5] == bare_member("size_bytes"@, text::decimal(e.size as nat))
            &&& f[6] == bare_member(
                "verified"@,
                if e.verified {
                    "true"@
                } else {
                    "false"@
                },
            )
            &&& f[7] == bare_member(
                "present"@,
                if disk.holds(e.path@) {
                    "true"@
                } else {
                    "false"@
                },
            )
            &&& filled(e.authors) ==> f.len() > 8 && f[8] == member("authors"@, e.authors->0@)
            &&& e.extension is Some && e.extension->0@.len() > 0 ==> f.last() == member(
                "extension"@,
                e.extension->0@,
            )
        }),
{
    let f0 = seq![
        ui::json_plain("downloaded_at"@, text::decimal(e.at as nat)),
        "    \"downloaded_at_utc\": \""@ + crate::history::timestamp_text(e.at as nat) + "\""@,
        ui::json_text("md5"@, e.md5@),
        ui::json_text("title"@, e.title@),
        ui::json_text("path"@, e.path@),
        ui::json_plain("size_bytes"@, text::decimal(e.size as nat)),
        ui::json_plain("verified"@, ui::truth(e.verified)),
        ui::json_plain("present"@, ui::truth(disk.holds(e.path@))),
    ];
    lemma_added(f0, "authors"@, e.authors);
}

// ---------------------------------------------------------------------------
// Tables
// ---------------------------------------------------------------------------

/// The cells of a result, under the names of the columns: its number, title, first
/// author, year, language, size and format.
pub proof fn lemma_cells_of_a_result(b: Book, n: nat, wt: int, wa: int)
    ensures
        ({
            let c = ui::results_cells(b, n, wt, wa);
            &&& c.len() == 7
            &&& c[0].text == term::padded_left(text::decimal(n), 3)
            &&& c[1].text == term::padded(term::truncated(b.title@, wt), wt)
            &&& c[2].text == term::padded(term::truncated(b.first_author_text(), wa), wa)
            &&& c[3].text == term::padded(
                term::truncated(model::or_empty(b.year), ui::W_YEAR as int),
                ui::W_YEAR as int,
            )
            &&& c[4].text == term::padded(
                term::truncated(model::or_empty(b.language), ui::W_LANG as int),
                ui::W_LANG as int,
            )
            &&& c[5].text == term::padded_left(
                term::truncated(b.size_text(), ui::W_SIZE as int),
                ui::W_SIZE as int,
            )
            &&& c[6].text == term::padded(
                term::truncated(b.ext_text(), ui::W_EXT as int),
                ui::W_EXT as int,
            )
        }),
{
}

/// The cells of a past download: its number, a mark where the file has gone, its
/// title, first author, time, size and format.
pub proof fn lemma_cells_of_a_download(e: Entry, n: nat, disk: Disk, now: nat, wt: int, wa: int)
    ensures
        ({
            let c = ui::history_cells(e, n, disk, now, wt, wa);
            &&& c.len() == 7
            &&& c[0].text == term::padded_left(text::decimal(n), 3)
            &&& disk.holds(e.path@) ==> c[1].text == term::padded(""@, 1)
            &&& !disk.holds(e.path@) ==> c[1].text == term::padded("!"@, 1)
            &&& c[2].text == term::padded(term::truncated(e.title@, wt), wt)
            &&& c[3].text == term::padded(term::truncated(e.first_author_text(), wa), wa)
            &&& c[5].text == term::padded_left(
                term::truncated(model::bytes_text(e.size as nat), ui::W_SIZE as int),
                ui::W_SIZE as int,
            )
            &&& c[6].text == term::padded(
                term::truncated(e.ext_text(), ui::W_EXT as int),
                ui::W_EXT as int,
            )
        }),
{
}

// ---------------------------------------------------------------------------
// Mirrors and settings
// ---------------------------------------------------------------------------

/// A flag counts before the configuration, and that before the default.
pub proof fn lemma_flags_come_first<T>(flag: T, configured: T, default: T)
    ensures
        commands::settled(Some(flag), Some(configured), default) == flag,
        commands::settled(Some(flag), None, default) == flag,
        commands::settled(None, Some(configured), default) == configured,
        commands::settled(None, None, default) == default,
{
}

/// Once mirrors are ranked, none that answered comes behind one that did not, and
/// of two that answered the faster is not behind.
pub proof fn lemma_fast_mirrors_come_first(ms: Seq<MirrorStatus>, i: int, j: int)
    requires
        0 <= i < j < commands::ranked(ms).len(),
    ensures
        ({
            let a = commands::ranked(ms)[i].outcome;
            let b = commands::ranked(ms)[j].outcome;
            &&& b is Healthy ==> a is Healthy
            &&& a is Healthy && b is Healthy ==> a->latency <= b->latency
        }),
{
    commands::lemma_ranking(ms);
    assert(commands::in_order(commands::ranked(ms)));
    let a = commands::ranked(ms)[i];
    let b = commands::ranked(ms)[j];
    assert(commands::rank_of(a) <= commands::rank_of(b));
}

/// The mirrors that are tried are one's own, in their order, and behind them those
/// that are built in, none twice.
pub proof fn lemma_own_mirrors_come_first(own: Seq<Seq<char>>, more: Seq<Seq<char>>, m: Seq<char>)
    ensures
        ({
            let all = commands::merged(own, more);
            &&& own.len() <= all.len()
            &&& all.take(own.len() as int) == own
            &&& all.contains(m) <==> own.contains(m) || more.contains(m)
            &&& own.no_duplicates() ==> all.no_duplicates()
        }),
    decreases more.len(),
{
    if more.len() == 0 {
        assert(own.take(own.len() as int) =~= own);
    } else {
        let head = more.drop_last();
        let before = commands::merged(own, head);
        lemma_own_mirrors_come_first(own, head, m);
        lemma_own_mirrors_come_first(own, head, more.last());
        let all = commands::merged(own, more);
        if head.contains(m) {
            let i = choose|i: int| 0 <= i < head.len() && head[i] == m;
            assert(more[i] == m);
        }
        if more.contains(m) && !head.contains(m) {
            let i = choose|i: int| 0 <= i < more.len() && more[i] == m;
            if i < head.len() {
                assert(head[i] == m);
            }
            assert(m == more.last());
        }
        if m == more.last() {
            assert(more[more.len() - 1] == m);
        }
        if !before.contains(more.last()) {
            assert(all =~= before.push(more.last()));
            assert(all.take(own.len() as int) =~= before.take(own.len() as int));
            assert(all[before.len() as int] == more.last());
            if before.contains(m) {
                let i = choose|i: int| 0 <= i < before.len() && before[i] == m;
                assert(all[i] == m);
            }
            if all.contains(m) && m != more.last() {
                let i = choose|i: int| 0 <= i < all.len() && all[i] == m;
                assert(before[i] == m);
            }
            if own.no_duplicates() {
                assert forall|i: int, j: int|
                    0 <= i < all.len() && 0 <= j < all.len() && i != j implies all[i] != all[j] by {
                    if i < before.len() && j < before.len() {
                        assert(before[i] != before[j]);
                    } else if i < before.len() {
                        assert(before.contains(all[i])) by {
                            assert(before[i] == all[i]);
                        }
                    } else {
                        assert(before.contains(all[j])) by {
                            assert(before[j] == all[j]);
                        }
                    }
                }
            }
        }
    }
}

// ---------------------------------------------------------------------------
// Handing over
// ---------------------------------------------------------------------------

/// Without a reader of one's own, a file goes to whatever the system opens it
/// with.
pub proof fn lemma_what_opens_a_file(file: Seq<char>)
    ensures
        launch::open_plan(System::Mac, file, None).attempts == seq![
            AttemptView::Run("open"@, seq![file]),
        ],
        launch::open_plan(System::Freedesktop, file, None).attempts == seq![
            AttemptView::Run("xdg-open"@, seq![file]),
            AttemptView::Run("gio"@, seq!["open"@, file]),
        ],
        launch::open_plan(System::Windows, file, None).attempts == seq![
            AttemptView::Shell(launch::display_path_of(file)),
        ],
{
}

/// With one, it goes to that: an application by its name on a Mac, a program with
/// the file behind its own words elsewhere.
pub proof fn lemma_a_reader_opens_the_file(file: Seq<char>, reader: Seq<char>)
    requires
        text::trimmed(reader) == reader,
        reader.len() > 0,
        text::words_of(reader, 0).len() > 0,
    ensures
        launch::open_plan(System::Mac, file, Some(reader)).attempts == seq![
            AttemptView::Run("open"@, seq!["-a"@, reader, file]),
        ],
        launch::open_plan(System::Freedesktop, file, Some(reader)).attempts == seq![
            AttemptView::Detach(
                text::words_of(reader, 0)[0],
                text::words_of(reader, 0).skip(1).push(file),
            ),
        ],
        launch::open_plan(System::Windows, file, Some(reader)).attempts == seq![
            AttemptView::Detach(
                text::words_of(reader, 0)[0],
                text::words_of(reader, 0).skip(1).push(file),
            ),
        ],
{
}

/// Showing a file highlights that file, on each system by its own means.
pub proof fn lemma_what_shows_a_file(file: Seq<char>)
    ensures
        launch::reveal_plan(System::Mac, file).attempts == seq![
            AttemptView::Run("open"@, seq!["-R"@, file]),
        ],
        launch::reveal_plan(System::Windows, file).attempts == seq![
            AttemptView::Detach("explorer"@, seq!["/select,"@ + launch::display_path_of(file)]),
        ],
        ({
            let first = launch::reveal_plan(System::Freedesktop, file).attempts[0];
            &&& first is Run
            &&& first->Run_0 == "dbus-send"@
            &&& first->Run_1.contains("array:string:"@ + launch::file_uri_of(file))
        }),
{
    let args = launch::reveal_plan(System::Freedesktop, file).attempts[0]->Run_1;
    assert(args[5] == "array:string:"@ + launch::file_uri_of(file));
}

} // verus!
