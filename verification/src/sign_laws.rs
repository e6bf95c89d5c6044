//! What holds of the small signs of the interface: marks, labels and statuses.

use vstd::prelude::*;

use crate::graphics;
use crate::graphics::ImageView;
use crate::history;
use crate::history::{Entry, EntryView};
use crate::model;
use crate::net;
use crate::order;
use crate::order::Order;
use crate::pages_laws;
use crate::screen::Rect;
use crate::text;
use crate::theme;
use crate::tui;
use crate::tui::{AppView, JobView, Tab};
use crate::view;

verus! {

/// The sign before a result: how its download stands comes before its mark, and
/// the mark before its being in the library.
pub proof fn lemma_the_sign_before_a_result(job: JobView, marked: bool, owned: bool)
    ensures
        job is Saved ==> view::marker(Some(job), marked, owned).text == "✓"@,
        job is Failed ==> view::marker(Some(job), marked, owned).text == "✗"@,
        job is Queued || job is Running ==> view::marker(Some(job), marked, owned).text == "↓"@,
        view::marker(None, true, owned).text == "●"@,
        view::marker(None, true, owned).look == theme::coloured(theme::AMBER),
        view::marker(None, false, true).text == "●"@,
        view::marker(None, false, true).look == theme::coloured(theme::SUCCESS),
        view::marker(None, false, false).text == " "@,
{
}

/// The word behind a result: how its download stands, else whether it is in the
/// library.
pub proof fn lemma_the_word_behind_a_result(job: JobView, owned: bool)
    ensures
        job is Queued ==> view::standing(Some(job), owned).text == "queued"@,
        job is Saved ==> view::standing(Some(job), owned).text == "saved"@,
        job is Failed ==> view::standing(Some(job), owned).text == "failed"@,
        job is Saved ==> view::standing(Some(job), owned).look == theme::coloured(theme::SUCCESS),
        job is Failed ==> view::standing(Some(job), owned).look == theme::coloured(theme::DANGER),
        job is Running && job->total is None ==> view::standing(Some(job), owned).text
            == model::bytes_text(job->done as nat),
        view::standing(None, true).text == "library"@,
        view::standing(None, false).text == Seq::<char>::empty(),
{
}

/// Where the books come from: the mirror while searching, this machine in the
/// library; amber while no mirror is known.
pub proof fn lemma_where_books_come_from(a: AppView)
    ensures
        a.source_line().len() == 2,
        a.tab == Tab::Search ==> a.source_line()[1].text == a.mirror_label + " "@,
        a.tab == Tab::Library ==> a.source_line()[1].text == "on this machine "@,
        a.tab == Tab::Search && a.mirrors.len() == 0 ==> a.source_line()[0].look
            == theme::coloured(theme::AMBER),
        a.tab == Tab::Search && a.mirrors.len() > 0 ==> a.source_line()[0].look
            == theme::coloured(theme::ACCENT),
        a.tab == Tab::Library ==> a.source_line()[0].look == theme::coloured(theme::ACCENT),
{
}

/// A list of mirrors is called by the host of the first.
pub proof fn lemma_mirrors_are_called_by_the_first(first: Seq<char>, others: Seq<Seq<char>>)
    ensures
        net::uri_host(first) is Some ==> tui::label_of(seq![first] + others) == net::uri_host(
            first,
        )->0,
        net::uri_host(first) is None ==> tui::label_of(seq![first] + others) == "none"@,
        tui::label_of(seq![]) == "none"@,
{
    assert((seq![first] + others)[0] == first);
}

/// The facets show what they admit, and that they admit all.
pub proof fn lemma_what_the_facets_show(a: AppView)
    ensures
        ({
            let l = a.both_facets();
            &&& a.fmt_filter is None ==> l[3].text == "all"@
            &&& a.fmt_filter is Some ==> l[3] == view::format_span(a.fmt_filter->0)
            &&& a.lang_filter is None ==> l.last().text == "all"@
            &&& a.fmt_filter is None && a.lang_filter is Some ==> l[7].text == a.lang_filter->0
            &&& a.fmt_filter is None && a.lang_filter is None ==> a.facets_line() == l
            &&& a.fmt_filter is Some || a.lang_filter is Some ==> {
                let all = a.facets_line();
                &&& all.len() == l.len() + 3
                &&& all[l.len() as int + 1].text == "x"@
                &&& all[l.len() as int + 2].text == " clear "@
            }
        }),
{
}

/// How many results are marked, and how large they are together.
pub proof fn lemma_what_marks_come_to(a: AppView)
    ensures
        ({
            let books = a.marked_books(a.results.len());
            let size = view::counted_bytes(view::total_size(books));
            &&& books.len() == 0 ==> a.marked_text() == Seq::<char>::empty()
            &&& books.len() > 0 ==> pages_laws::says(
                a.marked_text(),
                text::decimal(books.len()) + " marked"@,
            )
            &&& books.len() > 0 && size > 0 ==> pages_laws::says(
                a.marked_text(),
                model::bytes_text(size),
            )
        }),
{
    let books = a.marked_books(a.results.len());
    let size = view::counted_bytes(view::total_size(books));
    if books.len() > 0 {
        reveal(pages_laws::says);
        reveal_strlit(" marked · ");
        reveal_strlit(" marked   ");
        reveal_strlit(" marked");
        reveal_strlit(" · ");
        reveal_strlit("   ");
        let n = text::decimal(books.len());
        let b = model::bytes_text(size);
        let none = Seq::<char>::empty();
        let head = n + " marked"@;
        if size > 0 {
            assert(a.marked_text() == n + " marked · "@ + b + "   "@);
            assert(" marked · "@ =~= " marked"@ + " · "@);
            assert(a.marked_text() =~= none + head + (" · "@ + b + "   "@));
            assert(a.marked_text() =~= (n + " marked · "@) + b + "   "@);
        } else {
            assert(a.marked_text() == n + " marked   "@);
            assert(" marked   "@ =~= " marked"@ + "   "@);
            assert(a.marked_text() =~= none + head + "   "@);
        }
    }
}

/// The formats of a library are told in order, each with how many there are.
pub proof fn lemma_formats_are_told(fs: Seq<(Seq<char>, nat)>, name: Seq<char>, n: nat)
    ensures
        view::formats_text(seq![]) == Seq::<char>::empty(),
        view::formats_text(fs.push((name, n))) == view::formats_text(fs) + " · "@ + text::decimal(n)
            + " "@ + name,
{
    assert(fs.push((name, n)).drop_last() =~= fs);
}

/// The library in a line begins with how many books there are.
pub proof fn lemma_a_library_in_a_line(a: AppView)
    ensures
        a.library.len() == 1 ==> a.summary_text() == text::decimal(1) + " book · "@
            + model::bytes_text(view::counted_bytes(view::shelf_size(a.library)))
            + view::formats_text(a.shelf_formats()),
        a.library.len() != 1 ==> a.summary_text() == text::decimal(a.library.len()) + " books · "@
            + model::bytes_text(view::counted_bytes(view::shelf_size(a.library)))
            + view::formats_text(a.shelf_formats()),
{
}

/// What the status says of a search and of the library.
pub proof fn lemma_what_the_status_says(total: nat, shown: nat)
    ensures
        tui::found_status(0, shown) == "nothing found — try fewer words"@,
        0 < shown < total ==> tui::found_status(total, shown) == text::decimal(shown) + " of "@
            + text::decimal(total) + " match the filters"@,
        0 < total <= shown ==> tui::found_status(total, shown) == text::decimal(total)
            + " result(s)"@,
        tui::search_status(0) == "press / to search"@,
        total > 0 ==> tui::search_status(total) == text::decimal(total) + " result(s)"@,
        tui::library_status(0) == "nothing downloaded yet"@,
        tui::library_status(1) == "1 book in the library"@,
        total > 1 ==> tui::library_status(total) == text::decimal(total)
            + " books in the library"@,
        history::holdings(0) == "nothing"@,
        history::holdings(1) == "one entry"@,
        total > 1 ==> history::holdings(total) == text::decimal(total) + " entries"@,
{
}

/// A message is headed by its first line, whole where it is short.
pub proof fn lemma_a_message_by_its_first_line(message: Seq<char>, line: Seq<char>)
    requires
        text::lines_of(message).len() > 0,
        text::trimmed(text::lines_of(message)[0]) == line,
    ensures
        tui::byte_length(line, line.len() as int) <= 200 ==> tui::headline(message) == line,
        tui::byte_length(line, line.len() as int) > 200 ==> {
            let h = tui::headline(message);
            &&& h.len() > 0
            &&& h.last() == '…'
        },
{
    reveal_strlit("…");
}

/// What a list can be sorted by goes by its own name.
pub proof fn lemma_names_of_orders(tab: Tab)
    ensures
        view::order_name(Tab::Search, Order::Natural) == "relevance"@,
        view::order_name(Tab::Library, Order::Natural) == "date added"@,
        view::order_name(tab, Order::Title) == "title"@,
        view::order_name(tab, Order::Author) == "author"@,
        view::order_name(tab, Order::Year) == "year"@,
        view::order_name(tab, Order::Size) == "size"@,
{
}

/// Two formats that differ in case alone have one hue; those of a family share
/// theirs, and no family has that of another.
pub proof fn lemma_hues_of_formats(a: Seq<char>, b: Seq<char>)
    ensures
        text::ascii_lower(a) == text::ascii_lower(b) ==> theme::format_hue(a)
            == theme::format_hue(b),
        text::ascii_lower(a) == "mobi"@ && text::ascii_lower(b) == "azw3"@ ==> theme::format_hue(a)
            == theme::format_hue(b),
        text::ascii_lower(a) == "cbz"@ && text::ascii_lower(b) == "cbr"@ ==> theme::format_hue(a)
            == theme::format_hue(b),
        text::ascii_lower(a) == "epub"@ && text::ascii_lower(b) != "epub"@ ==> theme::format_hue(a)
            != theme::format_hue(b),
        text::ascii_lower(a) == "pdf"@ && text::ascii_lower(b) != "pdf"@ ==> theme::format_hue(a)
            != theme::format_hue(b),
        text::ascii_lower(a) == "djvu"@ && text::ascii_lower(b) != "djvu"@ ==> theme::format_hue(a)
            != theme::format_hue(b),
{
    reveal_strlit("epub");
    reveal_strlit("pdf");
    reveal_strlit("mobi");
    reveal_strlit("azw");
    reveal_strlit("azw3");
    reveal_strlit("djvu");
    reveal_strlit("cbz");
    reveal_strlit("cbr");
    assert("epub"@[0] == 'e' && "pdf"@[0] == 'p' && "mobi"@[0] == 'm' && "azw"@[0] == 'a'
        && "azw3"@[0] == 'a' && "djvu"@[0] == 'd' && "cbz"@[0] == 'c' && "cbr"@[0] == 'c');
}

/// A record keeps the fields of a download in this order: when, which, where, how
/// large, whether verified, the title, the authors and the format.
pub proof fn lemma_fields_of_a_record(e: EntryView)
    ensures
        ({
            let f = history::stored_fields(e);
            &&& f.len() == 8
            &&& f[0] == history::escaped(text::decimal(e.at as nat))
            &&& f[1] == history::escaped(e.md5)
            &&& f[2] == history::escaped(e.path)
            &&& f[3] == history::escaped(text::decimal(e.size as nat))
            &&& e.verified ==> f[4] == history::escaped("1"@)
            &&& !e.verified ==> f[4] == history::escaped("0"@)
            &&& f[5] == history::escaped(e.title)
            &&& e.authors is Some ==> f[6] == history::escaped(e.authors->0)
            &&& e.extension is Some ==> f[7] == history::escaped(e.extension->0)
        }),
{
}

/// The marks that would break a record are written out with a backslash.
pub proof fn lemma_what_is_escaped(c: char)
    ensures
        history::escaped(seq!['\t']) == seq!['\\', 't'],
        history::escaped(seq!['\n']) == seq!['\\', 'n'],
        history::escaped(seq!['\r']) == seq!['\\', 'r'],
        history::escaped(seq!['\\']) == seq!['\\', '\\'],
        c != '\t' && c != '\n' && c != '\r' && c != '\\' ==> history::escaped(seq![c]) == seq![c],
{
    reveal_with_fuel(history::escaped, 2);
}

/// A list of past downloads is sorted by what its orders are called: titles and
/// first authors whatever their case, sizes as they are, and by default the place.
pub proof fn lemma_what_downloads_are_sorted_by(e: Entry, f: Entry, i: int, j: int, n: int)
    requires
        0 <= i < j < n,
    ensures
        order::entry_key(Order::Title, e, i, n).0 == text::ascii_lower(e.title@),
        order::entry_key(Order::Author, e, i, n).0 == text::ascii_lower(e.first_author_text()),
        order::entry_key(Order::Size, e, i, n).1 == e.size,
        order::entry_key(Order::Natural, e, i, n).1 > order::entry_key(Order::Natural, f, j, n).1,
        order::entry_key(Order::Year, e, i, n).1 > order::entry_key(Order::Year, f, j, n).1,
{
}

proof fn lemma_word_begins(s: Seq<char>, b: int, e: int)
    requires
        0 <= b <= e <= s.len(),
        b == 0 || s[b - 1] == ' ',
        forall|k: int| b <= k < e ==> (#[trigger] s[k]) != ' ',
    ensures
        tui::after_last_space(s, e) == b,
    decreases e,
{
    if e > b {
        assert(s[e - 1] != ' ');
        lemma_word_begins(s, b, e - 1);
    }
}

/// Taking a word back takes it off before the caret, with the blanks behind it;
/// what stands before the word and behind the caret stays.
#[verifier::spinoff_prover]
pub proof fn lemma_a_word_is_taken_back(
    a: AppView,
    before: Seq<char>,
    word: Seq<char>,
    blanks: Seq<char>,
    behind: Seq<char>,
)
    requires
        a.box_text() == before + word + blanks + behind,
        a.caret == before.len() + word.len() + blanks.len(),
        before.len() == 0 || before.last() == ' ',
        word.len() > 0,
        !text::is_white(word.last()),
        forall|k: int| 0 <= k < word.len() ==> (#[trigger] word[k]) != ' ',
        forall|k: int| 0 <= k < blanks.len() ==> text::is_white(#[trigger] blanks[k]),
    ensures
        a.without_word() == a.typed(before + behind, before.len() as usize),
{
    let s = a.box_text();
    let at = a.caret as int;
    let head = before + word;
    assert(tui::caret_in(a.caret, s.len()) == at);
    assert(s.take(at) =~= head + blanks);
    text::lemma_trimmed_end(blanks);
    assert(text::trimmed_end(blanks).len() == 0) by {
        let t = text::trimmed_end(blanks);
        if t.len() > 0 {
            assert(t.last() == blanks[t.len() - 1]);
        }
    }
    text::lemma_trimmed_end_concat(head, blanks);
    text::lemma_trimmed_end(head);
    let t = text::trimmed_end(head);
    assert(head.last() == word.last());
    assert(t.len() == head.len()) by {
        if t.len() < head.len() {
            assert(text::is_white(head[head.len() - 1]));
        }
    }
    assert(t =~= head);
    assert forall|k: int| before.len() <= k < head.len() implies (#[trigger] head[k]) != ' ' by {
        assert(head[k] == word[k - before.len()]);
    }
    if before.len() > 0 {
        assert(head[before.len() - 1] == before.last());
    }
    lemma_word_begins(head, before.len() as int, head.len() as int);
    assert(s.take(before.len() as int) + s.skip(at) =~= before + behind);
}

/// A picture is sent to kitty with the columns and the rows that it is to fill, a
/// file as a file, and pixels with their width and their height.
pub proof fn lemma_what_kitty_is_told(
    id: nat,
    png: Seq<u8>,
    image: ImageView,
    cols: nat,
    rows: nat,
)
    requires
        png.len() > 0,
        !image.blank(),
    ensures
        graphics::kitty_png_text(id, png, cols, rows) == graphics::instalments(
            id,
            "a=T,q=2,C=1,f=100,c="@ + text::decimal(cols) + ",r="@ + text::decimal(rows),
            graphics::base64_text(png),
            0,
        ),
        graphics::kitty_image_text(id, image, cols, rows) == graphics::instalments(
            id,
            "a=T,q=2,C=1,f=24,s="@ + text::decimal(image.width as nat) + ",v="@ + text::decimal(
                image.height as nat,
            ) + ",c="@ + text::decimal(cols) + ",r="@ + text::decimal(rows),
            graphics::base64_text(image.pixels),
            0,
        ),
{
}

/// A cover stands at the top of its panel and in the middle of it, with room left
/// at either side.
#[verifier::spinoff_prover]
pub proof fn lemma_a_cover_stands_in_the_middle(a: AppView, inner: Rect, md5: Seq<char>)
    requires
        inner.x + inner.width <= 65535,
        inner.width >= 2,
    ensures
        ({
            let place = a.cover_place(inner, md5);
            let left = place.x - inner.x;
            let right = inner.x + inner.width - (place.x + place.width);
            &&& place.y == inner.y
            &&& 1 <= left <= right <= left + 1
            &&& place.height <= 21
        }),
{
    let place = a.cover_place(inner, md5);
    assert(place.width <= inner.width - 2);
    assert(place.x == inner.x + (inner.width - place.width) / 2);
}

} // verus!
