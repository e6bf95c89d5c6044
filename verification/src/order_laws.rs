//! What each way of sorting puts first.

use vstd::prelude::*;

use crate::history::Entry;
use crate::model;
use crate::model::Book;
use crate::order;
use crate::order::Order;
use crate::text;

verus! {

/// A size, where an unknown one is nothing.
pub open spec fn size_or_nothing(b: Book) -> int {
    match b.size_bytes {
        Some(n) => n as int,
        None => 0,
    }
}

/// By title or by author, one result goes before another if its title, or its
/// first author, comes first in the alphabet, whatever the case.
pub proof fn lemma_sorting_results_by_name(books: Seq<Book>, i: usize, j: usize)
    requires
        i < books.len(),
        j < books.len(),
    ensures
        order::leads(order::book_keys(Order::Title, books), false, i, j) <==> text::precedes(
            text::ascii_lower(books[i as int].title@),
            text::ascii_lower(books[j as int].title@),
            0,
        ),
        order::leads(order::book_keys(Order::Author, books), false, i, j) <==> text::precedes(
            text::ascii_lower(books[i as int].first_author_text()),
            text::ascii_lower(books[j as int].first_author_text()),
            0,
        ),
{
}

/// By size the larger goes first, by year the newer, and as they came the one that
/// came first.
pub proof fn lemma_sorting_results_by_number(books: Seq<Book>, i: usize, j: usize)
    requires
        i < books.len(),
        j < books.len(),
    ensures
        order::leads(order::book_keys(Order::Size, books), false, i, j) <==> size_or_nothing(
            books[i as int],
        ) > size_or_nothing(books[j as int]),
        order::leads(order::book_keys(Order::Year, books), false, i, j) <==> order::year_number(
            model::or_empty(books[i as int].year),
        ) > order::year_number(model::or_empty(books[j as int].year)),
        order::leads(order::book_keys(Order::Natural, books), false, i, j) <==> i < j,
{
    let none = Seq::<char>::empty();
    order::lemma_precedes(none, none, none, 0);
}

/// The same of the library; the newest download comes first where nothing else is
/// asked for.
pub proof fn lemma_sorting_the_library(es: Seq<Entry>, i: usize, j: usize)
    requires
        i < es.len(),
        j < es.len(),
    ensures
        order::leads(order::entry_keys(Order::Title, es), false, i, j) <==> text::precedes(
            text::ascii_lower(es[i as int].title@),
            text::ascii_lower(es[j as int].title@),
            0,
        ),
        order::leads(order::entry_keys(Order::Author, es), false, i, j) <==> text::precedes(
            text::ascii_lower(es[i as int].first_author_text()),
            text::ascii_lower(es[j as int].first_author_text()),
            0,
        ),
        order::leads(order::entry_keys(Order::Size, es), false, i, j) <==> es[i as int].size
            > es[j as int].size,
        order::leads(order::entry_keys(Order::Natural, es), false, i, j) <==> i < j,
{
    let none = Seq::<char>::empty();
    order::lemma_precedes(none, none, none, 0);
}

/// Backwards, what went before goes behind.
pub proof fn lemma_backwards_is_the_other_way_round(
    keys: Seq<order::Key>,
    i: usize,
    j: usize,
)
    ensures
        order::leads(keys, true, i, j) == order::leads(keys, false, j, i),
{
}

proof fn lemma_year_digits(s: Seq<char>, i: int)
    requires
        0 <= i <= 4 <= s.len(),
        forall|k: int| 0 <= k < 4 ==> text::is_digit(#[trigger] s[k]),
    ensures
        order::year_digits(s, i) == 4,
    decreases 4 - i,
{
    if i < 4 {
        assert(text::is_digit(s[i]));
        lemma_year_digits(s, i + 1);
    }
}

/// The year of a record is the number that its first four digits make, whatever
/// follows.
pub proof fn lemma_the_year_of_a_record(y: nat, rest: Seq<char>)
    requires
        1000 <= y <= 9999,
    ensures
        order::year_number(text::decimal(y) + rest) == y,
{
    let d = text::decimal(y);
    text::lemma_number_of_decimal(y);
    reveal_with_fuel(text::decimal, 5);
    assert(d.len() == 4);
    let s = d + rest;
    assert forall|k: int| 0 <= k < 4 implies text::is_digit(#[trigger] s[k]) by {
        assert(s[k] == d[k]);
        assert(text::is_digit(d[k]));
    }
    lemma_year_digits(s, 0);
    assert(s.take(4) =~= d);
}

} // verus!
