//! The order a list is shown in.

use vstd::prelude::*;
use vstd::string::*;

use crate::history::Entry;
use crate::model;
use crate::model::{or_blank, Book};
use crate::text;
use crate::text::{chars_of, comes_first, digit, to_ascii_lower};

verus! {

/// What a list is sorted by.
#[derive(Debug, Clone, Copy, PartialEq, Eq, Structural)]
pub enum Order {
    /// As it came: what the mirror found most relevant first, or the newest
    /// download.
    Natural,
    Title,
    Author,
    Year,
    Size,
}

/// How a list is sorted. Titles and authors go from A to Z, sizes and years from
/// the largest and the newest, unless it is backwards.
#[derive(Debug, Clone, Copy, PartialEq, Eq, Structural)]
pub struct Sorting {
    pub order: Order,
    pub backwards: bool,
}

/// The order things come in.
pub open spec fn as_it_came() -> Sorting {
    Sorting { order: Order::Natural, backwards: false }
}

/// What an item is sorted by: the larger number first, and of those with the
/// same number the text that comes first.
pub type Key = (Seq<char>, nat);

pub open spec fn before(a: Key, b: Key) -> bool {
    a.1 > b.1 || (a.1 == b.1 && text::precedes(a.0, b.0, 0))
}

/// Whether one item goes before another.
pub open spec fn leads(keys: Seq<Key>, backwards: bool, i: usize, j: usize) -> bool {
    if backwards {
        before(keys[j as int], keys[i as int])
    } else {
        before(keys[i as int], keys[j as int])
    }
}

/// A sorted list with one more item, behind all those it does not lead.
pub open spec fn put(keys: Seq<Key>, backwards: bool, v: Seq<usize>, i: usize) -> Seq<usize>
    decreases v.len(),
{
    if v.len() == 0 || !leads(keys, backwards, i, v.last()) {
        v.push(i)
    } else {
        put(keys, backwards, v.drop_last(), i).push(v.last())
    }
}

/// A list sorted. Items of which neither leads the other stay as they were.
pub open spec fn sorted(keys: Seq<Key>, backwards: bool, v: Seq<usize>) -> Seq<usize>
    decreases v.len(),
{
    if v.len() == 0 {
        v
    } else {
        put(keys, backwards, sorted(keys, backwards, v.drop_last()), v.last())
    }
}

/// How many digits a text begins with, from `i` on, up to four in all.
pub open spec fn year_digits(s: Seq<char>, i: int) -> int
    decreases 4 - i,
{
    if 0 <= i < 4 && i < s.len() && text::is_digit(s[i]) {
        year_digits(s, i + 1)
    } else {
        i
    }
}

/// The year a record gives, of which there may be several: the first. None is
/// older than any.
pub open spec fn year_number(s: Seq<char>) -> nat {
    text::dec_value(s.take(year_digits(s, 0)))
}

/// What a result is sorted by, which is at a place among `n`.
pub open spec fn book_key(order: Order, b: Book, place: int, n: int) -> Key {
    match order {
        Order::Natural => (seq![], (n - place) as nat),
        Order::Title => (text::ascii_lower(b.title@), 0),
        Order::Author => (text::ascii_lower(b.first_author_text()), 0),
        Order::Year => (seq![], year_number(model::or_empty(b.year))),
        Order::Size => (
            seq![],
            match b.size_bytes {
                Some(k) => k as nat,
                None => 0,
            },
        ),
    }
}

pub open spec fn book_keys(order: Order, books: Seq<Book>) -> Seq<Key> {
    Seq::new(books.len(), |i: int| book_key(order, books[i], i, books.len() as int))
}

/// What a past download is sorted by, which is at a place among `n`. Its year is
/// not known.
pub open spec fn entry_key(order: Order, e: Entry, place: int, n: int) -> Key {
    match order {
        Order::Natural => (seq![], (n - place) as nat),
        Order::Title => (text::ascii_lower(e.title@), 0),
        Order::Author => (text::ascii_lower(e.first_author_text()), 0),
        Order::Year => (seq![], (n - place) as nat),
        Order::Size => (seq![], e.size as nat),
    }
}

pub open spec fn entry_keys(order: Order, es: Seq<Entry>) -> Seq<Key> {
    Seq::new(es.len(), |i: int| entry_key(order, es[i], i, es.len() as int))
}

pub open spec fn key_views(v: Seq<(String, u64)>) -> Seq<Key> {
    v.map_values(|k: (String, u64)| (k.0@, k.1 as nat))
}

fn year_of(s: &str) -> (r: u64)
    ensures
        r == year_number(s@),
{
    let v = chars_of(s);
    let mut n: u64 = 0;
    let mut i: usize = 0;
    assert(v@.take(0) =~= seq![]);
    assert(text::dec_value(seq![]) == 0);
    while i < 4 && i < v.len() && digit(v[i])
        invariant
            i <= 4,
            i <= v@.len(),
            v@ == s@,
            year_digits(s@, 0) == year_digits(s@, i as int),
            n == text::dec_value(v@.take(i as int)),
            i == 0 ==> n <= 0,
            i == 1 ==> n <= 9,
            i == 2 ==> n <= 99,
            i == 3 ==> n <= 999,
            i == 4 ==> n <= 9999,
        decreases 4 - i,
    {
        assert(v@.take(i + 1).drop_last() =~= v@.take(i as int));
        n = 10 * n + (v[i] as u32 - 48) as u64;
        i += 1;
    }
    n
}

fn key_of_book(order: Order, b: &Book, place: usize, n: usize) -> (r: (String, u64))
    requires
        place < n,
    ensures
        (r.0@, r.1 as nat) == book_key(order, *b, place as int, n as int),
{
    match order {
        Order::Natural => (String::new(), (n - place) as u64),
        Order::Title => (to_ascii_lower(&b.title), 0),
        Order::Author => (to_ascii_lower(&b.first_author()), 0),
        Order::Year => (String::new(), year_of(or_blank(&b.year))),
        Order::Size => (
            String::new(),
            match b.size_bytes {
                Some(k) => k,
                None => 0,
            },
        ),
    }
}

fn key_of_entry(order: Order, e: &Entry, place: usize, n: usize) -> (r: (String, u64))
    requires
        place < n,
    ensures
        (r.0@, r.1 as nat) == entry_key(order, *e, place as int, n as int),
{
    match order {
        Order::Natural => (String::new(), (n - place) as u64),
        Order::Title => (to_ascii_lower(&e.title), 0),
        Order::Author => (to_ascii_lower(&e.first_author()), 0),
        Order::Year => (String::new(), (n - place) as u64),
        Order::Size => (String::new(), e.size),
    }
}

/// What each result is sorted by.
pub fn keys_of_books(order: Order, books: &Vec<Book>) -> (r: Vec<(String, u64)>)
    ensures
        key_views(r@) == book_keys(order, books@),
{
    let n: usize = books.len();
    let mut out: Vec<(String, u64)> = Vec::new();
    let mut i: usize = 0;
    while i < n
        invariant
            i <= n,
            n == books@.len(),
            out@.len() == i,
            forall|k: int|
                0 <= k < i ==> (#[trigger] key_views(out@)[k]) == book_keys(order, books@)[k],
        decreases n - i,
    {
        let key = key_of_book(order, &books[i], i, n);
        let ghost before = out@;
        out.push(key);
        assert forall|k: int| 0 <= k < i + 1 implies (#[trigger] key_views(out@)[k]) == book_keys(
            order,
            books@,
        )[k] by {
            if k < i {
                assert(key_views(out@)[k] == key_views(before)[k]);
            }
        }
        i += 1;
    }
    assert(key_views(out@) =~= book_keys(order, books@));
    out
}

/// What each past download is sorted by.
pub fn keys_of_entries(order: Order, es: &Vec<Entry>) -> (r: Vec<(String, u64)>)
    ensures
        key_views(r@) == entry_keys(order, es@),
{
    let n: usize = es.len();
    let mut out: Vec<(String, u64)> = Vec::new();
    let mut i: usize = 0;
    while i < n
        invariant
            i <= n,
            n == es@.len(),
            out@.len() == i,
            forall|k: int|
                0 <= k < i ==> (#[trigger] key_views(out@)[k]) == entry_keys(order, es@)[k],
        decreases n - i,
    {
        let key = key_of_entry(order, &es[i], i, n);
        let ghost before = out@;
        out.push(key);
        assert forall|k: int| 0 <= k < i + 1 implies (#[trigger] key_views(out@)[k]) == entry_keys(
            order,
            es@,
        )[k] by {
            if k < i {
                assert(key_views(out@)[k] == key_views(before)[k]);
            }
        }
        i += 1;
    }
    assert(key_views(out@) =~= entry_keys(order, es@));
    out
}

fn goes_before(a: &(String, u64), b: &(String, u64)) -> (r: bool)
    ensures
        r == before((a.0@, a.1 as nat), (b.0@, b.1 as nat)),
{
    a.1 > b.1 || (a.1 == b.1 && comes_first(&a.0, &b.0))
}

fn takes_the_lead(keys: &Vec<(String, u64)>, backwards: bool, i: usize, j: usize) -> (r: bool)
    requires
        i < keys@.len(),
        j < keys@.len(),
    ensures
        r == leads(key_views(keys@), backwards, i, j),
{
    if backwards {
        goes_before(&keys[j], &keys[i])
    } else {
        goes_before(&keys[i], &keys[j])
    }
}

proof fn lemma_put_at(keys: Seq<Key>, backwards: bool, v: Seq<usize>, i: usize, p: int)
    requires
        0 <= p <= v.len(),
        forall|q: int| p <= q < v.len() ==> leads(keys, backwards, i, #[trigger] v[q]),
        p > 0 ==> !leads(keys, backwards, i, v[p - 1]),
    ensures
        put(keys, backwards, v, i) == v.insert(p, i),
    decreases v.len(),
{
    if p == v.len() {
        assert(v.insert(p, i) =~= v.push(i));
    } else {
        lemma_put_at(keys, backwards, v.drop_last(), i, p);
        assert(v.insert(p, i) =~= v.drop_last().insert(p, i).push(v.last()));
    }
}

/// Sort a list of places by the keys that stand there.
pub fn sort(keys: &Vec<(String, u64)>, backwards: bool, v: &Vec<usize>) -> (r: Vec<usize>)
    requires
        forall|i: int| 0 <= i < v@.len() ==> #[trigger] v@[i] < keys@.len(),
    ensures
        r@ == sorted(key_views(keys@), backwards, v@),
{
    let ghost ks = key_views(keys@);
    let mut out: Vec<usize> = Vec::new();
    let mut i: usize = 0;
    assert(v@.take(0) =~= seq![]);
    while i < v.len()
        invariant
            i <= v@.len(),
            ks == key_views(keys@),
            forall|k: int| 0 <= k < v@.len() ==> #[trigger] v@[k] < keys@.len(),
            forall|k: int| 0 <= k < out@.len() ==> #[trigger] out@[k] < keys@.len(),
            out@ == sorted(ks, backwards, v@.take(i as int)),
        decreases v@.len() - i,
    {
        assert(v@.take(i + 1).drop_last() =~= v@.take(i as int));
        let x: usize = v[i];
        let mut p: usize = out.len();
        while p > 0 && takes_the_lead(keys, backwards, x, out[p - 1])
            invariant
                p <= out@.len(),
                ks == key_views(keys@),
                x < keys@.len(),
                forall|k: int| 0 <= k < out@.len() ==> #[trigger] out@[k] < keys@.len(),
                forall|q: int| p <= q < out@.len() ==> leads(ks, backwards, x, #[trigger] out@[q]),
            decreases p,
        {
            p -= 1;
        }
        proof {
            lemma_put_at(ks, backwards, out@, x, p as int);
        }
        out.insert(p, x);
        i += 1;
    }
    assert(v@.take(v@.len() as int) =~= v@);
    out
}

// ---------------------------------------------------------------------------
// Laws
// ---------------------------------------------------------------------------

proof fn lemma_put_holds(keys: Seq<Key>, backwards: bool, v: Seq<usize>, i: usize)
    ensures
        put(keys, backwards, v, i).to_multiset() == v.to_multiset().insert(i),
        put(keys, backwards, v, i).len() == v.len() + 1,
    decreases v.len(),
{
    v.to_multiset_ensures();
    if !(v.len() == 0 || !leads(keys, backwards, i, v.last())) {
        let head = put(keys, backwards, v.drop_last(), i);
        lemma_put_holds(keys, backwards, v.drop_last(), i);
        head.to_multiset_ensures();
        v.drop_last().to_multiset_ensures();
        assert(v =~= v.drop_last().push(v.last()));
        assert(head.push(v.last()).to_multiset() =~= v.to_multiset().insert(i));
    }
}

/// Sorting keeps what there is, and how often.
pub proof fn lemma_sorting_keeps_everything(keys: Seq<Key>, backwards: bool, v: Seq<usize>)
    ensures
        sorted(keys, backwards, v).to_multiset() == v.to_multiset(),
        sorted(keys, backwards, v).len() == v.len(),
        forall|x: usize| sorted(keys, backwards, v).contains(x) <==> v.contains(x),
        v.no_duplicates() ==> sorted(keys, backwards, v).no_duplicates(),
    decreases v.len(),
{
    let out = sorted(keys, backwards, v);
    if v.len() > 0 {
        let head = v.drop_last();
        lemma_sorting_keeps_everything(keys, backwards, head);
        lemma_put_holds(keys, backwards, sorted(keys, backwards, head), v.last());
        head.to_multiset_ensures();
        assert(v =~= head.push(v.last()));
    }
    assert(out.to_multiset() == v.to_multiset());
    out.to_multiset_ensures();
    v.to_multiset_ensures();
    assert forall|x: usize| out.contains(x) <==> v.contains(x) by {
        assert(out.contains(x) <==> out.to_multiset().count(x) > 0);
        assert(v.contains(x) <==> v.to_multiset().count(x) > 0);
    }
    if v.no_duplicates() {
        v.lemma_multiset_has_no_duplicates();
        out.lemma_multiset_has_no_duplicates_conv();
    }
}

/// Places within bounds stay within them.
pub proof fn lemma_sorting_stays_within(
    keys: Seq<Key>,
    backwards: bool,
    v: Seq<usize>,
    bound: nat,
)
    requires
        forall|i: int| 0 <= i < v.len() ==> #[trigger] v[i] < bound,
    ensures
        forall|i: int|
            0 <= i < sorted(keys, backwards, v).len() ==> #[trigger] sorted(keys, backwards, v)[i]
                < bound,
        sorted(keys, backwards, v).len() == v.len(),
{
    let out = sorted(keys, backwards, v);
    lemma_sorting_keeps_everything(keys, backwards, v);
    assert forall|i: int| 0 <= i < out.len() implies #[trigger] out[i] < bound by {
        assert(out.contains(out[i]));
        assert(v.contains(out[i]));
    }
}

pub proof fn lemma_precedes(a: Seq<char>, b: Seq<char>, c: Seq<char>, i: int)
    requires
        0 <= i,
        i <= a.len(),
        i <= b.len(),
        i <= c.len(),
    ensures
        !(text::precedes(a, b, i) && text::precedes(b, a, i)),
        !text::precedes(b, a, i) && !text::precedes(c, b, i) ==> !text::precedes(c, a, i),
    decreases a.len() - i,
{
    if i < a.len() && i < b.len() && i < c.len() {
        lemma_precedes(a, b, c, i + 1);
    } else if i < a.len() && i < b.len() {
        lemma_precedes(a, b, a, i + 1);
    }
}

/// No item leads one that leads it, and where neither of two pairs in a row is
/// the wrong way round, the ends are not either.
proof fn lemma_before(a: Key, b: Key, c: Key)
    ensures
        !(before(a, b) && before(b, a)),
        !before(b, a) && !before(c, b) ==> !before(c, a),
{
    lemma_precedes(a.0, b.0, c.0, 0);
}

/// Whether no item goes before one that stands ahead of it.
pub open spec fn in_order(keys: Seq<Key>, backwards: bool, v: Seq<usize>) -> bool {
    forall|i: int, j: int|
        0 <= i < j < v.len() ==> !leads(keys, backwards, #[trigger] v[j], #[trigger] v[i])
}

proof fn lemma_put_in_order(keys: Seq<Key>, backwards: bool, v: Seq<usize>, i: usize)
    requires
        in_order(keys, backwards, v),
    ensures
        in_order(keys, backwards, put(keys, backwards, v, i)),
        forall|q: int|
            0 <= q < put(keys, backwards, v, i).len() ==> (#[trigger] put(keys, backwards, v, i)[q]
                == i || v.contains(put(keys, backwards, v, i)[q])),
    decreases v.len(),
{
    let out = put(keys, backwards, v, i);
    let k = |x: usize| keys[x as int];
    if v.len() == 0 || !leads(keys, backwards, i, v.last()) {
        assert forall|p: int, q: int| 0 <= p < q < out.len() implies !leads(
            keys,
            backwards,
            #[trigger] out[q],
            #[trigger] out[p],
        ) by {
            if q == v.len() && p < v.len() - 1 {
                assert(!leads(keys, backwards, v[v.len() - 1], v[p]));
                lemma_before(k(v[p]), k(v.last()), k(i));
                lemma_before(k(i), k(v.last()), k(v[p]));
            }
        }
    } else {
        let w = v.drop_last();
        assert forall|p: int, q: int| 0 <= p < q < w.len() implies !leads(
            keys,
            backwards,
            #[trigger] w[q],
            #[trigger] w[p],
        ) by {
            assert(!leads(keys, backwards, v[q], v[p]));
        }
        lemma_put_in_order(keys, backwards, w, i);
        let head = put(keys, backwards, w, i);
        assert forall|p: int, q: int| 0 <= p < q < out.len() implies !leads(
            keys,
            backwards,
            #[trigger] out[q],
            #[trigger] out[p],
        ) by {
            if q == head.len() {
                if head[p] == i {
                    lemma_before(k(i), k(v.last()), k(i));
                } else {
                    assert(w.contains(head[p]));
                    let r = choose|r: int| 0 <= r < w.len() && w[r] == head[p];
                    assert(!leads(keys, backwards, v[v.len() - 1], v[r]));
                }
            } else {
                assert(!leads(keys, backwards, head[q], head[p]));
            }
        }
        assert forall|q: int| 0 <= q < out.len() implies (#[trigger] out[q] == i || v.contains(
            out[q],
        )) by {
            if q == head.len() {
                assert(v[v.len() - 1] == out[q]);
            } else if head[q] != i {
                assert(w.contains(head[q]));
                let r = choose|r: int| 0 <= r < w.len() && w[r] == head[q];
                assert(v[r] == out[q]);
            }
        }
    }
}

/// A sorted list is in order.
pub proof fn lemma_sorting_sorts(keys: Seq<Key>, backwards: bool, v: Seq<usize>)
    ensures
        in_order(keys, backwards, sorted(keys, backwards, v)),
    decreases v.len(),
{
    if v.len() > 0 {
        lemma_sorting_sorts(keys, backwards, v.drop_last());
        lemma_put_in_order(keys, backwards, sorted(keys, backwards, v.drop_last()), v.last());
    }
}

/// What is sorted as it came stays as it came.
pub proof fn lemma_results_stay_as_they_came(books: Seq<Book>, v: Seq<usize>)
    requires
        forall|i: int, j: int| 0 <= i < j < v.len() ==> v[i] < v[j],
        forall|i: int| 0 <= i < v.len() ==> #[trigger] v[i] < books.len(),
    ensures
        sorted(book_keys(Order::Natural, books), false, v) == v,
{
    lemma_sorting_leaves_order_alone(book_keys(Order::Natural, books), false, v);
}

/// The same of past downloads.
pub proof fn lemma_entries_stay_as_they_came(es: Seq<Entry>, v: Seq<usize>)
    requires
        forall|i: int, j: int| 0 <= i < j < v.len() ==> v[i] < v[j],
        forall|i: int| 0 <= i < v.len() ==> #[trigger] v[i] < es.len(),
    ensures
        sorted(entry_keys(Order::Natural, es), false, v) == v,
{
    lemma_sorting_leaves_order_alone(entry_keys(Order::Natural, es), false, v);
}

/// A list that is in order already is left as it is.
pub proof fn lemma_sorting_leaves_order_alone(keys: Seq<Key>, backwards: bool, v: Seq<usize>)
    requires
        in_order(keys, backwards, v),
    ensures
        sorted(keys, backwards, v) == v,
    decreases v.len(),
{
    if v.len() > 0 {
        let w = v.drop_last();
        assert forall|p: int, q: int| 0 <= p < q < w.len() implies !leads(
            keys,
            backwards,
            #[trigger] w[q],
            #[trigger] w[p],
        ) by {
            assert(!leads(keys, backwards, v[q], v[p]));
        }
        lemma_sorting_leaves_order_alone(keys, backwards, w);
        if w.len() > 0 {
            assert(!leads(keys, backwards, v[v.len() - 1], v[v.len() - 2]));
        }
        assert(w.push(v.last()) =~= v);
    }
}

} // verus!
