//! What holds of a query: what each tag, written out, asks for.

use vstd::prelude::*;

use crate::model;
use crate::model::Field;
use crate::query;
use crate::query::Reading;
use crate::text;

verus! {

/// Whether a value means itself: it is not blank and has no quotes around it.
pub open spec fn plain(v: Seq<char>) -> bool {
    &&& v.len() > 0
    &&& v[0] != '"'
    &&& v.last() != '"'
    &&& text::trimmed(v).len() > 0
}

/// A word that carries a tag.
pub open spec fn with_tag(key: Seq<char>, v: Seq<char>) -> Seq<char> {
    key + seq![':'] + v
}

#[verifier::spinoff_prover]
proof fn lemma_tags_spelled()
    ensures
        "author"@.len() == 6,
        "author"@[0] == 'a',
        "author"@[1] == 'u',
        "author"@[2] == 't',
        "author"@[3] == 'h',
        "author"@[4] == 'o',
        "author"@[5] == 'r',
        "title"@.len() == 5,
        "title"@[0] == 't',
        "title"@[1] == 'i',
        "title"@[2] == 't',
        "title"@[3] == 'l',
        "title"@[4] == 'e',
        "series"@.len() == 6,
        "series"@[0] == 's',
        "series"@[1] == 'e',
        "series"@[2] == 'r',
        "series"@[3] == 'i',
        "series"@[4] == 'e',
        "series"@[5] == 's',
        "publisher"@.len() == 9,
        "publisher"@[0] == 'p',
        "publisher"@[1] == 'u',
        "publisher"@[2] == 'b',
        "publisher"@[3] == 'l',
        "publisher"@[4] == 'i',
        "publisher"@[5] == 's',
        "publisher"@[6] == 'h',
        "publisher"@[7] == 'e',
        "publisher"@[8] == 'r',
        "year"@.len() == 4,
        "year"@[0] == 'y',
        "year"@[1] == 'e',
        "year"@[2] == 'a',
        "year"@[3] == 'r',
        "isbn"@.len() == 4,
        "isbn"@[0] == 'i',
        "isbn"@[1] == 's',
        "isbn"@[2] == 'b',
        "isbn"@[3] == 'n',
        "ext"@.len() == 3,
        "ext"@[0] == 'e',
        "ext"@[1] == 'x',
        "ext"@[2] == 't',
        "lang"@.len() == 4,
        "lang"@[0] == 'l',
        "lang"@[1] == 'a',
        "lang"@[2] == 'n',
        "lang"@[3] == 'g',
        "topic"@.len() == 5,
        "topic"@[0] == 't',
        "topic"@[1] == 'o',
        "topic"@[2] == 'p',
        "topic"@[3] == 'i',
        "topic"@[4] == 'c',
{
    reveal_strlit("author");
    reveal_strlit("title");
    reveal_strlit("series");
    reveal_strlit("publisher");
    reveal_strlit("year");
    reveal_strlit("isbn");
    reveal_strlit("ext");
    reveal_strlit("lang");
    reveal_strlit("topic");
}

proof fn lemma_cut(key: Seq<char>, v: Seq<char>)
    requires
        forall|i: int| 0 <= i < key.len() ==> 'a' <= #[trigger] key[i] <= 'z',
        plain(v),
    ensures
        text::cut(with_tag(key, v), ':') == Some((key, v)),
        text::ascii_lower(key) == key,
        text::stripped_of(v, '"') == v,
{
    let s = with_tag(key, v);
    let n = key.len() as int;
    text::lemma_first_at(s, ':', 0);
    let e = text::first_at(s, ':', 0);
    assert(s[n] == ':');
    if e < n {
        assert(s[e] == key[e]);
    }
    assert(s.subrange(0, n) =~= key);
    assert(s.subrange(n + 1, s.len() as int) =~= v);
    assert(text::ascii_lower(key) =~= key);
    assert(v.subrange(0, v.len() as int) =~= v);
}

/// What a query asks for with one more word.
proof fn lemma_one_more(ws: Seq<Seq<char>>, word: Seq<char>)
    ensures
        ws.push(word).drop_last() == ws,
        ws.push(word).last() == word,
{
    assert(ws.push(word).drop_last() =~= ws);
}

/// `author:` searches the column it names, and its value is a term.
pub proof fn lemma_author_tag(ws: Seq<Seq<char>>, v: Seq<char>)
    requires
        plain(v),
    ensures
        query::read_all(ws.push(with_tag("author"@, v))) == (Reading {
            words: query::read_all(ws).words.push(v),
            fields: query::read_all(ws).fields.push(Field::Author),
            ..query::read_all(ws)
        }),
{
    lemma_tags_spelled();
    lemma_cut("author"@, v);
    lemma_one_more(ws, with_tag("author"@, v));
}

/// `title:` searches the column it names, and its value is a term.
pub proof fn lemma_title_tag(ws: Seq<Seq<char>>, v: Seq<char>)
    requires
        plain(v),
    ensures
        query::read_all(ws.push(with_tag("title"@, v))) == (Reading {
            words: query::read_all(ws).words.push(v),
            fields: query::read_all(ws).fields.push(Field::Title),
            ..query::read_all(ws)
        }),
{
    lemma_tags_spelled();
    lemma_cut("title"@, v);
    lemma_one_more(ws, with_tag("title"@, v));
}

/// `series:` searches the column it names, and its value is a term.
pub proof fn lemma_series_tag(ws: Seq<Seq<char>>, v: Seq<char>)
    requires
        plain(v),
    ensures
        query::read_all(ws.push(with_tag("series"@, v))) == (Reading {
            words: query::read_all(ws).words.push(v),
            fields: query::read_all(ws).fields.push(Field::Series),
            ..query::read_all(ws)
        }),
{
    lemma_tags_spelled();
    lemma_cut("series"@, v);
    lemma_one_more(ws, with_tag("series"@, v));
}

/// `publisher:` searches the column it names, and its value is a term.
pub proof fn lemma_publisher_tag(ws: Seq<Seq<char>>, v: Seq<char>)
    requires
        plain(v),
    ensures
        query::read_all(ws.push(with_tag("publisher"@, v))) == (Reading {
            words: query::read_all(ws).words.push(v),
            fields: query::read_all(ws).fields.push(Field::Publisher),
            ..query::read_all(ws)
        }),
{
    lemma_tags_spelled();
    lemma_cut("publisher"@, v);
    lemma_one_more(ws, with_tag("publisher"@, v));
}

/// `year:` searches the column it names, and its value is a term.
pub proof fn lemma_year_tag(ws: Seq<Seq<char>>, v: Seq<char>)
    requires
        plain(v),
    ensures
        query::read_all(ws.push(with_tag("year"@, v))) == (Reading {
            words: query::read_all(ws).words.push(v),
            fields: query::read_all(ws).fields.push(Field::Year),
            ..query::read_all(ws)
        }),
{
    lemma_tags_spelled();
    lemma_cut("year"@, v);
    lemma_one_more(ws, with_tag("year"@, v));
}

/// `isbn:` searches the column it names, and its value is a term.
pub proof fn lemma_isbn_tag(ws: Seq<Seq<char>>, v: Seq<char>)
    requires
        plain(v),
    ensures
        query::read_all(ws.push(with_tag("isbn"@, v))) == (Reading {
            words: query::read_all(ws).words.push(v),
            fields: query::read_all(ws).fields.push(Field::Isbn),
            ..query::read_all(ws)
        }),
{
    lemma_tags_spelled();
    lemma_cut("isbn"@, v);
    lemma_one_more(ws, with_tag("isbn"@, v));
}

/// `ext:` asks for a format, in lower case and without a dot before it, and is no
/// term.
pub proof fn lemma_ext_tag(ws: Seq<Seq<char>>, v: Seq<char>)
    requires
        plain(v),
        v[0] != '.',
    ensures
        query::read_all(ws.push(with_tag("ext"@, v))) == (Reading {
            extension: Some(text::ascii_lower(v)),
            ..query::read_all(ws)
        }),
{
    lemma_tags_spelled();
    lemma_cut("ext"@, v);
    lemma_one_more(ws, with_tag("ext"@, v));
    assert(text::stripped_start(v, '.') =~= v);
}

/// `lang:` asks for a language, and is no term.
pub proof fn lemma_lang_tag(ws: Seq<Seq<char>>, v: Seq<char>)
    requires
        plain(v),
    ensures
        query::read_all(ws.push(with_tag("lang"@, v))) == (Reading {
            language: Some(v),
            ..query::read_all(ws)
        }),
{
    lemma_tags_spelled();
    lemma_cut("lang"@, v);
    lemma_one_more(ws, with_tag("lang"@, v));
}

/// `topic:` asks for a collection that there is, and is no term; one that there is
/// not is a term as it stands.
pub proof fn lemma_topic_tag(ws: Seq<Seq<char>>, v: Seq<char>)
    requires
        plain(v),
    ensures
        model::topic_named(v) is Some ==> query::read_all(ws.push(with_tag("topic"@, v))) == (
        Reading {
            topics: query::read_all(ws).topics.push(model::topic_named(v)->0),
            ..query::read_all(ws)
        }),
        model::topic_named(v) is None ==> query::read_all(ws.push(with_tag("topic"@, v))) == (
        Reading {
            words: query::read_all(ws).words.push(with_tag("topic"@, v)),
            ..query::read_all(ws)
        }),
{
    lemma_tags_spelled();
    lemma_cut("topic"@, v);
    lemma_one_more(ws, with_tag("topic"@, v));
}

/// A word without a colon is a term.
pub proof fn lemma_a_plain_word_is_a_term(ws: Seq<Seq<char>>, word: Seq<char>)
    requires
        text::free_of(word, ':'),
    ensures
        query::read_all(ws.push(word)) == (Reading {
            words: query::read_all(ws).words.push(word),
            ..query::read_all(ws)
        }),
{
    text::lemma_first_at(word, ':', 0);
    lemma_one_more(ws, word);
}

/// The words before a quoted part end, where no quote stands, at white space.
proof fn lemma_word_end_is(s: Seq<char>, i: int, e: int)
    requires
        0 <= i <= e <= s.len(),
        forall|k: int| i <= k < e ==> !text::is_white(#[trigger] s[k]) && s[k] != '"',
        e == s.len() || text::is_white(s[e]) && s[e] != '"',
    ensures
        query::word_end(s, i, false) == e,
    decreases e - i,
{
    if i < e {
        lemma_word_end_is(s, i + 1, e);
    }
}

/// A word is everything up to the next white space.
pub proof fn lemma_a_word_is_read(s: Seq<char>, i: int, e: int)
    requires
        0 <= i < e <= s.len(),
        forall|k: int| i <= k < e ==> !text::is_white(#[trigger] s[k]) && s[k] != '"',
        e == s.len() || text::is_white(s[e]),
    ensures
        query::words_from(s, i) == seq![s.subrange(i, e)] + query::words_from(s, e),
{
    lemma_word_end_is(s, i, e);
}

proof fn lemma_quoted_end(s: Seq<char>, i: int, e: int)
    requires
        0 <= i < e <= s.len(),
        forall|k: int| i <= k < e - 1 ==> (#[trigger] s[k]) != '"',
        s[e - 1] == '"',
        e == s.len() || text::is_white(s[e]) && s[e] != '"',
    ensures
        query::word_end(s, i, true) == e,
    decreases e - i,
{
    if i < e - 1 {
        lemma_quoted_end(s, i + 1, e);
    } else {
        reveal_with_fuel(query::word_end, 2);
    }
}

proof fn lemma_end_at_quote(s: Seq<char>, i: int, q: int)
    requires
        0 <= i <= q < s.len(),
        forall|k: int| i <= k < q ==> !text::is_white(#[trigger] s[k]) && s[k] != '"',
        s[q] == '"',
    ensures
        query::word_end(s, i, false) == query::word_end(s, q + 1, true),
    decreases q - i,
{
    if i < q {
        lemma_end_at_quote(s, i + 1, q);
    }
}

/// White space between quotes does not end a word, so a tag can have a value of
/// several words.
pub proof fn lemma_quotes_keep_a_word_whole(s: Seq<char>, i: int, q: int, e: int)
    requires
        0 <= i <= q < q + 1 < e <= s.len(),
        forall|k: int| i <= k < q ==> !text::is_white(#[trigger] s[k]) && s[k] != '"',
        s[q] == '"',
        forall|k: int| q < k < e - 1 ==> (#[trigger] s[k]) != '"',
        s[e - 1] == '"',
        e == s.len() || text::is_white(s[e]),
    ensures
        query::words_from(s, i) == seq![s.subrange(i, e)] + query::words_from(s, e),
{
    lemma_end_at_quote(s, i, q);
    lemma_quoted_end(s, q + 1, e);
}

// ---------------------------------------------------------------------------
// Sizes
// ---------------------------------------------------------------------------

proof fn lemma_digits_end(s: Seq<char>, i: int, n: int)
    requires
        0 <= i <= n <= s.len(),
        forall|k: int| i <= k < n ==> text::is_digit(#[trigger] s[k]),
        n == s.len() || !text::is_digit(s[n]),
    ensures
        model::digits_end(s, i) == n,
    decreases n - i,
{
    if i < n {
        lemma_digits_end(s, i + 1, n);
    }
}

#[verifier::spinoff_prover]
proof fn lemma_units_spelled()
    ensures
        "b"@.len() == 1,
        "b"@[0] == 'b',
        "k"@.len() == 1,
        "k"@[0] == 'k',
        "kb"@.len() == 2,
        "kb"@[0] == 'k',
        "kb"@[1] == 'b',
        "kib"@.len() == 3,
        "kib"@[0] == 'k',
        "kib"@[1] == 'i',
        "kib"@[2] == 'b',
        "m"@.len() == 1,
        "m"@[0] == 'm',
        "mb"@.len() == 2,
        "mb"@[0] == 'm',
        "mb"@[1] == 'b',
        "mib"@.len() == 3,
        "mib"@[0] == 'm',
        "mib"@[1] == 'i',
        "mib"@[2] == 'b',
        "g"@.len() == 1,
        "g"@[0] == 'g',
        "gb"@.len() == 2,
        "gb"@[0] == 'g',
        "gb"@[1] == 'b',
        "gib"@.len() == 3,
        "gib"@[0] == 'g',
        "gib"@[1] == 'i',
        "gib"@[2] == 'b',
        "t"@.len() == 1,
        "t"@[0] == 't',
        "tb"@.len() == 2,
        "tb"@[0] == 't',
        "tb"@[1] == 'b',
        "tib"@.len() == 3,
        "tib"@[0] == 't',
        "tib"@[1] == 'i',
        "tib"@[2] == 'b',
{
    reveal_strlit("b");
    reveal_strlit("k");
    reveal_strlit("kb");
    reveal_strlit("kib");
    reveal_strlit("m");
    reveal_strlit("mb");
    reveal_strlit("mib");
    reveal_strlit("g");
    reveal_strlit("gb");
    reveal_strlit("gib");
    reveal_strlit("t");
    reveal_strlit("tb");
    reveal_strlit("tib");
}

proof fn lemma_size(n: nat, unit: Seq<char>, bytes: nat)
    requires
        forall|i: int| 0 <= i < unit.len() ==> 'a' <= #[trigger] unit[i] <= 'z',
        model::unit_bytes(unit) == Some(bytes),
    ensures
        model::size_of_text(text::decimal(n) + unit) == Some(n * bytes),
{
    let d = text::decimal(n);
    let s = d + unit;
    text::lemma_number_of_decimal(n);
    assert forall|k: int| 0 <= k < d.len() implies text::is_digit(#[trigger] s[k]) by {
        assert(s[k] == d[k]);
        assert(text::is_digit(d[k]));
    }
    if unit.len() > 0 {
        assert(s[d.len() as int] == unit[0]);
        assert(s[s.len() - 1] == unit.last());
    } else {
        assert(s[s.len() - 1] == d.last());
    }
    assert(text::is_digit(s[0]));
    text::lemma_trimmed_is(s, 0, s.len() as int);
    assert(s.subrange(0, s.len() as int) =~= s);
    lemma_digits_end(s, 0, d.len() as int);
    assert(s.subrange(0, d.len() as int) =~= d);
    assert(s.subrange(d.len() as int, s.len() as int) =~= unit);
    if unit.len() > 0 {
        text::lemma_trimmed_is(unit, 0, unit.len() as int);
        assert(unit.subrange(0, unit.len() as int) =~= unit);
    } else {
        text::lemma_trimmed_is(unit, 0, 0);
        assert(unit.subrange(0, 0) =~= unit);
    }
}

/// A whole number and a unit make a size: units count in powers of 1024, and none
/// at all means bytes.
#[verifier::spinoff_prover]
pub proof fn lemma_sizes_are_read(n: nat)
    ensures
        model::size_of_text(text::decimal(n)) == Some(n),
        model::size_of_text(text::decimal(n) + "b"@) == Some(n * 1),
        model::size_of_text(text::decimal(n) + "k"@) == Some(n * 1024),
        model::size_of_text(text::decimal(n) + "kb"@) == Some(n * 1024),
        model::size_of_text(text::decimal(n) + "kib"@) == Some(n * 1024),
        model::size_of_text(text::decimal(n) + "m"@) == Some(n * 1048576),
        model::size_of_text(text::decimal(n) + "mb"@) == Some(n * 1048576),
        model::size_of_text(text::decimal(n) + "mib"@) == Some(n * 1048576),
        model::size_of_text(text::decimal(n) + "g"@) == Some(n * 1073741824),
        model::size_of_text(text::decimal(n) + "gb"@) == Some(n * 1073741824),
        model::size_of_text(text::decimal(n) + "gib"@) == Some(n * 1073741824),
        model::size_of_text(text::decimal(n) + "t"@) == Some(n * 1099511627776),
        model::size_of_text(text::decimal(n) + "tb"@) == Some(n * 1099511627776),
        model::size_of_text(text::decimal(n) + "tib"@) == Some(n * 1099511627776),
{
    lemma_units_spelled();
    let none = Seq::<char>::empty();
    assert(text::decimal(n) + none =~= text::decimal(n));
    assert(text::ascii_lower(none) =~= none);
    lemma_size(n, none, 1);
    assert(n * 1 == n);
    assert(text::ascii_lower("b"@) =~= "b"@);
    lemma_size(n, "b"@, 1);
    assert(text::ascii_lower("k"@) =~= "k"@);
    lemma_size(n, "k"@, 1024);
    assert(text::ascii_lower("kb"@) =~= "kb"@);
    lemma_size(n, "kb"@, 1024);
    assert(text::ascii_lower("kib"@) =~= "kib"@);
    lemma_size(n, "kib"@, 1024);
    assert(text::ascii_lower("m"@) =~= "m"@);
    lemma_size(n, "m"@, 1048576);
    assert(text::ascii_lower("mb"@) =~= "mb"@);
    lemma_size(n, "mb"@, 1048576);
    assert(text::ascii_lower("mib"@) =~= "mib"@);
    lemma_size(n, "mib"@, 1048576);
    assert(text::ascii_lower("g"@) =~= "g"@);
    lemma_size(n, "g"@, 1073741824);
    assert(text::ascii_lower("gb"@) =~= "gb"@);
    lemma_size(n, "gb"@, 1073741824);
    assert(text::ascii_lower("gib"@) =~= "gib"@);
    lemma_size(n, "gib"@, 1073741824);
    assert(text::ascii_lower("t"@) =~= "t"@);
    lemma_size(n, "t"@, 1099511627776);
    assert(text::ascii_lower("tb"@) =~= "tb"@);
    lemma_size(n, "tb"@, 1099511627776);
    assert(text::ascii_lower("tib"@) =~= "tib"@);
    lemma_size(n, "tib"@, 1099511627776);
}

} // verus!
