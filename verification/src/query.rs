//! Tags in the search box: `author:herbert title:dune ext:epub`.
//!
//! A word is read as a tag only when what stands before its first colon is one
//! of the known keys; anything else is left exactly as typed, so a title with a
//! colon in it is still searched for as a title. Quotes keep spaces together.

use vstd::prelude::*;
use vstd::string::*;

use crate::model;
use crate::model::{Field, SearchQuery, Topic};
use crate::text;
use crate::text::{
    chars_of, cut_out, join, same, split_once, string_of, to_ascii_lower, trim, trim_matches,
    trim_start_matches, white,
};

verus! {

// ---------------------------------------------------------------------------
// Words
// ---------------------------------------------------------------------------

/// Where the word that begins at or before `i` ends: at the first white space
/// outside quotes.
pub open spec fn word_end(s: Seq<char>, i: int, quoted: bool) -> int
    decreases s.len() - i,
{
    if i >= s.len() {
        s.len() as int
    } else if s[i] == '"' {
        word_end(s, i + 1, !quoted)
    } else if !quoted && text::is_white(s[i]) {
        i
    } else {
        word_end(s, i + 1, quoted)
    }
}

proof fn lemma_word_end(s: Seq<char>, i: int, quoted: bool)
    requires
        0 <= i <= s.len(),
    ensures
        i <= word_end(s, i, quoted) <= s.len(),
    decreases s.len() - i,
{
    if i < s.len() {
        if s[i] == '"' {
            lemma_word_end(s, i + 1, !quoted);
        } else if quoted || !text::is_white(s[i]) {
            lemma_word_end(s, i + 1, quoted);
        }
    }
}

/// The words of a query from position `i` on.
pub open spec fn words_from(s: Seq<char>, i: int) -> Seq<Seq<char>>
    decreases s.len() - i,
    when 0 <= i <= s.len()
    via words_terminate
{
    if i >= s.len() {
        seq![]
    } else if text::is_white(s[i]) {
        words_from(s, i + 1)
    } else {
        let e = word_end(s, i, false);
        seq![s.subrange(i, e)] + words_from(s, e)
    }
}

#[via_fn]
proof fn words_terminate(s: Seq<char>, i: int) {
    if i < s.len() && !text::is_white(s[i]) {
        if s[i] == '"' {
            lemma_word_end(s, i + 1, true);
        } else {
            lemma_word_end(s, i + 1, false);
        }
    }
}

fn end_of_word(v: &Vec<char>, from: usize) -> (r: usize)
    requires
        from < v@.len(),
        !text::is_white(v@[from as int]),
    ensures
        r == word_end(v@, from as int, false),
        from < r <= v@.len(),
{
    let mut i: usize = from;
    let mut quoted = false;
    while i < v.len()
        invariant
            from <= i <= v@.len(),
            word_end(v@, from as int, false) == word_end(v@, i as int, quoted),
            i == from ==> !quoted,
            from < v@.len(),
            !text::is_white(v@[from as int]),
        decreases v@.len() - i,
    {
        let c = v[i];
        if c == '"' {
            quoted = !quoted;
        } else if !quoted && white(c) {
            return i;
        }
        i += 1;
    }
    i
}

fn words(s: &str) -> (r: Vec<String>)
    ensures
        text::texts(r@) == words_from(s@, 0),
{
    let v = chars_of(s);
    let mut out: Vec<String> = Vec::new();
    let mut i: usize = 0;
    assert(text::texts(out@) + words_from(v@, 0) =~= words_from(v@, 0));
    while i < v.len()
        invariant
            i <= v@.len(),
            v@ == s@,
            text::texts(out@) + words_from(v@, i as int) == words_from(v@, 0),
        decreases v@.len() - i,
    {
        if white(v[i]) {
            i += 1;
            continue;
        }
        let e = end_of_word(&v, i);
        let ghost before = text::texts(out@);
        out.push(string_of(cut_out(&v, i, e)));
        assert(text::texts(out@) =~= before.push(v@.subrange(i as int, e as int)));
        assert(text::texts(out@) + words_from(v@, e as int) =~= before + words_from(
            v@,
            i as int,
        ));
        i = e;
    }
    assert(text::texts(out@) + words_from(v@, i as int) =~= text::texts(out@));
    out
}

// ---------------------------------------------------------------------------
// Tags
// ---------------------------------------------------------------------------

/// What a word of a query asks for.
#[derive(Debug, Clone, Copy, PartialEq, Eq, Structural)]
pub enum Tag {
    /// A search term like any other.
    Plain,
    /// A search term that also restricts the search to a column.
    Column(Field),
    /// Only this file format.
    Format,
    /// Only this language.
    Language,
    /// This collection.
    Collection(Topic),
}

/// The column a key stands for.
pub open spec fn column_of(key: Seq<char>) -> Option<Field> {
    if key == "author"@ {
        Some(Field::Author)
    } else if key == "title"@ {
        Some(Field::Title)
    } else if key == "series"@ {
        Some(Field::Series)
    } else if key == "publisher"@ {
        Some(Field::Publisher)
    } else if key == "year"@ {
        Some(Field::Year)
    } else if key == "isbn"@ {
        Some(Field::Isbn)
    } else {
        None
    }
}

fn column(key: &str) -> (r: Option<Field>)
    ensures
        r == column_of(key@),
{
    if same(key, "author") {
        Some(Field::Author)
    } else if same(key, "title") {
        Some(Field::Title)
    } else if same(key, "series") {
        Some(Field::Series)
    } else if same(key, "publisher") {
        Some(Field::Publisher)
    } else if same(key, "year") {
        Some(Field::Year)
    } else if same(key, "isbn") {
        Some(Field::Isbn)
    } else {
        None
    }
}

/// What one word asks for, and the text it carries.
pub open spec fn reading_of(word: Seq<char>) -> (Tag, Seq<char>) {
    match text::cut(word, ':') {
        None => (Tag::Plain, word),
        Some((k, v)) => {
            let key = text::ascii_lower(k);
            let value = text::stripped_of(v, '"');
            if text::trimmed(value).len() == 0 {
                (Tag::Plain, word)
            } else if column_of(key) is Some {
                (Tag::Column(column_of(key)->0), value)
            } else if key == "ext"@ {
                (Tag::Format, text::ascii_lower(text::stripped_start(value, '.')))
            } else if key == "lang"@ {
                (Tag::Language, value)
            } else if key == "topic"@ && model::topic_named(value) is Some {
                (Tag::Collection(model::topic_named(value)->0), value)
            } else {
                (Tag::Plain, word)
            }
        },
    }
}

fn read_word(word: &str) -> (r: (Tag, String))
    ensures
        (r.0, r.1@) == reading_of(word@),
{
    match split_once(word, ':') {
        None => (Tag::Plain, word.to_owned()),
        Some((k, v)) => {
            let key = to_ascii_lower(&k);
            let value = trim_matches(&v, '"');
            if trim(&value).as_str().is_empty() {
                return (Tag::Plain, word.to_owned());
            }
            if let Some(f) = column(&key) {
                return (Tag::Column(f), value);
            }
            if same(&key, "ext") {
                return (Tag::Format, to_ascii_lower(&trim_start_matches(&value, '.')));
            }
            if same(&key, "lang") {
                return (Tag::Language, value);
            }
            if same(&key, "topic") {
                if let Some(t) = Topic::parse(&value) {
                    return (Tag::Collection(t), value);
                }
            }
            (Tag::Plain, word.to_owned())
        },
    }
}

/// A query taken apart.
pub struct Reading {
    pub words: Seq<Seq<char>>,
    pub fields: Seq<Field>,
    pub topics: Seq<Topic>,
    pub extension: Option<Seq<char>>,
    pub language: Option<Seq<char>>,
}

/// What a list of words asks for, read from left to right. The last `ext:` and
/// the last `lang:` win.
pub open spec fn read_all(ws: Seq<Seq<char>>) -> Reading
    decreases ws.len(),
{
    if ws.len() == 0 {
        Reading {
            words: seq![],
            fields: seq![],
            topics: seq![],
            extension: None,
            language: None,
        }
    } else {
        let r = read_all(ws.drop_last());
        let (tag, value) = reading_of(ws.last());
        match tag {
            Tag::Plain => Reading { words: r.words.push(value), ..r },
            Tag::Column(f) => Reading { words: r.words.push(value), fields: r.fields.push(f), ..r },
            Tag::Format => Reading { extension: Some(value), ..r },
            Tag::Language => Reading { language: Some(value), ..r },
            Tag::Collection(t) => Reading { topics: r.topics.push(t), ..r },
        }
    }
}

/// What a query text asks for.
pub open spec fn read_query(s: Seq<char>) -> Reading {
    read_all(words_from(s, 0))
}

/// Whether a query carries any tag.
pub open spec fn tagged(r: Reading) -> bool {
    r.fields.len() > 0 || r.topics.len() > 0 || r.extension is Some || r.language is Some
}

/// A query taken apart, for the caller to merge with what it knows.
#[derive(Debug, PartialEq, Eq)]
pub struct Parsed {
    pub words: Vec<String>,
    pub fields: Vec<Field>,
    pub topics: Vec<Topic>,
    pub extension: Option<String>,
    pub language: Option<String>,
}

impl Parsed {
    pub open spec fn reading(self) -> Reading {
        Reading {
            words: text::texts(self.words@),
            fields: self.fields@,
            topics: self.topics@,
            extension: self.extension.deep_view(),
            language: self.language.deep_view(),
        }
    }

    /// Whether any tag was used.
    pub fn is_tagged(&self) -> (r: bool)
        ensures
            r == tagged(self.reading()),
    {
        self.fields.len() > 0 || self.topics.len() > 0 || self.extension.is_some()
            || self.language.is_some()
    }
}

/// Take a query apart.
pub fn parse(s: &str) -> (r: Parsed)
    ensures
        r.reading() == read_query(s@),
{
    let ws = words(s);
    let ghost all = text::texts(ws@);
    let mut out = Parsed {
        words: Vec::new(),
        fields: Vec::new(),
        topics: Vec::new(),
        extension: None,
        language: None,
    };
    let mut i: usize = 0;
    assert(all.take(0) =~= seq![]);
    assert(text::texts(out.words@) =~= seq![]);
    assert(out.fields@ =~= seq![]);
    assert(out.topics@ =~= seq![]);
    while i < ws.len()
        invariant
            i <= ws@.len(),
            all == text::texts(ws@),
            out.reading() == read_all(all.take(i as int)),
        decreases ws@.len() - i,
    {
        let (tag, value) = read_word(&ws[i]);
        proof {
            assert(all.take(i + 1).drop_last() =~= all.take(i as int));
            assert(all.take(i + 1).last() == ws@[i as int]@);
        }
        let ghost before = text::texts(out.words@);
        let ghost said = value@;
        match tag {
            Tag::Plain => {
                out.words.push(value);
                assert(text::texts(out.words@) =~= before.push(said));
            },
            Tag::Column(f) => {
                out.words.push(value);
                out.fields.push(f);
                assert(text::texts(out.words@) =~= before.push(said));
            },
            Tag::Format => {
                out.extension = Some(value);
            },
            Tag::Language => {
                out.language = Some(value);
            },
            Tag::Collection(t) => {
                out.topics.push(t);
            },
        }
        i += 1;
    }
    assert(all.take(all.len() as int) =~= all);
    out
}

/// Fill a search from a query text. The words become the terms; columns are
/// added; a collection replaces the ones preset; a format or language named in
/// the text counts only where the search does not carry one already.
pub fn apply(s: &str, query: &mut SearchQuery)
    ensures
        ({
            let r = read_query(s@);
            &&& final(query).terms@ == text::joined(r.words, " "@)
            &&& final(query).fields@ == old(query).fields@ + r.fields
            &&& final(query).topics@ == (if r.topics.len() > 0 {
                r.topics
            } else {
                old(query).topics@
            })
            &&& final(query).limit == old(query).limit
            &&& final(query).extension.deep_view() == (if old(query).extension is Some {
                old(query).extension.deep_view()
            } else {
                r.extension
            })
            &&& final(query).language.deep_view() == (if old(query).language is Some {
                old(query).language.deep_view()
            } else {
                r.language
            })
        }),
{
    let parsed = parse(s);
    query.terms = join(&parsed.words, " ");
    let mut fields = parsed.fields;
    query.fields.append(&mut fields);
    if parsed.topics.len() > 0 {
        query.topics = parsed.topics;
    }
    if query.extension.is_none() {
        query.extension = parsed.extension;
    }
    if query.language.is_none() {
        query.language = parsed.language;
    }
}

/// The tags a query can carry, with a word on each, for the help screen.
pub fn tags() -> (r: Vec<(&'static str, &'static str)>)
    ensures
        r@ == seq![
            ("author:", "only in the author column"),
            ("title:", "only in the title column"),
            ("series:", "only in the series column"),
            ("publisher:", "only in the publisher column"),
            ("year:", "only in the year column"),
            ("isbn:", "only in the ISBN column"),
            ("ext:", "only this format, e.g. ext:epub"),
            ("lang:", "only this language"),
            ("topic:", "which collection to search"),
        ],
{
    vec![
        ("author:", "only in the author column"),
        ("title:", "only in the title column"),
        ("series:", "only in the series column"),
        ("publisher:", "only in the publisher column"),
        ("year:", "only in the year column"),
        ("isbn:", "only in the ISBN column"),
        ("ext:", "only this format, e.g. ext:epub"),
        ("lang:", "only this language"),
        ("topic:", "which collection to search"),
    ]
}

} // verus!
