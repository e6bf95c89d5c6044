//! What a catalogue record is, and the small vocabulary around it.

use vstd::prelude::*;
use vstd::string::*;

use crate::text;
use crate::text::{
    chars_of, copy_opt, cut_out, dec, dec_padded, digit, hex, parse_u64, same, string_of,
    to_ascii_lower, trim,
};

verus! {

// ---------------------------------------------------------------------------
// Columns and collections
// ---------------------------------------------------------------------------

/// A catalogue column a query can be restricted to.
#[derive(Debug, Clone, Copy, PartialEq, Eq, Structural)]
pub enum Field {
    Author,
    Title,
    Isbn,
    Publisher,
    Series,
    Year,
}

/// A collection the catalogue is divided into.
#[derive(Debug, Clone, Copy, PartialEq, Eq, Structural)]
pub enum Topic {
    Libgen,
    Fiction,
    Comics,
    Magazines,
    Standards,
    Russian,
}

/// Every collection, as the error messages list them.
pub const ALL_TOPICS: &'static str = "libgen, fiction, comics, magazines, standards, russian";

/// The collection a name stands for, whatever the case of its letters.
pub open spec fn topic_named(name: Seq<char>) -> Option<Topic> {
    let n = text::ascii_lower(text::trimmed(name));
    if n == "libgen"@ {
        Some(Topic::Libgen)
    } else if n == "fiction"@ {
        Some(Topic::Fiction)
    } else if n == "comics"@ {
        Some(Topic::Comics)
    } else if n == "magazines"@ {
        Some(Topic::Magazines)
    } else if n == "standards"@ {
        Some(Topic::Standards)
    } else if n == "russian"@ {
        Some(Topic::Russian)
    } else {
        None
    }
}

impl Topic {
    pub fn parse(name: &str) -> (r: Option<Topic>)
        ensures
            r == topic_named(name@),
    {
        let n = to_ascii_lower(&trim(name));
        if same(&n, "libgen") {
            Some(Topic::Libgen)
        } else if same(&n, "fiction") {
            Some(Topic::Fiction)
        } else if same(&n, "comics") {
            Some(Topic::Comics)
        } else if same(&n, "magazines") {
            Some(Topic::Magazines)
        } else if same(&n, "standards") {
            Some(Topic::Standards)
        } else if same(&n, "russian") {
            Some(Topic::Russian)
        } else {
            None
        }
    }
}

/// The topics a list of names stands for, as far as all of them are known.
pub open spec fn topics_named(names: Seq<Seq<char>>) -> Option<Seq<Topic>>
    decreases names.len(),
{
    if names.len() == 0 {
        Some(seq![])
    } else {
        match (topics_named(names.drop_last()), topic_named(names.last())) {
            (Some(ts), Some(t)) => Some(ts.push(t)),
            _ => None,
        }
    }
}

/// The first name on a list that is no topic.
pub open spec fn first_unknown_topic(names: Seq<Seq<char>>) -> Option<Seq<char>>
    decreases names.len(),
{
    if names.len() == 0 {
        None
    } else {
        match first_unknown_topic(names.drop_last()) {
            Some(n) => Some(n),
            None => if topic_named(names.last()) is None {
                Some(names.last())
            } else {
                None
            },
        }
    }
}

/// Read a list of topic names; the error is the first name that is none.
pub fn parse_topics(names: &Vec<String>) -> (r: Result<Vec<Topic>, String>)
    ensures
        match r {
            Ok(ts) => topics_named(text::texts(names@)) == Some(ts@)
                && first_unknown_topic(text::texts(names@)) is None,
            Err(n) => first_unknown_topic(text::texts(names@)) == Some(n@)
                && topics_named(text::texts(names@)) is None,
        },
{
    let ghost all = text::texts(names@);
    let mut out: Vec<Topic> = Vec::new();
    let mut i: usize = 0;
    assert(all.take(0) =~= seq![]);
    while i < names.len()
        invariant
            i <= names@.len(),
            all == text::texts(names@),
            topics_named(all.take(i as int)) == Some(out@),
            first_unknown_topic(all.take(i as int)) is None,
        decreases names@.len() - i,
    {
        proof {
            assert(all.take(i + 1).drop_last() =~= all.take(i as int));
            assert(all.take(i + 1).last() == names@[i as int]@);
        }
        match Topic::parse(&names[i]) {
            Some(t) => {
                out.push(t);
            },
            None => {
                proof {
                    lemma_unknown_stays(all, i + 1);
                }
                return Err(names[i].clone());
            },
        }
        i += 1;
    }
    assert(all.take(all.len() as int) =~= all);
    Ok(out)
}

proof fn lemma_unknown_stays(names: Seq<Seq<char>>, k: int)
    requires
        0 <= k <= names.len(),
        first_unknown_topic(names.take(k)) is Some,
        topics_named(names.take(k)) is None,
    ensures
        first_unknown_topic(names) == first_unknown_topic(names.take(k)),
        topics_named(names) is None,
    decreases names.len() - k,
{
    if k < names.len() {
        assert(names.take(k + 1).drop_last() =~= names.take(k));
        lemma_unknown_stays(names, k + 1);
    } else {
        assert(names.take(k) =~= names);
    }
}

// ---------------------------------------------------------------------------
// Checksums and sizes
// ---------------------------------------------------------------------------

/// Thirty-two hexadecimal digits.
pub open spec fn md5_shaped(s: Seq<char>) -> bool {
    s.len() == 32 && forall|i: int| 0 <= i < 32 ==> text::is_hex(#[trigger] s[i])
}

pub fn is_md5(s: &str) -> (r: bool)
    ensures
        r == md5_shaped(s@),
{
    let v = chars_of(s);
    if v.len() != 32 {
        return false;
    }
    let mut i: usize = 0;
    while i < 32
        invariant
            i <= 32,
            v@.len() == 32,
            v@ == s@,
            forall|k: int| 0 <= k < i ==> text::is_hex(#[trigger] v@[k]),
        decreases 32 - i,
    {
        if !hex(v[i]) {
            assert(!text::is_hex(s@[i as int]));
            return false;
        }
        i += 1;
    }
    true
}

/// How many bytes a unit stands for. Units count in powers of 1024.
pub open spec fn unit_bytes(unit: Seq<char>) -> Option<nat> {
    let u = text::ascii_lower(unit);
    if u.len() == 0 || u == "b"@ {
        Some(1)
    } else if u == "k"@ || u == "kb"@ || u == "kib"@ {
        Some(1024)
    } else if u == "m"@ || u == "mb"@ || u == "mib"@ {
        Some(1048576)
    } else if u == "g"@ || u == "gb"@ || u == "gib"@ {
        Some(1073741824)
    } else if u == "t"@ || u == "tb"@ || u == "tib"@ {
        Some(1099511627776)
    } else {
        None
    }
}

fn unit_size(unit: &str) -> (r: Option<u64>)
    ensures
        unit_bytes(unit@) == (match r {
            Some(n) => Some(n as nat),
            None => None,
        }),
        r is Some ==> r->0 > 0,
{
    let u = to_ascii_lower(unit);
    if u.as_str().is_empty() || same(&u, "b") {
        Some(1)
    } else if same(&u, "k") || same(&u, "kb") || same(&u, "kib") {
        Some(1024)
    } else if same(&u, "m") || same(&u, "mb") || same(&u, "mib") {
        Some(1048576)
    } else if same(&u, "g") || same(&u, "gb") || same(&u, "gib") {
        Some(1073741824)
    } else if same(&u, "t") || same(&u, "tb") || same(&u, "tib") {
        Some(1099511627776)
    } else {
        None
    }
}

/// Where the digits that open a text end.
pub open spec fn digits_end(s: Seq<char>, from: int) -> int
    decreases s.len() - from,
{
    if 0 <= from < s.len() && text::is_digit(s[from]) {
        digits_end(s, from + 1)
    } else {
        from
    }
}

/// The number of bytes a size such as `500 MB` stands for: a whole number,
/// then a unit, with white space allowed around both.
pub open spec fn size_of_text(s: Seq<char>) -> Option<nat> {
    let t = text::trimmed(s);
    let e = digits_end(t, 0);
    let unit = text::trimmed(t.subrange(e, t.len() as int));
    match (text::number(t.subrange(0, e)), unit_bytes(unit)) {
        (Some(n), Some(u)) => Some(n * u),
        _ => None,
    }
}

/// Read a size. What does not fit in sixty-four bits is no size.
pub fn parse_size(s: &str) -> (r: Option<u64>)
    ensures
        r is Some <==> size_of_text(s@) is Some && size_of_text(s@)->0 <= u64::MAX,
        r is Some ==> r->0 == size_of_text(s@)->0,
{
    let t = chars_of(&trim(s));
    let mut e: usize = 0;
    while e < t.len() && digit(t[e])
        invariant
            e <= t@.len(),
            digits_end(t@, 0) == digits_end(t@, e as int),
        decreases t@.len() - e,
    {
        e += 1;
    }
    let amount = string_of(cut_out(&t, 0, e));
    let unit = trim(&string_of(cut_out(&t, e, t.len())));
    let size = unit_size(&unit);
    match (parse_u64(&amount, u64::MAX), size) {
        (Some(n), Some(u)) => {
            match n.checked_mul(u) {
                Some(total) => Some(total),
                None => None,
            }
        },
        (None, Some(u)) => {
            proof {
                if text::number(amount@) is Some {
                    let n = text::number(amount@)->0;
                    assert(n * u >= n) by (nonlinear_arith)
                        requires
                            u >= 1,
                            n >= 0,
                    ;
                }
            }
            None
        },
        _ => None,
    }
}

/// The unit a byte count is shown in.
pub open spec fn shown_unit(n: nat) -> (nat, Seq<char>) {
    if n < 1048576 {
        (1024, " KB"@)
    } else if n < 1073741824 {
        (1048576, " MB"@)
    } else if n < 1099511627776 {
        (1073741824, " GB"@)
    } else {
        (1099511627776, " TB"@)
    }
}

/// A byte count for people: three figures and a unit. Up to ten of a unit
/// shows hundredths, up to a hundred tenths, and beyond that whole units, each
/// rounded to the nearest.
pub open spec fn bytes_text(n: nat) -> Seq<char> {
    if n < 1024 {
        text::decimal(n) + " B"@
    } else {
        let (u, name) = shown_unit(n);
        if n < 10 * u {
            let h = (n * 100 + u / 2) / u;
            text::decimal(h / 100) + "."@ + text::zero_padded(h % 100, 2) + name
        } else if n < 100 * u {
            let h = (n * 10 + u / 2) / u;
            text::decimal(h / 10) + "."@ + text::decimal(h % 10) + name
        } else {
            text::decimal((n + u / 2) / u) + name
        }
    }
}

pub fn human_bytes(n: u64) -> (r: String)
    ensures
        r@ == bytes_text(n as nat),
{
    if n < 1024 {
        let mut out = dec(n);
        out.append(" B");
        return out;
    }
    let (u, name): (u64, &str) = if n < 1048576 {
        (1024, " KB")
    } else if n < 1073741824 {
        (1048576, " MB")
    } else if n < 1099511627776 {
        (1073741824, " GB")
    } else {
        (1099511627776, " TB")
    };
    if n < 10 * u {
        let h: u64 = (n * 100 + u / 2) / u;
        let mut out = dec(h / 100);
        out.append(".");
        out.append(&dec_padded(h % 100, 2));
        out.append(name);
        out
    } else if n < 100 * u {
        let h: u64 = (n * 10 + u / 2) / u;
        let mut out = dec(h / 10);
        out.append(".");
        out.append(&dec(h % 10));
        out.append(name);
        out
    } else {
        let whole: u64 = n / u;
        let part: u64 = n % u;
        let shown: u64 = if part >= u - u / 2 {
            whole + 1
        } else {
            whole
        };
        proof {
            lemma_round(n as int, u as int);
        }
        let mut out = dec(shown);
        out.append(name);
        out
    }
}

proof fn lemma_round(n: int, u: int)
    requires
        n >= 0,
        u >= 2,
        u % 2 == 0,
    ensures
        (n + u / 2) / u == n / u + (if n % u >= u - u / 2 {
            1int
        } else {
            0int
        }),
        n / u <= n / 2,
{
    let q = n / u;
    let r = n % u;
    assert(n == u * q + r && 0 <= r < u) by (nonlinear_arith)
        requires
            q == n / u,
            r == n % u,
            u >= 2,
    ;
    let add = if r >= u - u / 2 {
        1int
    } else {
        0int
    };
    assert((n + u / 2) / u == q + add) by (nonlinear_arith)
        requires
            n == u * q + r,
            0 <= r < u,
            u >= 2,
            add == (if r >= u - u / 2 { 1int } else { 0int }),
    ;
    assert(q <= n / 2) by (nonlinear_arith)
        requires
            n == u * q + r,
            0 <= r,
            u >= 2,
            n >= 0,
            q == n / u,
    ;
}

// ---------------------------------------------------------------------------
// Records
// ---------------------------------------------------------------------------

/// One record of the catalogue.
#[derive(Debug, PartialEq, Eq)]
pub struct Book {
    pub md5: String,
    pub title: String,
    pub authors: Option<String>,
    pub publisher: Option<String>,
    pub year: Option<String>,
    pub language: Option<String>,
    pub pages: Option<String>,
    pub extension: Option<String>,
    pub size_bytes: Option<u64>,
    pub file_id: Option<String>,
}

/// The text of an optional string, empty where there is none.
pub open spec fn or_empty(s: Option<String>) -> Seq<char> {
    match s {
        Some(x) => x@,
        None => seq![],
    }
}

pub fn or_blank(s: &Option<String>) -> (r: &str)
    ensures
        r@ == or_empty(*s),
{
    match s {
        Some(x) => x.as_str(),
        None => {
            proof {
                reveal_strlit("");
                assert(""@ =~= seq![]);
            }
            ""
        },
    }
}

impl Clone for Book {
    fn clone(&self) -> (r: Self)
        ensures
            r == *self,
    {
        Book {
            md5: self.md5.clone(),
            title: self.title.clone(),
            authors: copy_opt(&self.authors),
            publisher: copy_opt(&self.publisher),
            year: copy_opt(&self.year),
            language: copy_opt(&self.language),
            pages: copy_opt(&self.pages),
            extension: copy_opt(&self.extension),
            size_bytes: self.size_bytes,
            file_id: copy_opt(&self.file_id),
        }
    }
}

impl Default for Book {
    /// A record of which nothing is known.
    fn default() -> (r: Self)
        ensures
            r.md5@.len() == 0,
            r.title@.len() == 0,
            r.authors is None,
            r.publisher is None,
            r.year is None,
            r.language is None,
            r.pages is None,
            r.extension is None,
            r.size_bytes is None,
            r.file_id is None,
    {
        Book {
            md5: String::new(),
            title: String::new(),
            authors: None,
            publisher: None,
            year: None,
            language: None,
            pages: None,
            extension: None,
            size_bytes: None,
            file_id: None,
        }
    }
}

impl Book {
    /// The file format, or nothing when the record does not say.
    pub open spec fn ext_text(self) -> Seq<char> {
        or_empty(self.extension)
    }

    pub fn ext(&self) -> (r: &str)
        ensures
            r@ == self.ext_text(),
    {
        or_blank(&self.extension)
    }

    /// The size for people, or nothing when the record does not say.
    pub open spec fn size_text(self) -> Seq<char> {
        match self.size_bytes {
            Some(n) => bytes_text(n as nat),
            None => seq![],
        }
    }

    pub fn size_human(&self) -> (r: String)
        ensures
            r@ == self.size_text(),
    {
        match self.size_bytes {
            Some(n) => human_bytes(n),
            None => String::new(),
        }
    }

    /// The authors as recorded; a blank or missing record says so.
    pub open spec fn authors_text(self) -> Seq<char> {
        match self.authors {
            Some(a) => if text::trimmed(a@).len() == 0 {
                "Unknown"@
            } else {
                a@
            },
            None => "Unknown"@,
        }
    }

    pub fn authors_or_unknown(&self) -> (r: &str)
        ensures
            r@ == self.authors_text(),
    {
        match &self.authors {
            Some(a) => {
                if trim(a).as_str().is_empty() {
                    "Unknown"
                } else {
                    a.as_str()
                }
            },
            None => "Unknown",
        }
    }

    /// The first of several authors, which is all a narrow column can show.
    pub open spec fn first_author_text(self) -> Seq<char> {
        text::trimmed(text::pieces(self.authors_text(), ';', 0)[0])
    }

    pub fn first_author(&self) -> (r: String)
        ensures
            r@ == self.first_author_text(),
    {
        first_of(self.authors_or_unknown())
    }
}

/// What stands before the first semicolon, trimmed.
pub fn first_of(all: &str) -> (r: String)
    ensures
        r@ == text::trimmed(text::pieces(all@, ';', 0)[0]),
{
    let parts = text::split(all, ';');
    proof {
        text::lemma_pieces_nonempty(all@, ';', 0);
        assert(text::texts(parts@)[0] == parts@[0]@);
        assert(text::texts(parts@).len() == parts@.len());
    }
    trim(&parts[0])
}

/// What a search asks the catalogue for.
#[derive(Debug, PartialEq, Eq)]
pub struct SearchQuery {
    pub terms: String,
    pub fields: Vec<Field>,
    pub topics: Vec<Topic>,
    pub limit: usize,
    pub extension: Option<String>,
    pub language: Option<String>,
}

/// How many results a search asks for unless told otherwise.
pub const DEFAULT_LIMIT: usize = 25;

impl SearchQuery {
    /// A search for some terms in the two main collections, unrestricted.
    pub fn new(terms: String) -> (r: Self)
        ensures
            r.terms == terms,
            r.fields@.len() == 0,
            r.topics@ == seq![Topic::Libgen, Topic::Fiction],
            r.limit == DEFAULT_LIMIT,
            r.extension is None,
            r.language is None,
    {
        let mut topics: Vec<Topic> = Vec::new();
        topics.push(Topic::Libgen);
        topics.push(Topic::Fiction);
        assert(topics@ =~= seq![Topic::Libgen, Topic::Fiction]);
        SearchQuery {
            terms,
            fields: Vec::new(),
            topics,
            limit: DEFAULT_LIMIT,
            extension: None,
            language: None,
        }
    }
}

} // verus!
