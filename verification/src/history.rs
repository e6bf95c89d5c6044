//! A record of what has been downloaded, and where it landed.
//!
//! The record is a tab-separated table. Entries are keyed by *path*, not by
//! MD5, so re-downloading a file updates its entry rather than adding a second
//! one: the list reads as "what is in my library", not as an audit log. And
//! reading is deliberately forgiving: a line that cannot be read is skipped,
//! never fatal, because a corrupt history is not a reason to refuse to download
//! a book.
//!
//! Everything here works on the text of the table; the caller reads it from
//! disk, holds the lock, and writes back what it is given.

use vstd::prelude::*;
use vstd::string::*;

use crate::error::Error;
use crate::model;
use crate::model::{first_of, is_md5, or_blank, Book};
use crate::path;
use crate::term;
use crate::text;
use crate::text::{
    chars_of, contains, copy_opt, dec, dec_padded, lines, parse_u64, parse_usize, same,
    same_ignoring_case, split, string_of, to_ascii_lower, to_lower, trim,
};

verus! {

/// How many downloads to remember. Old entries fall off the top.
pub const MAX_ENTRIES: usize = 1000;

/// What became of a download.
#[derive(Debug)]
pub struct Outcome {
    pub path: String,
    /// How many bytes were transferred.
    pub bytes: u64,
    /// Whether the file matched the catalogue's MD5.
    pub verified: bool,
    /// Whether the file was already there and nothing was transferred.
    pub skipped: bool,
}

#[derive(Debug, PartialEq, Eq)]
pub struct Entry {
    /// Unix seconds. Zero when the clock was unreadable.
    pub at: u64,
    pub md5: String,
    pub path: String,
    pub size: u64,
    /// Whether the download matched the catalogue's MD5.
    pub verified: bool,
    pub title: String,
    pub authors: Option<String>,
    pub extension: Option<String>,
}

/// An entry, by value.
pub struct EntryView {
    pub at: u64,
    pub md5: Seq<char>,
    pub path: Seq<char>,
    pub size: u64,
    pub verified: bool,
    pub title: Seq<char>,
    pub authors: Option<Seq<char>>,
    pub extension: Option<Seq<char>>,
}

impl View for Entry {
    type V = EntryView;

    open spec fn view(&self) -> EntryView {
        EntryView {
            at: self.at,
            md5: self.md5@,
            path: self.path@,
            size: self.size,
            verified: self.verified,
            title: self.title@,
            authors: self.authors.deep_view(),
            extension: self.extension.deep_view(),
        }
    }
}

/// A list of entries, by value.
pub open spec fn views(es: Seq<Entry>) -> Seq<EntryView> {
    Seq::new(es.len(), |i: int| es[i]@)
}

impl Clone for Entry {
    fn clone(&self) -> (r: Self)
        ensures
            r == *self,
    {
        Entry {
            at: self.at,
            md5: self.md5.clone(),
            path: self.path.clone(),
            size: self.size,
            verified: self.verified,
            title: self.title.clone(),
            authors: copy_opt(&self.authors),
            extension: copy_opt(&self.extension),
        }
    }
}

/// Which paths hold a file right now, as far as the caller has looked.
#[derive(Debug)]
pub struct Disk {
    pub files: Vec<String>,
}

impl Disk {
    pub open spec fn holds(self, p: Seq<char>) -> bool {
        text::texts(self.files@).contains(p)
    }

    pub fn has(&self, p: &str) -> (r: bool)
        ensures
            r == self.holds(p@),
    {
        let mut i: usize = 0;
        while i < self.files.len()
            invariant
                i <= self.files@.len(),
                forall|k: int| 0 <= k < i ==> self.files@[k]@ != p@,
            decreases self.files@.len() - i,
        {
            if same(&self.files[i], p) {
                assert(text::texts(self.files@)[i as int] == p@);
                return true;
            }
            i += 1;
        }
        assert forall|k: int| 0 <= k < text::texts(self.files@).len() implies text::texts(
            self.files@,
        )[k] != p@ by {
            assert(self.files@[k]@ != p@);
        }
        false
    }
}

/// Seconds since the epoch, or zero if the clock is unusable.
pub fn now(clock: Option<u64>) -> (r: u64)
    ensures
        r == (match clock {
            Some(t) => t,
            None => 0,
        }),
{
    match clock {
        Some(t) => t,
        None => 0,
    }
}

// ---------------------------------------------------------------------------
// Escaping
// ---------------------------------------------------------------------------

/// One character made safe to store between tabs.
pub open spec fn escaped_char(c: char) -> Seq<char> {
    if c == '\\' {
        seq!['\\', '\\']
    } else if c == '\t' {
        seq!['\\', 't']
    } else if c == '\n' {
        seq!['\\', 'n']
    } else if c == '\r' {
        seq!['\\', 'r']
    } else {
        seq![c]
    }
}

/// A field made safe to store between tabs.
pub open spec fn escaped(s: Seq<char>) -> Seq<char>
    decreases s.len(),
{
    if s.len() == 0 {
        seq![]
    } else {
        escaped_char(s[0]) + escaped(s.skip(1))
    }
}

/// What the character after a backslash stands for. One that is not recognised
/// keeps the backslash, so nothing is silently eaten.
pub open spec fn unescaped_char(c: char) -> Seq<char> {
    if c == 't' {
        seq!['\t']
    } else if c == 'n' {
        seq!['\n']
    } else if c == 'r' {
        seq!['\r']
    } else if c == '\\' {
        seq!['\\']
    } else {
        seq!['\\', c]
    }
}

/// A stored field as it was before it was made safe.
pub open spec fn unescaped(s: Seq<char>) -> Seq<char>
    decreases s.len(),
{
    if s.len() == 0 {
        seq![]
    } else if s[0] != '\\' {
        seq![s[0]] + unescaped(s.skip(1))
    } else if s.len() == 1 {
        seq!['\\']
    } else {
        unescaped_char(s[1]) + unescaped(s.skip(2))
    }
}

pub fn escape(field: &str) -> (r: String)
    ensures
        r@ == escaped(field@),
{
    let v = chars_of(field);
    let mut out: Vec<char> = Vec::new();
    let mut i: usize = 0;
    assert(v@.skip(0) =~= v@);
    assert(out@ + escaped(v@.skip(0)) =~= escaped(v@));
    while i < v.len()
        invariant
            i <= v@.len(),
            v@ == field@,
            out@ + escaped(v@.skip(i as int)) == escaped(v@),
        decreases v@.len() - i,
    {
        let c = v[i];
        let ghost before = out@;
        let ghost rest = v@.skip(i as int);
        assert(rest.skip(1) =~= v@.skip(i + 1));
        assert(rest[0] == c);
        if c == '\\' {
            out.push('\\');
            out.push('\\');
        } else if c == '\t' {
            out.push('\\');
            out.push('t');
        } else if c == '\n' {
            out.push('\\');
            out.push('n');
        } else if c == '\r' {
            out.push('\\');
            out.push('r');
        } else {
            out.push(c);
        }
        assert(out@ =~= before + escaped_char(c));
        assert(out@ + escaped(v@.skip(i + 1)) =~= before + escaped(rest));
        i += 1;
    }
    assert(out@ + escaped(v@.skip(i as int)) =~= out@);
    string_of(&out)
}

pub fn unescape(field: &str) -> (r: String)
    ensures
        r@ == unescaped(field@),
{
    let v = chars_of(field);
    let mut out: Vec<char> = Vec::new();
    let mut i: usize = 0;
    assert(v@.skip(0) =~= v@);
    assert(out@ + unescaped(v@.skip(0)) =~= unescaped(v@));
    while i < v.len()
        invariant
            i <= v@.len(),
            v@ == field@,
            out@ + unescaped(v@.skip(i as int)) == unescaped(v@),
        decreases v@.len() - i,
    {
        let c = v[i];
        let ghost before = out@;
        let ghost rest = v@.skip(i as int);
        assert(rest[0] == c);
        if c != '\\' {
            out.push(c);
            assert(rest.skip(1) =~= v@.skip(i + 1));
            assert(out@ + unescaped(v@.skip(i + 1)) =~= before + unescaped(rest));
            i += 1;
            continue;
        }
        if i + 1 == v.len() {
            out.push('\\');
            assert(v@.skip(i + 1) =~= seq![]);
            assert(out@ + unescaped(v@.skip(i + 1)) =~= before + unescaped(rest));
            i += 1;
            continue;
        }
        let d = v[i + 1];
        assert(rest[1] == d);
        if d == 't' {
            out.push('\t');
        } else if d == 'n' {
            out.push('\n');
        } else if d == 'r' {
            out.push('\r');
        } else if d == '\\' {
            out.push('\\');
        } else {
            out.push('\\');
            out.push(d);
        }
        assert(out@ =~= before + unescaped_char(d));
        assert(rest.skip(2) =~= v@.skip(i + 2));
        assert(out@ + unescaped(v@.skip(i + 2)) =~= before + unescaped(rest));
        i += 2;
    }
    assert(out@ + unescaped(v@.skip(i as int)) =~= out@);
    string_of(&out)
}

/// Reading a stored field gives back what was stored, whatever it was.
pub proof fn lemma_unescape_undoes_escape(s: Seq<char>)
    ensures
        unescaped(escaped(s)) == s,
    decreases s.len(),
{
    if s.len() > 0 {
        let c = s[0];
        let rest = escaped(s.skip(1));
        let whole = escaped_char(c) + rest;
        lemma_unescape_undoes_escape(s.skip(1));
        if c == '\\' || c == '\t' || c == '\n' || c == '\r' {
            assert(whole.skip(2) =~= rest);
        } else {
            assert(whole.skip(1) =~= rest);
        }
        assert(unescaped(whole) =~= seq![c] + unescaped(rest));
        assert(seq![c] + s.skip(1) =~= s);
    }
}

/// A stored field holds no tab and no line break.
pub proof fn lemma_escaped_is_safe(s: Seq<char>)
    ensures
        text::free_of(escaped(s), '\t'),
        text::free_of(escaped(s), '\n'),
        text::free_of(escaped(s), '\r'),
    decreases s.len(),
{
    if s.len() > 0 {
        let rest = escaped(s.skip(1));
        let head = escaped_char(s[0]);
        lemma_escaped_is_safe(s.skip(1));
        assert forall|i: int| 0 <= i < escaped(s).len() implies #[trigger] escaped(s)[i] != '\t'
            && escaped(s)[i] != '\n' && escaped(s)[i] != '\r' by {
            if i < head.len() {
                assert(escaped(s)[i] == head[i]);
            } else {
                assert(escaped(s)[i] == rest[i - head.len()]);
            }
        }
    }
}

// ---------------------------------------------------------------------------
// Lines
// ---------------------------------------------------------------------------

pub open spec fn or_nothing(s: Option<Seq<char>>) -> Seq<char> {
    match s {
        Some(x) => x,
        None => seq![],
    }
}

/// The eight fields of an entry, as they are stored.
pub open spec fn stored_fields(e: EntryView) -> Seq<Seq<char>> {
    seq![
        escaped(text::decimal(e.at as nat)),
        escaped(e.md5),
        escaped(e.path),
        escaped(text::decimal(e.size as nat)),
        escaped(
            if e.verified {
                "1"@
            } else {
                "0"@
            },
        ),
        escaped(e.title),
        escaped(or_nothing(e.authors)),
        escaped(or_nothing(e.extension)),
    ]
}

/// The line an entry is stored as.
pub open spec fn line_of(e: EntryView) -> Seq<char> {
    text::joined(stored_fields(e), seq!['\t'])
}

/// A field of a line, empty where the line is too short. Anything past the
/// eighth belongs to a newer version than this one and is ignored.
pub open spec fn field_of(line: Seq<char>, i: int) -> Seq<char> {
    let fs = text::pieces(line, '\t', 0);
    if i < fs.len() {
        unescaped(fs[i])
    } else {
        seq![]
    }
}

/// The number a field holds, or zero where it holds none.
pub open spec fn number_in(s: Seq<char>) -> u64 {
    match text::number(s) {
        Some(n) => if n <= u64::MAX {
            n as u64
        } else {
            0
        },
        None => 0,
    }
}

pub open spec fn if_any(s: Seq<char>) -> Option<Seq<char>> {
    if s.len() == 0 {
        None
    } else {
        Some(s)
    }
}

/// The entry a line holds. One without a path is none.
pub open spec fn entry_of(line: Seq<char>) -> Option<EntryView> {
    if field_of(line, 2).len() == 0 {
        None
    } else {
        Some(
            EntryView {
                at: number_in(field_of(line, 0)),
                md5: field_of(line, 1),
                path: field_of(line, 2),
                size: number_in(field_of(line, 3)),
                verified: field_of(line, 4) == "1"@,
                title: field_of(line, 5),
                authors: if_any(field_of(line, 6)),
                extension: if_any(field_of(line, 7)),
            },
        )
    }
}

fn read_number(s: &str) -> (r: u64)
    ensures
        r == number_in(s@),
{
    match parse_u64(s, u64::MAX) {
        Some(n) => n,
        None => 0,
    }
}

fn some_text(s: String) -> (r: Option<String>)
    ensures
        r.deep_view() == if_any(s@),
{
    if s.as_str().is_empty() {
        None
    } else {
        Some(s)
    }
}

fn get_field(fs: &Vec<String>, i: usize, line: Ghost<Seq<char>>) -> (r: String)
    requires
        text::texts(fs@) == text::pieces(line@, '\t', 0),
    ensures
        r@ == field_of(line@, i as int),
{
    assert(text::texts(fs@).len() == fs@.len());
    if i < fs.len() {
        assert(text::texts(fs@)[i as int] == fs@[i as int]@);
        unescape(&fs[i])
    } else {
        String::new()
    }
}

impl Entry {
    /// Build an entry from a download that has just landed. A skipped download
    /// transferred nothing, so the file on disk is the authority on its own
    /// size; the catalogue's figure is the last resort.
    pub open spec fn made_of(
        book: Book,
        outcome: Outcome,
        at: u64,
        size_on_disk: Option<u64>,
    ) -> EntryView {
        EntryView {
            at,
            md5: book.md5@,
            path: outcome.path@,
            size: if outcome.bytes > 0 {
                outcome.bytes
            } else if size_on_disk is Some {
                size_on_disk->0
            } else if book.size_bytes is Some {
                book.size_bytes->0
            } else {
                0
            },
            verified: outcome.verified,
            title: book.title@,
            authors: book.authors.deep_view(),
            extension: match book.extension {
                Some(e) => Some(e@),
                None => match path::extension_of(outcome.path@) {
                    Some(e) => Some(text::ascii_lower(e)),
                    None => None,
                },
            },
        }
    }

    pub fn of(book: &Book, outcome: &Outcome, at: u64, size_on_disk: Option<u64>) -> (r: Self)
        ensures
            r@ == Entry::made_of(*book, *outcome, at, size_on_disk),
            r.at == at,
            r.md5@ == book.md5@,
            r.path@ == outcome.path@,
            r.verified == outcome.verified,
            r.title@ == book.title@,
            r.authors is Some <==> book.authors is Some,
            r.authors is Some ==> r.authors->0@ == book.authors->0@,
            book.extension is Some ==> r.extension is Some && r.extension->0@
                == book.extension->0@,
            outcome.bytes > 0 ==> r.size == outcome.bytes,
            outcome.bytes == 0 && size_on_disk is Some ==> r.size == size_on_disk->0,
    {
        Entry {
            at,
            md5: book.md5.clone(),
            path: outcome.path.clone(),
            size: if outcome.bytes > 0 {
                outcome.bytes
            } else {
                match size_on_disk {
                    Some(n) => n,
                    None => match book.size_bytes {
                        Some(n) => n,
                        None => 0,
                    },
                }
            },
            verified: outcome.verified,
            title: book.title.clone(),
            authors: copy_opt(&book.authors),
            extension: match &book.extension {
                Some(e) => Some(e.clone()),
                None => match path::extension(&outcome.path) {
                    Some(e) => Some(to_ascii_lower(&e)),
                    None => None,
                },
            },
        }
    }

    /// Whether the file is still where we left it.
    pub fn present(&self, disk: &Disk) -> (r: bool)
        ensures
            r == disk.holds(self.path@),
    {
        disk.has(&self.path)
    }

    pub open spec fn filename_text(self) -> Seq<char> {
        match path::name_of(self.path@) {
            Some(n) => n,
            None => self.path@,
        }
    }

    pub fn filename(&self) -> (r: String)
        ensures
            r@ == self.filename_text(),
    {
        match path::file_name(&self.path) {
            Some(n) => n,
            None => self.path.clone(),
        }
    }

    pub open spec fn ext_text(self) -> Seq<char> {
        model::or_empty(self.extension)
    }

    pub fn ext(&self) -> (r: &str)
        ensures
            r@ == self.ext_text(),
    {
        or_blank(&self.extension)
    }

    pub open spec fn first_author_text(self) -> Seq<char> {
        text::trimmed(text::pieces(model::or_empty(self.authors), ';', 0)[0])
    }

    /// The first of several authors, which is all a narrow column can show.
    pub fn first_author(&self) -> (r: String)
        ensures
            r@ == self.first_author_text(),
    {
        first_of(or_blank(&self.authors))
    }

    pub fn to_line(&self) -> (r: String)
        ensures
            r@ == line_of(self@),
    {
        let mut fs: Vec<String> = Vec::new();
        fs.push(escape(&dec(self.at)));
        fs.push(escape(&self.md5));
        fs.push(escape(&self.path));
        fs.push(escape(&dec(self.size)));
        fs.push(
            escape(
                if self.verified {
                    "1"
                } else {
                    "0"
                },
            ),
        );
        fs.push(escape(&self.title));
        fs.push(escape(or_blank(&self.authors)));
        fs.push(escape(or_blank(&self.extension)));
        proof {
            reveal_strlit("\t");
            assert("\t"@ =~= seq!['\t']);
            assert(text::texts(fs@) =~= stored_fields(self@));
        }
        text::join(&fs, "\t")
    }

    pub fn from_line(line: &str) -> (r: Option<Self>)
        ensures
            entry_of(line@) == (match r {
                Some(e) => Some(e@),
                None => None,
            }),
    {
        let fs = split(line, '\t');
        let ghost l = line@;
        let p = get_field(&fs, 2, Ghost(l));
        if p.as_str().is_empty() {
            return None;
        }
        Some(
            Entry {
                at: read_number(&get_field(&fs, 0, Ghost(l))),
                md5: get_field(&fs, 1, Ghost(l)),
                path: p,
                size: read_number(&get_field(&fs, 3, Ghost(l))),
                verified: same(&get_field(&fs, 4, Ghost(l)), "1"),
                title: get_field(&fs, 5, Ghost(l)),
                authors: some_text(get_field(&fs, 6, Ghost(l))),
                extension: some_text(get_field(&fs, 7, Ghost(l))),
            },
        )
    }
}

/// Whether an entry can be told apart from the blank it would leave: it has a
/// path, and what it says of authors and format is not empty.
pub open spec fn storable(e: EntryView) -> bool {
    &&& e.path.len() > 0
    &&& e.authors is Some ==> e.authors->0.len() > 0
    &&& e.extension is Some ==> e.extension->0.len() > 0
}

/// An entry survives being written down and read back.
pub proof fn lemma_entry_round_trip(e: EntryView)
    requires
        storable(e),
    ensures
        entry_of(line_of(e)) == Some(e),
        text::pieces(line_of(e), '\t', 0).len() == 8,
        text::free_of(line_of(e), '\n'),
        text::free_of(line_of(e), '\r'),
        text::trimmed(line_of(e)).len() > 0,
{
    let fs = stored_fields(e);
    assert forall|i: int| 0 <= i < fs.len() implies text::free_of(#[trigger] fs[i], '\t')
        && text::free_of(fs[i], '\n') && text::free_of(fs[i], '\r') by {
        lemma_escaped_is_safe(text::decimal(e.at as nat));
        lemma_escaped_is_safe(e.md5);
        lemma_escaped_is_safe(e.path);
        lemma_escaped_is_safe(text::decimal(e.size as nat));
        lemma_escaped_is_safe(
            if e.verified {
                "1"@
            } else {
                "0"@
            },
        );
        lemma_escaped_is_safe(e.title);
        lemma_escaped_is_safe(or_nothing(e.authors));
        lemma_escaped_is_safe(or_nothing(e.extension));
    }
    text::lemma_pieces_of_joined(fs, '\t');
    lemma_joined_free(fs, '\n');
    lemma_joined_free(fs, '\r');
    lemma_unescape_undoes_escape(text::decimal(e.at as nat));
    lemma_unescape_undoes_escape(e.md5);
    lemma_unescape_undoes_escape(e.path);
    lemma_unescape_undoes_escape(text::decimal(e.size as nat));
    lemma_unescape_undoes_escape("1"@);
    lemma_unescape_undoes_escape("0"@);
    lemma_unescape_undoes_escape(e.title);
    lemma_unescape_undoes_escape(or_nothing(e.authors));
    lemma_unescape_undoes_escape(or_nothing(e.extension));
    text::lemma_number_of_decimal(e.at as nat);
    text::lemma_number_of_decimal(e.size as nat);
    reveal_strlit("1");
    reveal_strlit("0");
    assert("1"@[0] != "0"@[0]);
    lemma_line_starts_with_digit(e);
    text::lemma_not_blank(line_of(e));
}

proof fn lemma_joined_free(v: Seq<Seq<char>>, c: char)
    requires
        c != '\t',
        forall|i: int| 0 <= i < v.len() ==> text::free_of(#[trigger] v[i], c),
    ensures
        text::free_of(text::joined(v, seq!['\t']), c),
    decreases v.len(),
{
    if v.len() == 1 {
        assert(text::free_of(v[0], c));
    } else if v.len() > 1 {
        let head = v.drop_last();
        assert forall|i: int| 0 <= i < head.len() implies text::free_of(#[trigger] head[i], c) by {
            assert(head[i] == v[i]);
        }
        lemma_joined_free(head, c);
        let a = text::joined(head, seq!['\t']);
        let b = v[v.len() - 1];
        assert(text::free_of(b, c));
        let w = a + seq!['\t'] + b;
        assert forall|i: int| 0 <= i < w.len() implies #[trigger] w[i] != c by {
            if i < a.len() {
                assert(w[i] == a[i]);
            } else if i > a.len() {
                assert(w[i] == b[i - a.len() - 1]);
            }
        }
    }
}

proof fn lemma_joined_head(v: Seq<Seq<char>>)
    requires
        v.len() >= 1,
        v[0].len() > 0,
    ensures
        text::joined(v, seq!['\t']).len() > 0,
        text::joined(v, seq!['\t'])[0] == v[0][0],
    decreases v.len(),
{
    if v.len() > 1 {
        assert(v.drop_last()[0] == v[0]);
        lemma_joined_head(v.drop_last());
    }
}

proof fn lemma_line_starts_with_digit(e: EntryView)
    ensures
        line_of(e).len() > 0,
        !text::is_white(line_of(e)[0]),
{
    let d = text::decimal(e.at as nat);
    text::lemma_number_of_decimal(e.at as nat);
    assert(text::is_digit(d[0]));
    assert(escaped(d) == escaped_char(d[0]) + escaped(d.skip(1)));
    assert(escaped(d)[0] == d[0]);
    lemma_joined_head(stored_fields(e));
}

// ---------------------------------------------------------------------------
// The table
// ---------------------------------------------------------------------------

/// The entries some lines hold, oldest first, leaving out lines that hold none.
pub open spec fn entries_in(ls: Seq<Seq<char>>) -> Seq<EntryView>
    decreases ls.len(),
{
    if ls.len() == 0 {
        seq![]
    } else {
        let rest = entries_in(ls.drop_last());
        if text::trimmed(ls.last()).len() == 0 {
            rest
        } else {
            match entry_of(ls.last()) {
                Some(e) => rest.push(e),
                None => rest,
            }
        }
    }
}

/// The entries a table holds, oldest first, which is the order it is stored in.
pub open spec fn recorded(s: Seq<char>) -> Seq<EntryView> {
    entries_in(text::lines_of(s))
}

/// The lines some entries are stored as.
pub open spec fn lines_for(es: Seq<EntryView>) -> Seq<Seq<char>> {
    Seq::new(es.len(), |i: int| line_of(es[i]))
}

/// The table that holds some entries, oldest first.
pub open spec fn table_of(es: Seq<EntryView>) -> Seq<char> {
    text::line_file(lines_for(es))
}

/// The entries of a table, oldest first.
fn read_table(s: &str) -> (r: Vec<Entry>)
    ensures
        views(r@) == recorded(s@),
{
    let ls = lines(s);
    let ghost all = text::texts(ls@);
    let mut out: Vec<Entry> = Vec::new();
    let mut i: usize = 0;
    assert(all.take(0) =~= seq![]);
    assert(views(out@) =~= seq![]);
    while i < ls.len()
        invariant
            i <= ls@.len(),
            all == text::texts(ls@),
            views(out@) == entries_in(all.take(i as int)),
        decreases ls@.len() - i,
    {
        proof {
            assert(all.take(i + 1).drop_last() =~= all.take(i as int));
            assert(all.take(i + 1).last() == ls@[i as int]@);
        }
        if !trim(&ls[i]).as_str().is_empty() {
            if let Some(e) = Entry::from_line(&ls[i]) {
                let ghost before = views(out@);
                let ghost v = e@;
                out.push(e);
                assert(views(out@) =~= before.push(v));
            }
        }
        i += 1;
    }
    assert(all.take(all.len() as int) =~= all);
    out
}

/// Every remembered download, newest first.
pub fn load(s: &str) -> (r: Vec<Entry>)
    ensures
        views(r@) == recorded(s@).reverse(),
{
    let es = read_table(s);
    let mut out: Vec<Entry> = Vec::new();
    let mut i: usize = es.len();
    while i > 0
        invariant
            i <= es@.len(),
            out@.len() == es@.len() - i,
            forall|k: int| 0 <= k < out@.len() ==> out@[k] == es@[es@.len() - 1 - k],
        decreases i,
    {
        i = i - 1;
        out.push(es[i].clone());
    }
    assert(views(out@) =~= recorded(s@).reverse()) by {
        assert forall|k: int| 0 <= k < out@.len() implies views(out@)[k] == recorded(
            s@,
        ).reverse()[k] by {
            assert(views(es@)[es@.len() - 1 - k] == es@[es@.len() - 1 - k]@);
        }
    }
    out
}

/// The table as text, oldest entry first.
fn write_all(es: &Vec<Entry>) -> (r: String)
    ensures
        r@ == table_of(views(es@)),
{
    let ghost all = lines_for(views(es@));
    let mut out = String::new();
    let mut i: usize = 0;
    assert(all.take(0) =~= seq![]);
    while i < es.len()
        invariant
            i <= es@.len(),
            all == lines_for(views(es@)),
            out@ == text::line_file(all.take(i as int)),
        decreases es@.len() - i,
    {
        proof {
            assert(all.take(i + 1).drop_last() =~= all.take(i as int));
            assert(all.take(i + 1).last() == line_of(es@[i as int]@));
        }
        out.append(&es[i].to_line());
        let ghost before = out@;
        out.push('\n');
        assert(out@ =~= before + seq!['\n']);
        i += 1;
    }
    assert(all.take(all.len() as int) =~= all);
    out
}

/// The entries for other files, in order.
pub open spec fn without(es: Seq<EntryView>, p: Seq<char>) -> Seq<EntryView>
    decreases es.len(),
{
    if es.len() == 0 {
        seq![]
    } else if path::agree(es.last().path, p) {
        without(es.drop_last(), p)
    } else {
        without(es.drop_last(), p).push(es.last())
    }
}

/// The last entries, no more than are remembered.
pub open spec fn latest(es: Seq<EntryView>) -> Seq<EntryView> {
    if es.len() > MAX_ENTRIES {
        es.subrange(es.len() - MAX_ENTRIES, es.len() as int)
    } else {
        es
    }
}

/// The entries after one more download: an earlier one for the same file goes,
/// the new one comes last, and the oldest fall off.
pub open spec fn with_entry(es: Seq<EntryView>, e: EntryView) -> Seq<EntryView> {
    latest(without(es, e.path).push(e))
}

fn drop_path(es: Vec<Entry>, p: &str) -> (r: Vec<Entry>)
    ensures
        views(r@) == without(views(es@), p@),
{
    let ghost all = views(es@);
    let mut out: Vec<Entry> = Vec::new();
    let mut i: usize = 0;
    assert(all.take(0) =~= seq![]);
    assert(views(out@) =~= seq![]);
    while i < es.len()
        invariant
            i <= es@.len(),
            all == views(es@),
            views(out@) == without(all.take(i as int), p@),
        decreases es@.len() - i,
    {
        proof {
            assert(all.take(i + 1).drop_last() =~= all.take(i as int));
            assert(all.take(i + 1).last() == es@[i as int]@);
        }
        if !path::same_place(&es[i].path, p) {
            let ghost before = views(out@);
            out.push(es[i].clone());
            assert(views(out@) =~= before.push(es@[i as int]@));
        }
        i += 1;
    }
    assert(all.take(all.len() as int) =~= all);
    out
}

/// The table with one more entry, replacing any earlier one for the same file.
pub fn append_to(s: &str, entry: &Entry) -> (r: String)
    ensures
        r@ == table_of(with_entry(recorded(s@), entry@)),
{
    let mut es = drop_path(read_table(s), &entry.path);
    let ghost before = views(es@);
    es.push(entry.clone());
    assert(views(es@) =~= before.push(entry@));
    if es.len() > MAX_ENTRIES {
        let ghost all = views(es@);
        let from: usize = es.len() - MAX_ENTRIES;
        let kept = es.split_off(from);
        assert(views(kept@) =~= all.subrange(all.len() - MAX_ENTRIES, all.len() as int));
        write_all(&kept)
    } else {
        write_all(&es)
    }
}

/// Forget a single entry. Nothing comes back where there was none to forget.
pub fn remove_from(s: &str, target: &str) -> (r: Option<String>)
    ensures
        match r {
            Some(t) => t@ == table_of(without(recorded(s@), target@)) && without(
                recorded(s@),
                target@,
            ).len() != recorded(s@).len(),
            None => without(recorded(s@), target@).len() == recorded(s@).len(),
        },
{
    let es = read_table(s);
    let before: usize = es.len();
    assert(views(es@).len() == before);
    let kept = drop_path(es, target);
    assert(views(kept@).len() == kept@.len());
    if kept.len() == before {
        return None;
    }
    Some(write_all(&kept))
}

/// Forget a download that was listed. The file itself is left alone.
pub fn remove(s: &str, entry: &Entry) -> (r: Option<String>)
    ensures
        match r {
            Some(t) => t@ == table_of(without(recorded(s@), entry.path@)) && without(
                recorded(s@),
                entry.path@,
            ).len() != recorded(s@).len(),
            None => without(recorded(s@), entry.path@).len() == recorded(s@).len(),
        },
{
    remove_from(s, &entry.path)
}

pub open spec fn knows(es: Seq<EntryView>, p: Seq<char>) -> bool {
    exists|i: int| 0 <= i < es.len() && path::agree(#[trigger] es[i].path, p)
}

/// Note a completed download: the table to write, or nothing when there is
/// nothing to note.
///
/// A skip means the file was already on disk. Usually we put it there and the
/// entry that says so is better than anything we could write now. But a file
/// downloaded before any of this existed has no entry at all, and asking for it
/// again is a reasonable way to say "this one is mine": record it.
pub fn record(
    enabled: bool,
    s: &str,
    book: &Book,
    outcome: &Outcome,
    at: u64,
    size_on_disk: Option<u64>,
) -> (r: Option<String>)
    ensures
        r is Some <==> enabled && !(outcome.skipped && knows(recorded(s@), outcome.path@)),
        r is Some ==> r->0@ == table_of(
            with_entry(recorded(s@), Entry::made_of(*book, *outcome, at, size_on_disk)),
        ),
        r is Some && outcome.path@.len() > 0 ==> recorded(r->0@).len() > 0,
        r is Some && outcome.path@.len() > 0 ==> recorded(r->0@).last().md5 == book.md5@,
        r is Some && outcome.path@.len() > 0 ==> recorded(r->0@).last().title == book.title@,
        r is Some && outcome.path@.len() > 0 ==> recorded(r->0@).last().path == outcome.path@,
        r is Some && outcome.path@.len() > 0 ==> recorded(r->0@).last().at == at,
        r is Some && outcome.path@.len() > 0 ==> recorded(r->0@).last().verified
            == outcome.verified,
        r is Some && outcome.path@.len() > 0 && book.authors is Some ==> or_nothing(
            recorded(r->0@).last().authors,
        ) == book.authors->0@,
        r is Some && outcome.path@.len() > 0 && book.authors is None ==> recorded(
            r->0@,
        ).last().authors is None,
{
    if !enabled {
        return None;
    }
    if outcome.skipped {
        let es = read_table(s);
        let mut i: usize = 0;
        while i < es.len()
            invariant
                i <= es@.len(),
                views(es@) == recorded(s@),
                forall|k: int| 0 <= k < i ==> !path::agree(es@[k]@.path, outcome.path@),
                enabled,
                outcome.skipped,
            decreases es@.len() - i,
        {
            if path::same_place(&es[i].path, &outcome.path) {
                assert(path::agree(views(es@)[i as int].path, outcome.path@));
                return None;
            }
            i += 1;
        }
        assert(!knows(recorded(s@), outcome.path@)) by {
            assert forall|k: int| 0 <= k < recorded(s@).len() implies !path::agree(
                #[trigger] recorded(s@)[k].path,
                outcome.path@,
            ) by {
                assert(views(es@)[k] == es@[k]@);
            }
        }
    }
    proof {
        if outcome.path@.len() > 0 {
            lemma_a_download_is_remembered(s@, *book, *outcome, at, size_on_disk);
        }
    }
    Some(append_to(s, &Entry::of(book, outcome, at, size_on_disk)))
}

// ---------------------------------------------------------------------------
// Laws of the table
// ---------------------------------------------------------------------------

pub open spec fn all_storable(es: Seq<EntryView>) -> bool {
    forall|i: int| 0 <= i < es.len() ==> storable(#[trigger] es[i])
}

/// What was read from a table can always be written back.
pub proof fn lemma_recorded_storable(ls: Seq<Seq<char>>)
    ensures
        all_storable(entries_in(ls)),
    decreases ls.len(),
{
    if ls.len() > 0 {
        lemma_recorded_storable(ls.drop_last());
    }
}

/// Reading a table gives back the entries that were written, in order.
pub proof fn lemma_table_round_trip(es: Seq<EntryView>)
    requires
        all_storable(es),
    ensures
        recorded(table_of(es)) == es,
{
    let ls = lines_for(es);
    assert forall|i: int| 0 <= i < ls.len() implies text::free_of(#[trigger] ls[i], '\n')
        && text::free_of(ls[i], '\r') by {
        lemma_entry_round_trip(es[i]);
    }
    text::lemma_lines_of_file(ls);
    lemma_entries_in_lines(es);
}

proof fn lemma_entries_in_lines(es: Seq<EntryView>)
    requires
        all_storable(es),
    ensures
        entries_in(lines_for(es)) == es,
    decreases es.len(),
{
    if es.len() == 0 {
        assert(entries_in(lines_for(es)) =~= es);
    } else {
        let head = es.drop_last();
        assert(lines_for(es).drop_last() =~= lines_for(head));
        assert forall|i: int| 0 <= i < head.len() implies storable(#[trigger] head[i]) by {
            assert(head[i] == es[i]);
        }
        lemma_entries_in_lines(head);
        assert(storable(es[es.len() - 1]));
        lemma_entry_round_trip(es.last());
        assert(head.push(es.last()) =~= es);
    }
}

proof fn lemma_without(es: Seq<EntryView>, p: Seq<char>)
    ensures
        !knows(without(es, p), p),
        without(es, p).len() <= es.len(),
        all_storable(es) ==> all_storable(without(es, p)),
        forall|i: int|
            0 <= i < es.len() && !path::agree(es[i].path, p) ==> without(es, p).contains(#[trigger] es[i]),
        !knows(es, p) ==> without(es, p) == es,
        forall|q: Seq<char>| #[trigger] knows(without(es, p), q) ==> knows(es, q),
    decreases es.len(),
{
    if es.len() > 0 {
        let head = es.drop_last();
        let w = without(head, p);
        lemma_without(head, p);
        assert forall|i: int| 0 <= i < head.len() implies #[trigger] head[i] == es[i] by {}
        if path::agree(es.last().path, p) {
            assert(path::agree(es[es.len() - 1].path, p));
            assert(knows(es, p));
            assert forall|i: int| 0 <= i < es.len() && !path::agree(es[i].path, p) implies without(
                es,
                p,
            ).contains(#[trigger] es[i]) by {
                assert(head[i] == es[i]);
            }
        } else {
            assert(w.push(es.last()).last() == es.last());
            assert forall|i: int| 0 <= i < es.len() && !path::agree(es[i].path, p) implies without(
                es,
                p,
            ).contains(#[trigger] es[i]) by {
                if i < head.len() {
                    assert(head[i] == es[i]);
                    let j = choose|j: int| 0 <= j < w.len() && w[j] == head[i];
                    assert(without(es, p)[j] == es[i]);
                } else {
                    assert(without(es, p)[w.len() as int] == es[i]);
                }
            }
            if !knows(es, p) {
                assert forall|i: int| 0 <= i < head.len() implies !path::agree(
                    #[trigger] head[i].path,
                    p,
                ) by {
                    assert(!path::agree(es[i].path, p));
                }
                assert(w == head);
                assert(without(es, p) =~= es);
            }
        }
        assert forall|q: Seq<char>| #[trigger] knows(without(es, p), q) implies knows(es, q) by {
            let k = choose|k: int|
                0 <= k < without(es, p).len() && path::agree(#[trigger] without(es, p)[k].path, q);
            if k < w.len() {
                assert(path::agree(w[k].path, q));
                assert(knows(w, q));
                assert(knows(head, q));
                let j = choose|j: int| 0 <= j < head.len() && path::agree(#[trigger] head[j].path, q);
                assert(path::agree(es[j].path, q));
            } else {
                assert(path::agree(es[es.len() - 1].path, q));
            }
        }
        if all_storable(es) {
            assert forall|i: int| 0 <= i < head.len() implies storable(#[trigger] head[i]) by {
                assert(storable(es[i]));
            }
            assert(storable(es[es.len() - 1]));
        }
    } else {
        assert(without(es, p) =~= es);
    }
}

/// After a download is recorded, reading the table back gives the entries that
/// were there, but for those of the same path, in their order, and the new one
/// behind them; of these the latest, as many as are remembered. So it is listed
/// first, no other entry has its path, and every other entry is still there
/// unless the table was full.
pub proof fn lemma_append(s: Seq<char>, e: EntryView)
    requires
        storable(e),
    ensures
        ({
            let after = recorded(table_of(with_entry(recorded(s), e)));
            &&& after == latest(without(recorded(s), e.path).push(e))
            &&& after.len() >= 1
            &&& after.len() <= MAX_ENTRIES
            &&& after.reverse()[0] == e
            &&& !knows(after.drop_last(), e.path)
            &&& recorded(s).len() < MAX_ENTRIES ==> after == without(recorded(s), e.path).push(e)
            &&& recorded(s).len() < MAX_ENTRIES ==> forall|i: int|
                0 <= i < recorded(s).len() && !path::agree(recorded(s)[i].path, e.path) ==> after.contains(
                    #[trigger] recorded(s)[i],
                )
        }),
{
    let es = recorded(s);
    let w = without(es, e.path);
    let all = w.push(e);
    let kept = latest(all);
    lemma_recorded_storable(text::lines_of(s));
    lemma_without(es, e.path);
    assert forall|i: int| 0 <= i < all.len() implies storable(#[trigger] all[i]) by {
        if i < w.len() {
            assert(all[i] == w[i]);
        }
    }
    let from = all.len() - kept.len();
    assert forall|i: int| 0 <= i < kept.len() implies #[trigger] kept[i] == all[i + from] by {}
    assert forall|i: int| 0 <= i < kept.len() implies storable(#[trigger] kept[i]) by {
        assert(kept[i] == all[i + from]);
    }
    lemma_table_round_trip(kept);
    assert(kept.last() == e);
    assert(kept.reverse()[0] == e);
    assert forall|i: int| 0 <= i < kept.drop_last().len() implies !path::agree(
        #[trigger] kept.drop_last()[i].path,
        e.path,
    ) by {
        assert(kept[i] == all[i + from]);
        assert(!path::agree(w[i + from].path, e.path));
    }
    if es.len() < MAX_ENTRIES {
        assert forall|i: int| 0 <= i < es.len() && !path::agree(es[i].path, e.path) implies kept.contains(
            #[trigger] es[i],
        ) by {
            let j = choose|j: int| 0 <= j < w.len() && w[j] == es[i];
            assert(kept[j] == es[i]);
        }
    }
}

/// Forgetting an entry leaves every other one, in order, and only those.
pub proof fn lemma_remove(s: Seq<char>, target: Seq<char>)
    ensures
        recorded(table_of(without(recorded(s), target))) == without(recorded(s), target),
        !knows(without(recorded(s), target), target),
        forall|i: int|
            0 <= i < recorded(s).len() && !path::agree(recorded(s)[i].path, target) ==> without(
                recorded(s),
                target,
            ).contains(#[trigger] recorded(s)[i]),
        !knows(recorded(s), target) ==> without(recorded(s), target) == recorded(s),
{
    lemma_recorded_storable(text::lines_of(s));
    lemma_without(recorded(s), target);
    lemma_table_round_trip(without(recorded(s), target));
}

/// No two entries are for the same file.
pub open spec fn paths_differ(es: Seq<EntryView>) -> bool {
    forall|i: int, j: int|
        0 <= i < j < es.len() ==> !path::agree(#[trigger] es[i].path, #[trigger] es[j].path)
}

proof fn lemma_without_differ(es: Seq<EntryView>, p: Seq<char>)
    requires
        paths_differ(es),
    ensures
        paths_differ(without(es, p)),
    decreases es.len(),
{
    if es.len() > 0 {
        let head = es.drop_last();
        assert(paths_differ(head)) by {
            assert forall|i: int, j: int| 0 <= i < j < head.len() implies !path::agree(
                #[trigger] head[i].path,
                #[trigger] head[j].path,
            ) by {
                assert(!path::agree(es[i].path, es[j].path));
            }
        }
        lemma_without_differ(head, p);
        lemma_without(head, p);
        let w = without(head, p);
        if !path::agree(es.last().path, p) {
            let q = es.last().path;
            assert(!knows(head, q)) by {
                assert forall|i: int| 0 <= i < head.len() implies !path::agree(
                    #[trigger] head[i].path,
                    q,
                ) by {
                    assert(!path::agree(es[i].path, es[es.len() - 1].path));
                }
            }
            assert(!knows(w, q));
            assert forall|i: int, j: int| 0 <= i < j < w.push(es.last()).len() implies !path::agree(
                #[trigger] w.push(es.last())[i].path,
                #[trigger] w.push(es.last())[j].path,
            ) by {
                if j == w.len() {
                    assert(!path::agree(w[i].path, q));
                } else {
                    assert(!path::agree(w[i].path, w[j].path));
                }
            }
        }
    }
}

/// A table whose paths all differ keeps that property when a download is
/// recorded and when one is forgotten.
pub proof fn lemma_paths_stay_different(s: Seq<char>, e: EntryView, target: Seq<char>)
    requires
        storable(e),
        paths_differ(recorded(s)),
    ensures
        paths_differ(recorded(table_of(with_entry(recorded(s), e)))),
        paths_differ(recorded(table_of(without(recorded(s), target)))),
{
    let es = recorded(s);
    lemma_without_differ(es, target);
    lemma_remove(s, target);
    lemma_without_differ(es, e.path);
    lemma_without(es, e.path);
    let w = without(es, e.path);
    let all = w.push(e);
    assert forall|i: int, j: int| 0 <= i < j < all.len() implies !path::agree(
        #[trigger] all[i].path,
        #[trigger] all[j].path,
    ) by {
        if j == w.len() {
            assert(!path::agree(w[i].path, e.path));
        } else {
            assert(!path::agree(w[i].path, w[j].path));
        }
    }
    let kept = latest(all);
    let from = all.len() - kept.len();
    assert forall|i: int, j: int| 0 <= i < j < kept.len() implies !path::agree(
        #[trigger] kept[i].path,
        #[trigger] kept[j].path,
    ) by {
        assert(!path::agree(all[i + from].path, all[j + from].path));
    }
    lemma_recorded_storable(text::lines_of(s));
    assert forall|i: int| 0 <= i < kept.len() implies storable(#[trigger] kept[i]) by {
        assert(kept[i] == all[i + from]);
        if i + from < w.len() {
            assert(storable(w[i + from]));
        }
    }
    lemma_table_round_trip(kept);
}

// ---------------------------------------------------------------------------
// Selecting
// ---------------------------------------------------------------------------

/// Whether a word stands in the title, the filename or the authors, whatever
/// the case of the letters.
pub open spec fn mentions(e: Entry, needle: Seq<char>) -> bool {
    ||| text::has(text::lowercased(e.title@), needle)
    ||| text::has(text::lowercased(e.filename_text()), needle)
    ||| e.authors is Some && text::has(text::lowercased(e.authors->0@), needle)
}

pub fn matches_text(e: &Entry, needle: &str) -> (r: bool)
    ensures
        r == mentions(*e, needle@),
{
    if contains(&to_lower(&e.title), needle) {
        return true;
    }
    if contains(&to_lower(&e.filename()), needle) {
        return true;
    }
    match &e.authors {
        Some(a) => contains(&to_lower(a), needle),
        None => false,
    }
}

/// Whether an entry answers to a selector that is an MD5, or one that is a
/// word.
pub open spec fn answers(e: Entry, selector: Seq<char>) -> bool {
    if model::md5_shaped(selector) {
        text::ascii_lower(e.md5@) == text::ascii_lower(selector)
    } else {
        mentions(e, text::lowercased(selector))
    }
}

/// The positions of the first `k` entries that answer to a selector.
pub open spec fn answering(es: Seq<Entry>, selector: Seq<char>, k: nat) -> Seq<int>
    decreases k,
{
    if k == 0 {
        seq![]
    } else if answers(es[k - 1], selector) {
        answering(es, selector, (k - 1) as nat).push(k - 1)
    } else {
        answering(es, selector, (k - 1) as nat)
    }
}

/// How many entries there are, in words.
pub open spec fn holdings(n: nat) -> Seq<char> {
    if n == 0 {
        "nothing"@
    } else if n == 1 {
        "one entry"@
    } else {
        text::decimal(n) + " entries"@
    }
}

/// The positions of the entries a selector refers to, or why it refers to none.
///
/// A number is a position in the listing, counting from one and from the most
/// recent. An MD5 matches the record it was downloaded from. Anything else is
/// matched, case-insensitively, against the title, author and filename. Nothing
/// at all means the most recent.
pub open spec fn selected(es: Seq<Entry>, input: Seq<char>) -> Result<Seq<int>, Seq<char>> {
    let s = text::trimmed(input);
    if s.len() == 0 {
        if es.len() > 0 {
            Ok(seq![0int])
        } else {
            Err("nothing has been downloaded yet"@)
        }
    } else {
        match term::word_of(s) {
            Some(n) => if n == 0 || n > es.len() {
                Err(
                    "there is no entry "@ + text::decimal(n as nat) + " — the history holds "@
                        + holdings(es.len()),
                )
            } else {
                Ok(seq![n - 1])
            },
            None => {
                let hits = answering(es, s, es.len());
                if hits.len() > 0 {
                    Ok(hits)
                } else if model::md5_shaped(s) {
                    Err("no download in the history has the MD5 "@ + s)
                } else {
                    Err("nothing in the history matches “"@ + s + "”"@)
                }
            },
        }
    }
}

/// Find the entries a selector refers to. Several can answer to a word, so the
/// caller decides what to do with more than one.
pub fn select<'a>(es: &'a Vec<Entry>, input: &str) -> (r: Result<Vec<&'a Entry>, Error>)
    ensures
        match r {
            Ok(v) => {
                &&& selected(es@, input@) is Ok
                &&& v@.len() == selected(es@, input@)->Ok_0.len()
                &&& v@.len() > 0
                &&& forall|i: int|
                    0 <= i < v@.len() ==> 0 <= #[trigger] selected(es@, input@)->Ok_0[i]
                        < es@.len()
                &&& forall|i: int|
                    0 <= i < v@.len() ==> *(#[trigger] v@[i]) == es@[selected(
                        es@,
                        input@,
                    )->Ok_0[i]]
            },
            Err(e) => selected(es@, input@) == Err::<Seq<int>, Seq<char>>(e.text@),
        },
{
    let s = trim(input);
    let mut out: Vec<&'a Entry> = Vec::new();
    if s.as_str().is_empty() {
        if es.len() > 0 {
            out.push(&es[0]);
            return Ok(out);
        }
        return Err(Error::new("nothing has been downloaded yet".to_owned()));
    }
    if let Some(n) = parse_usize(&s) {
        if n == 0 || n > es.len() {
            let mut e = "there is no entry ".to_owned();
            e.append(&dec(n as u64));
            e.append(" — the history holds ");
            if es.len() == 0 {
                e.append("nothing");
            } else if es.len() == 1 {
                e.append("one entry");
            } else {
                let mut count = dec(es.len() as u64);
                count.append(" entries");
                e.append(&count);
            }
            return Err(Error::new(e));
        }
        out.push(&es[n - 1]);
        return Ok(out);
    }
    let by_md5 = is_md5(&s);
    let needle = to_lower(&s);
    let mut i: usize = 0;
    while i < es.len()
        invariant
            i <= es@.len(),
            by_md5 == model::md5_shaped(s@),
            needle@ == text::lowercased(s@),
            out@.len() == answering(es@, s@, i as nat).len(),
            forall|k: int|
                0 <= k < out@.len() ==> 0 <= #[trigger] answering(es@, s@, i as nat)[k] < es@.len(),
            forall|k: int|
                0 <= k < out@.len() ==> *(#[trigger] out@[k]) == es@[answering(
                    es@,
                    s@,
                    i as nat,
                )[k]],
        decreases es@.len() - i,
    {
        let hit = if by_md5 {
            same_ignoring_case(&es[i].md5, &s)
        } else {
            matches_text(&es[i], &needle)
        };
        let ghost before = answering(es@, s@, i as nat);
        let ghost after = answering(es@, s@, (i + 1) as nat);
        if hit {
            let ghost shorter = out@;
            out.push(&es[i]);
            assert(after == before.push(i as int));
            assert forall|k: int| 0 <= k < out@.len() implies *(#[trigger] out@[k])
                == es@[after[k]] by {
                if k < shorter.len() {
                    assert(out@[k] == shorter[k]);
                    assert(after[k] == before[k]);
                }
            }
            assert forall|k: int| 0 <= k < out@.len() implies 0 <= #[trigger] after[k]
                < es@.len() by {
                if k < shorter.len() {
                    assert(after[k] == before[k]);
                }
            }
        } else {
            assert(after == before);
        }
        i += 1;
        assert(answering(es@, s@, i as nat) == after);
    }
    if out.len() == 0 {
        if by_md5 {
            let mut e = "no download in the history has the MD5 ".to_owned();
            e.append(&s);
            return Err(Error::new(e));
        }
        let mut e = "nothing in the history matches “".to_owned();
        e.append(&s);
        e.append("”");
        return Err(Error::new(e));
    }
    assert(selected(es@, input@) == Ok::<Seq<int>, Seq<char>>(answering(es@, s@, es@.len())));
    Ok(out)
}

/// An entry as it reads once it has been stored: authors or a format that were
/// empty are none.
spec fn reread(e: EntryView) -> EntryView {
    EntryView {
        authors: if_any(or_nothing(e.authors)),
        extension: if_any(or_nothing(e.extension)),
        ..e
    }
}

proof fn lemma_reread(s: Seq<char>, e: EntryView)
    requires
        e.path.len() > 0,
    ensures
        table_of(with_entry(recorded(s), e)) == table_of(with_entry(recorded(s), reread(e))),
        recorded(table_of(with_entry(recorded(s), e))).len() > 0,
        recorded(table_of(with_entry(recorded(s), e))).last() == reread(e),
{
    let es = recorded(s);
    let one = with_entry(es, e);
    let other = with_entry(es, reread(e));
    let w = without(es, e.path);
    assert(stored_fields(e) =~= stored_fields(reread(e)));
    let a = w.push(e);
    let b = w.push(reread(e));
    let from = a.len() - one.len();
    assert forall|i: int| 0 <= i < one.len() implies line_of(#[trigger] one[i]) == line_of(
        other[i],
    ) by {
        assert(one[i] == a[i + from]);
        assert(other[i] == b[i + from]);
    }
    assert(lines_for(one) =~= lines_for(other));
    lemma_append(s, reread(e));
    let after = recorded(table_of(other));
    assert(after.reverse()[0] == after.last());
}

/// After a download is recorded, the newest entry that the table gives is that
/// download: the MD5, the title, the authors and the format are the book's, the
/// path is where it was saved, and the time is when it was noted. Its size is
/// what was transferred, or what is on disk where nothing was.
pub proof fn lemma_a_download_is_remembered(
    s: Seq<char>,
    book: Book,
    outcome: Outcome,
    at: u64,
    size_on_disk: Option<u64>,
)
    requires
        outcome.path@.len() > 0,
    ensures
        ({
            let after = recorded(
                table_of(
                    with_entry(recorded(s), Entry::made_of(book, outcome, at, size_on_disk)),
                ),
            );
            let newest = after.reverse()[0];
            &&& after.len() > 0
            &&& newest == after.last()
            &&& newest.md5 == book.md5@
            &&& newest.title == book.title@
            &&& newest.path == outcome.path@
            &&& newest.at == at
            &&& newest.verified == outcome.verified
            &&& book.authors is None ==> newest.authors is None
            &&& book.authors is Some ==> or_nothing(newest.authors) == book.authors->0@
            &&& book.authors is Some && book.authors->0@.len() > 0 ==> newest.authors == Some(
                book.authors->0@,
            )
            &&& book.extension is Some ==> or_nothing(newest.extension) == book.extension->0@
            &&& outcome.bytes > 0 ==> newest.size == outcome.bytes
            &&& outcome.bytes == 0 && size_on_disk is Some ==> newest.size == size_on_disk->0
            &&& outcome.bytes == 0 && size_on_disk is None && book.size_bytes is Some
                ==> newest.size == book.size_bytes->0
        }),
{
    lemma_reread(s, Entry::made_of(book, outcome, at, size_on_disk));
}

proof fn lemma_answering(es: Seq<Entry>, selector: Seq<char>, k: nat)
    requires
        k <= es.len(),
    ensures
        forall|i: int|
            0 <= i < k ==> (answering(es, selector, k).contains(i) <==> #[trigger] answers(
                es[i],
                selector,
            )),
        forall|j: int|
            0 <= j < answering(es, selector, k).len() ==> 0 <= #[trigger] answering(
                es,
                selector,
                k,
            )[j] < k,
        forall|i: int, j: int|
            0 <= i < j < answering(es, selector, k).len() ==> (#[trigger] answering(
                es,
                selector,
                k,
            )[i]) < #[trigger] answering(es, selector, k)[j],
    decreases k,
{
    if k > 0 {
        let before = answering(es, selector, (k - 1) as nat);
        let now = answering(es, selector, k);
        lemma_answering(es, selector, (k - 1) as nat);
        assert forall|i: int| 0 <= i < k implies (now.contains(i) <==> #[trigger] answers(
            es[i],
            selector,
        )) by {
            if i == k - 1 {
                if answers(es[i], selector) {
                    assert(now.last() == i);
                } else if now.contains(i) {
                    let j = choose|j: int| 0 <= j < now.len() && now[j] == i;
                    assert(before[j] < k - 1);
                }
            } else if before.contains(i) {
                let j = choose|j: int| 0 <= j < before.len() && before[j] == i;
                assert(now[j] == i);
            } else if now.contains(i) {
                let j = choose|j: int| 0 <= j < now.len() && now[j] == i;
                assert(j < before.len());
                assert(before[j] == i);
            }
        }
    }
}

/// A selector that is a word selects an entry if and only if the word stands in
/// its title, its authors or the name of its file, whatever the case; the
/// entries come in the order of the listing, none twice.
pub proof fn lemma_a_word_selects(es: Seq<Entry>, word: Seq<char>, i: int)
    requires
        0 <= i < es.len(),
        text::trimmed(word).len() > 0,
        term::word_of(text::trimmed(word)) is None,
        !model::md5_shaped(text::trimmed(word)),
    ensures
        ({
            let needle = text::lowercased(text::trimmed(word));
            let picked = selected(es, word);
            let in_title = text::has(text::lowercased(es[i].title@), needle);
            let in_authors = es[i].authors is Some && text::has(
                text::lowercased(es[i].authors->0@),
                needle,
            );
            let in_name = text::has(
                text::lowercased(
                    match path::name_of(es[i].path@) {
                        Some(n) => n,
                        None => es[i].path@,
                    },
                ),
                needle,
            );
            &&& in_title || in_authors || in_name <==> picked is Ok && picked->Ok_0.contains(i)
            &&& picked is Ok ==> forall|j: int|
                0 <= j < picked->Ok_0.len() ==> 0 <= #[trigger] picked->Ok_0[j] < es.len()
            &&& picked is Ok ==> forall|j: int, k: int|
                0 <= j < k < picked->Ok_0.len() ==> (#[trigger] picked->Ok_0[j])
                    < #[trigger] picked->Ok_0[k]
        }),
{
    let t = text::trimmed(word);
    lemma_answering(es, t, es.len());
    let hits = answering(es, t, es.len());
    assert(hits.contains(i) <==> answers(es[i], t));
    if hits.contains(i) {
        assert(hits.len() > 0);
    }
}

/// A selector that is an MD5 selects the entries that were downloaded from it.
pub proof fn lemma_an_md5_selects(es: Seq<Entry>, word: Seq<char>, i: int)
    requires
        0 <= i < es.len(),
        text::trimmed(word).len() > 0,
        term::word_of(text::trimmed(word)) is None,
        model::md5_shaped(text::trimmed(word)),
    ensures
        text::ascii_lower(es[i].md5@) == text::ascii_lower(text::trimmed(word)) <==> selected(
            es,
            word,
        ) is Ok && selected(es, word)->Ok_0.contains(i),
{
    let t = text::trimmed(word);
    lemma_answering(es, t, es.len());
    let hits = answering(es, t, es.len());
    assert(hits.contains(i) <==> answers(es[i], t));
    if hits.contains(i) {
        assert(hits.len() > 0);
    }
}

/// A word of the authors of the book that was downloaded last, or of its title,
/// selects it: it is the first of the listing.
pub proof fn lemma_a_download_is_found_again(
    s: Seq<char>,
    book: Book,
    outcome: Outcome,
    at: u64,
    size_on_disk: Option<u64>,
    es: Seq<Entry>,
    word: Seq<char>,
)
    requires
        outcome.path@.len() > 0,
        views(es) == recorded(
            table_of(with_entry(recorded(s), Entry::made_of(book, outcome, at, size_on_disk))),
        ).reverse(),
        text::trimmed(word).len() > 0,
        term::word_of(text::trimmed(word)) is None,
        !model::md5_shaped(text::trimmed(word)),
        (book.authors is Some && book.authors->0@.len() > 0 && text::has(
            text::lowercased(book.authors->0@),
            text::lowercased(text::trimmed(word)),
        )) || text::has(text::lowercased(book.title@), text::lowercased(text::trimmed(word))),
    ensures
        es.len() > 0,
        selected(es, word) is Ok,
        selected(es, word)->Ok_0.contains(0),
        es[0].path@ == outcome.path@,
{
    lemma_a_download_is_remembered(s, book, outcome, at, size_on_disk);
    assert(views(es).len() == es.len());
    assert(views(es)[0] == es[0]@);
    lemma_a_word_selects(es, word, 0);
}

/// A selector that is a number is a place in the listing, counting from one.
pub proof fn lemma_a_number_selects(es: Seq<Entry>, word: Seq<char>, n: int)
    requires
        text::trimmed(word).len() > 0,
        term::word_of(text::trimmed(word)) == Some(n),
        0 <= n,
    ensures
        1 <= n <= es.len() <==> selected(es, word) is Ok,
        1 <= n <= es.len() ==> selected(es, word) == Ok::<Seq<int>, Seq<char>>(seq![n - 1]),
{
}

// ---------------------------------------------------------------------------
// Dates
// ---------------------------------------------------------------------------
//
// All dates are UTC. Recent downloads are shown relative, which is what "when
// did I get this" usually means anyway, and sidesteps the offset entirely.

pub open spec fn is_leap(y: int) -> bool {
    y % 4 == 0 && (y % 100 != 0 || y % 400 == 0)
}

pub open spec fn month_days(y: int, m: int) -> int {
    if m == 2 {
        if is_leap(y) {
            29
        } else {
            28
        }
    } else if m == 4 || m == 6 || m == 9 || m == 11 {
        30
    } else {
        31
    }
}

pub open spec fn is_date(y: int, m: int, d: int) -> bool {
    1 <= m <= 12 && 1 <= d <= month_days(y, m)
}

/// How many days of a year come before a month.
pub open spec fn days_before(y: int, m: int) -> int {
    let leap = if is_leap(y) {
        1int
    } else {
        0int
    };
    if m == 1 {
        0
    } else if m == 2 {
        31
    } else if m == 3 {
        59 + leap
    } else if m == 4 {
        90 + leap
    } else if m == 5 {
        120 + leap
    } else if m == 6 {
        151 + leap
    } else if m == 7 {
        181 + leap
    } else if m == 8 {
        212 + leap
    } else if m == 9 {
        243 + leap
    } else if m == 10 {
        273 + leap
    } else if m == 11 {
        304 + leap
    } else {
        334 + leap
    }
}

/// How many days lie between the first of January 1970 and a date.
pub open spec fn day_number(y: int, m: int, d: int) -> int {
    365 * (y - 1970) + ((y - 1) / 4 - (y - 1) / 100 + (y - 1) / 400) - 477 + days_before(y, m) + d
        - 1
}

/// The date a number of days after the first of January 1970, or before it,
/// after Howard Hinnant's algorithm: four-hundred-year eras of years that begin
/// in March.
pub open spec fn civil(days: int) -> (int, int, int) {
    let z = days + 719468;
    let era = z / 146097;
    let doe = z % 146097;
    let yoe = (doe - doe / 1460 + doe / 36524 - doe / 146096) / 365;
    let doy = doe - (365 * yoe + yoe / 4 - yoe / 100);
    let mp = (5 * doy + 2) / 153;
    let d = doy - (153 * mp + 2) / 5 + 1;
    let m = if mp < 10 {
        mp + 3
    } else {
        mp - 9
    };
    let y = yoe + era * 400;
    (if m <= 2 {
        y + 1
    } else {
        y
    }, m, d)
}

pub fn civil_from_days(days: i64) -> (r: (i64, u32, u32))
    requires
        days <= i64::MAX - 719468,
    ensures
        (r.0 as int, r.1 as int, r.2 as int) == civil(days as int),
        is_date(r.0 as int, r.1 as int, r.2 as int),
        day_number(r.0 as int, r.1 as int, r.2 as int) == days,
{
    proof {
        lemma_civil(days as int);
        lemma_year_of_era((days + 719468) % 146097);
        lemma_month_of_year(
            {
                let doe = (days + 719468) % 146097;
                let yoe = (doe - doe / 1460 + doe / 36524 - doe / 146096) / 365;
                doe - (365 * yoe + yoe / 4 - yoe / 100)
            },
        );
    }
    let z: i64 = days + 719468;
    let era: i64 = if z >= 0 {
        z / 146097
    } else {
        -((146096 - z) / 146097)
    };
    assert(era == (z as int) / 146097);
    let doe: u64 = (z - era * 146097) as u64;
    assert(doe == (z as int) % 146097);
    let yoe: u64 = (doe - doe / 1460 + doe / 36524 - doe / 146096) / 365;
    let doy: u64 = doe - (365 * yoe + yoe / 4 - yoe / 100);
    let mp: u64 = (5 * doy + 2) / 153;
    let d: u32 = (doy - (153 * mp + 2) / 5 + 1) as u32;
    let m: u32 = if mp < 10 {
        (mp + 3) as u32
    } else {
        (mp - 9) as u32
    };
    let y: i64 = yoe as i64 + era * 400;
    (if m <= 2 {
        y + 1
    } else {
        y
    }, m, d)
}

/// The year of an era that a day of the era falls in, and the day of that year,
/// counted from March.
proof fn lemma_year_of_era(doe: int)
    requires
        0 <= doe < 146097,
    ensures
        ({
            let yoe = (doe - doe / 1460 + doe / 36524 - doe / 146096) / 365;
            let doy = doe - (365 * yoe + yoe / 4 - yoe / 100);
            &&& 0 <= yoe <= 399
            &&& 0 <= doy <= 365
            &&& doy == 365 ==> (yoe + 1) % 4 == 0 && ((yoe + 1) % 100 != 0 || yoe == 399)
            &&& 365 * yoe + yoe / 4 - yoe / 100 >= 0
        }),
{
    let c = doe / 36524;
    let q = doe / 1460;
    let l = doe / 146096;
    assert(0 <= c <= 4 && 0 <= q <= 100 && 0 <= l <= 1);
}

/// The date worked out for a number of days is a date of the calendar, and the
/// one that lies that many days after the first of January 1970.
pub proof fn lemma_civil(days: int)
    ensures
        ({
            let (y, m, d) = civil(days);
            &&& is_date(y, m, d)
            &&& day_number(y, m, d) == days
            &&& days >= 0 ==> y >= 1970
        }),
{
    let z = days + 719468;
    let era = (z / 146097) as int;
    let doe = (z % 146097) as int;
    lemma_year_of_era(doe);
    let yoe = (doe - doe / 1460 + doe / 36524 - doe / 146096) / 365;
    let doy = doe - (365 * yoe + yoe / 4 - yoe / 100);
    let march = yoe + era * 400;
    lemma_march_year(yoe, era);
    lemma_month_of_year(doy);
    lemma_leap_step(march);
    lemma_leap_step(march + 1);
    assert(z == 365 * march + (march / 4 - march / 100 + march / 400) + doy);
    let (y, m, d) = civil(days);
    if m <= 2 {
        assert(y == march + 1);
        if m == 2 && d == 29 {
            assert(doy == 365);
            assert(is_leap(y));
        }
    } else {
        assert(y == march);
    }
}

/// A year of an era against the same year counted from the start.
proof fn lemma_march_year(yoe: int, era: int)
    requires
        0 <= yoe <= 399,
    ensures
        ({
            let y = yoe + era * 400;
            &&& y / 4 == yoe / 4 + 100 * era
            &&& y / 100 == yoe / 100 + 4 * era
            &&& y / 400 == era
            &&& y % 4 == yoe % 4
            &&& y % 100 == yoe % 100
            &&& y % 400 == yoe
            &&& (y + 1) % 4 == (yoe + 1) % 4
            &&& (y + 1) % 100 == (yoe + 1) % 100
            &&& yoe == 399 ==> (y + 1) % 400 == 0
        }),
{
    let y = yoe + era * 400;
    vstd::arithmetic::div_mod::lemma_fundamental_div_mod_converse(
        y,
        4,
        yoe / 4 + 100 * era,
        yoe % 4,
    );
    vstd::arithmetic::div_mod::lemma_fundamental_div_mod_converse(
        y,
        100,
        yoe / 100 + 4 * era,
        yoe % 100,
    );
    vstd::arithmetic::div_mod::lemma_fundamental_div_mod_converse(y, 400, era, yoe);
    let next = yoe + 1;
    vstd::arithmetic::div_mod::lemma_fundamental_div_mod_converse(
        y + 1,
        4,
        next / 4 + 100 * era,
        next % 4,
    );
    vstd::arithmetic::div_mod::lemma_fundamental_div_mod_converse(
        y + 1,
        100,
        next / 100 + 4 * era,
        next % 100,
    );
    if yoe == 399 {
        vstd::arithmetic::div_mod::lemma_fundamental_div_mod_converse(y + 1, 400, era + 1, 0);
    }
}

/// The leap days before a year and those before the next differ by its own.
proof fn lemma_leap_step(y: int)
    ensures
        (y / 4 - y / 100 + y / 400) - ((y - 1) / 4 - (y - 1) / 100 + (y - 1) / 400) == (if is_leap(
            y,
        ) {
            1int
        } else {
            0int
        }),
{
    assert(y / 4 - (y - 1) / 4 == (if y % 4 == 0 {
        1int
    } else {
        0int
    }));
    assert(y / 100 - (y - 1) / 100 == (if y % 100 == 0 {
        1int
    } else {
        0int
    }));
    assert(y / 400 - (y - 1) / 400 == (if y % 400 == 0 {
        1int
    } else {
        0int
    }));
    assert(y % 400 == 0 ==> y % 100 == 0);
    assert(y % 100 == 0 ==> y % 4 == 0);
}

/// Which month a day of a March-based year falls in, and which day of it.
proof fn lemma_month_of_year(doy: int)
    requires
        0 <= doy <= 365,
    ensures
        ({
            let mp = (5 * doy + 2) / 153;
            let d = doy - (153 * mp + 2) / 5 + 1;
            &&& 0 <= mp <= 11
            &&& 1 <= d <= 31
            &&& (mp == 1 || mp == 3 || mp == 6 || mp == 8) ==> d <= 30
            &&& mp == 11 ==> d <= 29
            &&& mp == 11 && d == 29 ==> doy == 365
        }),
{
    let mp = (5 * doy + 2) / 153;
    assert(0 <= mp <= 11);
}

/// `YYYY-MM-DD`.
pub open spec fn date_text(at: nat) -> Seq<char> {
    let (y, m, d) = civil(at as int / 86400);
    text::zero_padded(y as nat, 4) + "-"@ + text::zero_padded(m as nat, 2) + "-"@
        + text::zero_padded(d as nat, 2)
}

/// `YYYY-MM-DD`, in UTC.
pub fn date(at: u64) -> (r: String)
    ensures
        r@ == date_text(at as nat),
{
    let (y, m, d) = civil_from_days((at / 86400) as i64);
    proof {
        lemma_civil(at as int / 86400);
    }
    let mut out = dec_padded(y as u64, 4);
    out.append("-");
    out.append(&dec_padded(m as u64, 2));
    out.append("-");
    out.append(&dec_padded(d as u64, 2));
    out
}

/// `YYYY-MM-DD HH:MM`.
pub open spec fn timestamp_text(at: nat) -> Seq<char> {
    date_text(at) + " "@ + text::zero_padded((at % 86400) / 3600, 2) + ":"@ + text::zero_padded(
        ((at % 86400) % 3600) / 60,
        2,
    )
}

/// `YYYY-MM-DD HH:MM`, in UTC.
pub fn timestamp(at: u64) -> (r: String)
    ensures
        r@ == timestamp_text(at as nat),
{
    let seconds: u64 = at % 86400;
    let mut out = date(at);
    out.append(" ");
    out.append(&dec_padded(seconds / 3600, 2));
    out.append(":");
    out.append(&dec_padded((seconds % 3600) / 60, 2));
    out
}

/// A human answer to "when": relative for the last week, else a date, and
/// nothing when the time is unknown.
pub open spec fn when_text(at: nat, now: nat) -> Seq<char> {
    let elapsed: nat = if now >= at {
        (now - at) as nat
    } else {
        0
    };
    if at == 0 {
        seq![]
    } else if elapsed <= 90 {
        "just now"@
    } else if elapsed <= 5399 {
        text::decimal(elapsed / 60) + " min ago"@
    } else if elapsed <= 86399 {
        text::decimal(elapsed / 3600) + "h ago"@
    } else if elapsed <= 604799 {
        if elapsed / 86400 == 1 {
            "yesterday"@
        } else {
            text::decimal(elapsed / 86400) + "d ago"@
        }
    } else {
        date_text(at)
    }
}

pub fn when(at: u64, now: u64) -> (r: String)
    ensures
        r@ == when_text(at as nat, now as nat),
{
    if at == 0 {
        return String::new();
    }
    let elapsed: u64 = now.saturating_sub(at);
    if elapsed <= 90 {
        "just now".to_owned()
    } else if elapsed <= 5399 {
        let mut out = dec(elapsed / 60);
        out.append(" min ago");
        out
    } else if elapsed <= 86399 {
        let mut out = dec(elapsed / 3600);
        out.append("h ago");
        out
    } else if elapsed <= 604799 {
        let days: u64 = elapsed / 86400;
        if days == 1 {
            "yesterday".to_owned()
        } else {
            let mut out = dec(days);
            out.append("d ago");
            out
        }
    } else {
        date(at)
    }
}

} // verus!
