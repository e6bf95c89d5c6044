//! Text helpers: the character-level operations every other module builds on.
//!
//! A string is modelled by its view, a `Seq<char>`. Functions that take text
//! apart work on a `Vec<char>`, which is what [`chars_of`] and [`string_of`]
//! convert to and from.

use vstd::prelude::*;
use vstd::string::*;

verus! {

/// `String::push` appends one character and leaves the rest as it was.
pub assume_specification[ String::push ](s: &mut String, c: char)
    ensures
        final(s)@ == old(s)@.push(c),
;

/// The characters of a string, in order.
pub fn chars_of(s: &str) -> (v: Vec<char>)
    ensures
        v@ == s@,
{
    let mut v: Vec<char> = Vec::new();
    for c in it: s.chars()
        invariant
            v@ == s@.take(it.index() as int),
            it.seq() == s@,
    {
        v.push(c);
    }
    assert(s@.take(s@.len() as int) == s@);
    v
}

/// The string made of the given characters.
pub fn string_of(v: &[char]) -> (s: String)
    ensures
        s@ == v@,
{
    let mut s = String::new();
    let mut i: usize = 0;
    while i < v.len()
        invariant
            i <= v@.len(),
            s@ == v@.take(i as int),
        decreases v@.len() - i,
    {
        s.push(v[i]);
        i += 1;
        assert(v@.take(i as int) == v@.take(i - 1).push(v@[i - 1]));
    }
    assert(v@.take(v@.len() as int) == v@);
    s
}

/// Whether two strings hold the same characters.
pub fn same(a: &str, b: &str) -> (r: bool)
    ensures
        r == (a@ == b@),
{
    a.to_owned() == b.to_owned()
}


// ---------------------------------------------------------------------------
// Classes of characters
// ---------------------------------------------------------------------------

/// The characters Unicode calls white space.
pub open spec fn is_white(c: char) -> bool {
    ||| '\u{9}' <= c <= '\u{d}'
    ||| c == ' '
    ||| c == '\u{85}'
    ||| c == '\u{a0}'
    ||| c == '\u{1680}'
    ||| '\u{2000}' <= c <= '\u{200a}'
    ||| c == '\u{2028}'
    ||| c == '\u{2029}'
    ||| c == '\u{202f}'
    ||| c == '\u{205f}'
    ||| c == '\u{3000}'
}

pub fn white(c: char) -> (r: bool)
    ensures
        r == is_white(c),
{
    ('\u{9}' <= c && c <= '\u{d}') || c == ' ' || c == '\u{85}' || c == '\u{a0}' || c == '\u{1680}'
        || ('\u{2000}' <= c && c <= '\u{200a}') || c == '\u{2028}' || c == '\u{2029}' || c
        == '\u{202f}' || c == '\u{205f}' || c == '\u{3000}'
}

/// The control characters: the C0 and C1 ranges and delete.
pub open spec fn is_control(c: char) -> bool {
    c <= '\u{1f}' || '\u{7f}' <= c <= '\u{9f}'
}

pub fn control(c: char) -> (r: bool)
    ensures
        r == is_control(c),
{
    c <= '\u{1f}' || ('\u{7f}' <= c && c <= '\u{9f}')
}

pub open spec fn is_digit(c: char) -> bool {
    '0' <= c <= '9'
}

pub fn digit(c: char) -> (r: bool)
    ensures
        r == is_digit(c),
{
    '0' <= c && c <= '9'
}

pub open spec fn is_hex(c: char) -> bool {
    '0' <= c <= '9' || 'a' <= c <= 'f' || 'A' <= c <= 'F'
}

pub fn hex(c: char) -> (r: bool)
    ensures
        r == is_hex(c),
{
    ('0' <= c && c <= '9') || ('a' <= c && c <= 'f') || ('A' <= c && c <= 'F')
}

/// ASCII capitals become small letters; every other character stays.
pub open spec fn low(c: char) -> char {
    if 'A' <= c <= 'Z' {
        ((c as u8) + 32) as u8 as char
    } else {
        c
    }
}

pub fn lower_char(c: char) -> (r: char)
    ensures
        r == low(c),
{
    if 'A' <= c && c <= 'Z' {
        ((c as u8) + 32) as char
    } else {
        c
    }
}

pub open spec fn ascii_lower(s: Seq<char>) -> Seq<char> {
    Seq::new(s.len(), |i: int| low(s[i]))
}

pub fn to_ascii_lower(s: &str) -> (r: String)
    ensures
        r@ == ascii_lower(s@),
{
    let v = chars_of(s);
    let mut out: Vec<char> = Vec::new();
    let mut i: usize = 0;
    while i < v.len()
        invariant
            i <= v@.len(),
            out@.len() == i,
            forall|k: int| 0 <= k < i ==> out@[k] == low(v@[k]),
        decreases v@.len() - i,
    {
        out.push(lower_char(v[i]));
        i += 1;
    }
    assert(out@ == ascii_lower(s@));
    string_of(&out)
}

/// Whether two strings differ at most in the case of ASCII letters.
pub fn same_ignoring_case(a: &str, b: &str) -> (r: bool)
    ensures
        r == (ascii_lower(a@) == ascii_lower(b@)),
{
    to_ascii_lower(a) == to_ascii_lower(b)
}

/// The Unicode lower-case form of a string, as `str::to_lowercase` gives it.
pub uninterp spec fn lowercased(s: Seq<char>) -> Seq<char>;

/// `str::to_lowercase`: the lower-case form of the whole string. Which
/// characters it maps to which is Unicode's table and is left to the name.
#[verifier::external_body]
pub(crate) fn to_lower(s: &str) -> (r: String)
    ensures
        r@ == lowercased(s@),
{
    s.to_lowercase()
}

// ---------------------------------------------------------------------------
// Finding things
// ---------------------------------------------------------------------------

/// Where `c` first stands at or after `from`; the length when nowhere.
pub open spec fn first_at(s: Seq<char>, c: char, from: int) -> int
    decreases s.len() - from,
{
    if from >= s.len() {
        s.len() as int
    } else if s[from] == c {
        from
    } else {
        first_at(s, c, from + 1)
    }
}

pub fn find_char(v: &[char], c: char, from: usize) -> (r: usize)
    requires
        from <= v@.len(),
    ensures
        r == first_at(v@, c, from as int),
        from <= r <= v@.len(),
        r < v@.len() ==> v@[r as int] == c,
{
    let mut i: usize = from;
    while i < v.len()
        invariant
            from <= i <= v@.len(),
            first_at(v@, c, from as int) == first_at(v@, c, i as int),
        decreases v@.len() - i,
    {
        if v[i] == c {
            return i;
        }
        i += 1;
    }
    i
}

pub proof fn lemma_first_at(s: Seq<char>, c: char, from: int)
    requires
        0 <= from <= s.len(),
    ensures
        from <= first_at(s, c, from) <= s.len(),
        first_at(s, c, from) < s.len() ==> s[first_at(s, c, from)] == c,
        forall|k: int| from <= k < first_at(s, c, from) ==> s[k] != c,
    decreases s.len() - from,
{
    if from < s.len() && s[from] != c {
        lemma_first_at(s, c, from + 1);
    }
}

/// Whether `p` stands in `s` at position `at`.
pub open spec fn stands_at(s: Seq<char>, p: Seq<char>, at: int) -> bool {
    0 <= at && at + p.len() <= s.len() && s.subrange(at, at + p.len()) == p
}

/// Where `p` first stands in `s` at or after `from`, if it does.
pub open spec fn find_from(s: Seq<char>, p: Seq<char>, from: int) -> Option<int>
    decreases s.len() + 1 - from,
{
    if from > s.len() {
        None
    } else if stands_at(s, p, from) {
        Some(from)
    } else {
        find_from(s, p, from + 1)
    }
}

pub open spec fn has_prefix(s: Seq<char>, p: Seq<char>) -> bool {
    stands_at(s, p, 0)
}

pub open spec fn has_suffix(s: Seq<char>, p: Seq<char>) -> bool {
    p.len() <= s.len() && s.subrange(s.len() - p.len(), s.len() as int) == p
}

pub open spec fn has(s: Seq<char>, p: Seq<char>) -> bool {
    find_from(s, p, 0) is Some
}

pub fn at(v: &[char], p: &[char], i: usize) -> (r: bool)
    ensures
        r == stands_at(v@, p@, i as int),
{
    if i > v.len() || p.len() > v.len() - i {
        return false;
    }
    let n: usize = v.len();
    let mut k: usize = 0;
    while k < p.len()
        invariant
            k <= p@.len(),
            i + p@.len() <= v@.len(),
            n == v@.len(),
            forall|j: int| 0 <= j < k ==> v@[i + j] == p@[j],
        decreases p@.len() - k,
    {
        if v[i + k] != p[k] {
            assert(v@.subrange(i as int, i + p@.len())[k as int] != p@[k as int]);
            return false;
        }
        k += 1;
    }
    assert(v@.subrange(i as int, i + p@.len()) == p@);
    true
}

pub fn find_in(v: &[char], p: &[char], from: usize) -> (r: Option<usize>)
    ensures
        find_from(v@, p@, from as int) == (match r {
            Some(i) => Some(i as int),
            None => None,
        }),
        r is Some ==> from <= r->0 && r->0 + p@.len() <= v@.len(),
{
    let n: usize = v.len();
    if from > n {
        return None;
    }
    let mut i: usize = from;
    loop
        invariant
            from <= i <= n,
            n == v@.len(),
            find_from(v@, p@, from as int) == find_from(v@, p@, i as int),
        decreases n - i,
    {
        if at(v, p, i) {
            return Some(i);
        }
        if i == n {
            assert(find_from(v@, p@, i + 1) is None);
            return None;
        }
        i += 1;
    }
}

pub fn starts_with(s: &str, p: &str) -> (r: bool)
    ensures
        r == has_prefix(s@, p@),
{
    let v = chars_of(s);
    let w = chars_of(p);
    at(&v, &w, 0)
}

pub fn ends_with(s: &str, p: &str) -> (r: bool)
    ensures
        r == has_suffix(s@, p@),
{
    let v = chars_of(s);
    let w = chars_of(p);
    if w.len() > v.len() {
        return false;
    }
    let from: usize = v.len() - w.len();
    assert(from + w@.len() == v@.len());
    at(&v, &w, from)
}

pub fn contains(s: &str, p: &str) -> (r: bool)
    ensures
        r == has(s@, p@),
{
    let v = chars_of(s);
    let w = chars_of(p);
    find_in(&v, &w, 0).is_some()
}

/// What follows `p`, where the string begins with it.
pub open spec fn after_prefix(s: Seq<char>, p: Seq<char>) -> Option<Seq<char>> {
    if has_prefix(s, p) {
        Some(s.subrange(p.len() as int, s.len() as int))
    } else {
        None
    }
}

pub fn strip_prefix(s: &str, p: &str) -> (r: Option<String>)
    ensures
        r.deep_view() == after_prefix(s@, p@),
{
    let v = chars_of(s);
    let w = chars_of(p);
    if at(&v, &w, 0) {
        let rest = string_of(cut_out(&v, w.len(), v.len()));
        assert(rest.deep_view() == s@.subrange(p@.len() as int, s@.len() as int));
        Some(rest)
    } else {
        None
    }
}

/// A part of a slice of characters.
pub fn cut_out(v: &[char], from: usize, to: usize) -> (r: &[char])
    requires
        from <= to <= v@.len(),
    ensures
        r@ == v@.subrange(from as int, to as int),
{
    vstd::slice::slice_subrange(v, from, to)
}

// ---------------------------------------------------------------------------
// Trimming
// ---------------------------------------------------------------------------

/// The first position at or after `from` that holds no white space.
pub open spec fn white_end(s: Seq<char>, from: int) -> int
    decreases s.len() - from,
{
    if 0 <= from < s.len() && is_white(s[from]) {
        white_end(s, from + 1)
    } else {
        from
    }
}

/// The last position down to `lo` before which no white space stands.
pub open spec fn white_start(s: Seq<char>, lo: int, hi: int) -> int
    decreases hi - lo,
{
    if lo < hi <= s.len() && is_white(s[hi - 1]) {
        white_start(s, lo, hi - 1)
    } else {
        hi
    }
}

/// The text without the white space around it.
pub open spec fn trimmed(s: Seq<char>) -> Seq<char> {
    let a = white_end(s, 0);
    s.subrange(a, white_start(s, a, s.len() as int))
}

/// The text without the white space after it.
pub open spec fn trimmed_end(s: Seq<char>) -> Seq<char> {
    s.subrange(0, white_start(s, 0, s.len() as int))
}

fn skip_white(v: &[char]) -> (r: usize)
    ensures
        r == white_end(v@, 0),
        r <= v@.len(),
{
    let mut i: usize = 0;
    while i < v.len() && white(v[i])
        invariant
            i <= v@.len(),
            white_end(v@, 0) == white_end(v@, i as int),
        decreases v@.len() - i,
    {
        i += 1;
    }
    i
}

fn back_white(v: &[char], lo: usize) -> (r: usize)
    requires
        lo <= v@.len(),
    ensures
        r == white_start(v@, lo as int, v@.len() as int),
        lo <= r <= v@.len(),
{
    let mut i: usize = v.len();
    while lo < i && white(v[i - 1])
        invariant
            lo <= i <= v@.len(),
            white_start(v@, lo as int, v@.len() as int) == white_start(v@, lo as int, i as int),
        decreases i,
    {
        i -= 1;
    }
    i
}

pub fn trim(s: &str) -> (r: String)
    ensures
        r@ == trimmed(s@),
{
    let v = chars_of(s);
    let a = skip_white(&v);
    let b = back_white(&v, a);
    string_of(cut_out(&v, a, b))
}

pub fn trim_end(s: &str) -> (r: String)
    ensures
        r@ == trimmed_end(s@),
        r@.len() <= s@.len(),
{
    let v = chars_of(s);
    let b = back_white(&v, 0);
    string_of(cut_out(&v, 0, b))
}

/// The first position at or after `from` that does not hold `c`.
pub open spec fn run_end(s: Seq<char>, c: char, from: int) -> int
    decreases s.len() - from,
{
    if 0 <= from < s.len() && s[from] == c {
        run_end(s, c, from + 1)
    } else {
        from
    }
}

/// The last position down to `lo` before which `c` does not stand.
pub open spec fn run_start(s: Seq<char>, c: char, lo: int, hi: int) -> int
    decreases hi - lo,
{
    if lo < hi <= s.len() && s[hi - 1] == c {
        run_start(s, c, lo, hi - 1)
    } else {
        hi
    }
}

/// The text without any `c` at either end.
pub open spec fn stripped_of(s: Seq<char>, c: char) -> Seq<char> {
    let a = run_end(s, c, 0);
    s.subrange(a, run_start(s, c, a, s.len() as int))
}

/// The text without any `c` at its start.
pub open spec fn stripped_start(s: Seq<char>, c: char) -> Seq<char> {
    s.subrange(run_end(s, c, 0), s.len() as int)
}

fn skip_run(v: &[char], c: char) -> (r: usize)
    ensures
        r == run_end(v@, c, 0),
        r <= v@.len(),
{
    let mut i: usize = 0;
    while i < v.len() && v[i] == c
        invariant
            i <= v@.len(),
            run_end(v@, c, 0) == run_end(v@, c, i as int),
        decreases v@.len() - i,
    {
        i += 1;
    }
    i
}

pub fn trim_matches(s: &str, c: char) -> (r: String)
    ensures
        r@ == stripped_of(s@, c),
{
    let v = chars_of(s);
    let a = skip_run(&v, c);
    let mut i: usize = v.len();
    while a < i && v[i - 1] == c
        invariant
            a <= i <= v@.len(),
            run_start(v@, c, a as int, v@.len() as int) == run_start(v@, c, a as int, i as int),
        decreases i,
    {
        i -= 1;
    }
    string_of(cut_out(&v, a, i))
}

pub fn trim_start_matches(s: &str, c: char) -> (r: String)
    ensures
        r@ == stripped_start(s@, c),
{
    let v = chars_of(s);
    let a = skip_run(&v, c);
    string_of(cut_out(&v, a, v.len()))
}

// ---------------------------------------------------------------------------
// Splitting and joining
// ---------------------------------------------------------------------------

/// The pieces between one separator and the next, from position `from` on.
pub open spec fn pieces(s: Seq<char>, sep: char, from: int) -> Seq<Seq<char>>
    decreases s.len() - from,
    when 0 <= from <= s.len()
    via pieces_terminate
{
    let e = first_at(s, sep, from);
    if e >= s.len() {
        seq![s.subrange(from, s.len() as int)]
    } else {
        seq![s.subrange(from, e)] + pieces(s, sep, e + 1)
    }
}

#[via_fn]
proof fn pieces_terminate(s: Seq<char>, sep: char, from: int) {
    lemma_first_at(s, sep, from);
}

/// A list of strings, each taken by its characters.
pub open spec fn texts(v: Seq<String>) -> Seq<Seq<char>> {
    Seq::new(v.len(), |i: int| v[i]@)
}

/// A list of strings with one more at its end.
pub broadcast proof fn lemma_texts_push(v: Seq<String>, s: String)
    ensures
        #[trigger] texts(v.push(s)) == texts(v).push(s@),
{
    assert(texts(v.push(s)) =~= texts(v).push(s@));
}

/// One list of strings after another.
pub broadcast proof fn lemma_texts_concat(a: Seq<String>, b: Seq<String>)
    ensures
        #[trigger] texts(a + b) == texts(a) + texts(b),
{
    assert(texts(a + b) =~= texts(a) + texts(b));
}

pub fn split(s: &str, sep: char) -> (r: Vec<String>)
    ensures
        texts(r@) == pieces(s@, sep, 0),
{
    let v = chars_of(s);
    let mut out: Vec<String> = Vec::new();
    let mut from: usize = 0;
    loop
        invariant
            from <= v@.len(),
            v@ == s@,
            texts(out@) + pieces(v@, sep, from as int) == pieces(v@, sep, 0),
        decreases v@.len() - from,
    {
        let e = find_char(&v, sep, from);
        let piece = string_of(cut_out(&v, from, e));
        let ghost before = texts(out@);
        out.push(piece);
        assert(texts(out@) == before.push(v@.subrange(from as int, e as int)));
        if e == v.len() {
            assert(texts(out@) == before + pieces(v@, sep, from as int));
            return out;
        }
        assert(texts(out@) + pieces(v@, sep, e + 1) == before + pieces(v@, sep, from as int));
        from = e + 1;
    }
}

/// The last piece after splitting at `sep`.
pub open spec fn last_piece(s: Seq<char>, sep: char) -> Seq<char> {
    pieces(s, sep, 0).last()
}

pub proof fn lemma_pieces_nonempty(s: Seq<char>, sep: char, from: int)
    requires
        0 <= from <= s.len(),
    ensures
        pieces(s, sep, from).len() >= 1,
{
    lemma_first_at(s, sep, from);
}

/// The items of a comma-separated list: trimmed, with empty ones left out.
pub open spec fn listed(ps: Seq<Seq<char>>) -> Seq<Seq<char>>
    decreases ps.len(),
{
    if ps.len() == 0 {
        seq![]
    } else {
        let rest = listed(ps.drop_last());
        if trimmed(ps.last()).len() == 0 {
            rest
        } else {
            rest.push(trimmed(ps.last()))
        }
    }
}

pub open spec fn list_items(s: Seq<char>) -> Seq<Seq<char>> {
    listed(pieces(s, ',', 0))
}

pub fn split_list(s: &str) -> (r: Vec<String>)
    ensures
        texts(r@) == list_items(s@),
{
    let parts = split(s, ',');
    let mut out: Vec<String> = Vec::new();
    let mut i: usize = 0;
    assert(texts(parts@).take(0) =~= seq![]);
    assert(texts(out@) =~= seq![]);
    while i < parts.len()
        invariant
            i <= parts@.len(),
            texts(out@) == listed(texts(parts@).take(i as int)),
        decreases parts@.len() - i,
    {
        let item = trim(&parts[i]);
        let ghost before = texts(out@);
        proof {
            let t = texts(parts@).take(i + 1);
            assert(t.drop_last() =~= texts(parts@).take(i as int));
            assert(t.last() == parts@[i as int]@);
        }
        if !item.as_str().is_empty() {
            out.push(item);
            assert(texts(out@) =~= before.push(trimmed(parts@[i as int]@)));
        }
        i += 1;
    }
    assert(texts(parts@).take(parts@.len() as int) =~= texts(parts@));
    out
}

/// The text before and after the first `sep`, where there is one.
pub open spec fn cut(s: Seq<char>, sep: char) -> Option<(Seq<char>, Seq<char>)> {
    let e = first_at(s, sep, 0);
    if e >= s.len() {
        None
    } else {
        Some((s.subrange(0, e), s.subrange(e + 1, s.len() as int)))
    }
}

pub fn split_once(s: &str, sep: char) -> (r: Option<(String, String)>)
    ensures
        cut(s@, sep) == (match r {
            Some((a, b)) => Some((a@, b@)),
            None => None,
        }),
{
    let v = chars_of(s);
    let e = find_char(&v, sep, 0);
    if e == v.len() {
        None
    } else {
        Some((string_of(cut_out(&v, 0, e)), string_of(cut_out(&v, e + 1, v.len()))))
    }
}

/// The lines of a text from position `from` on: what stands between line
/// feeds, without the carriage return that may come before one. A line feed at
/// the very end starts no further line.
pub open spec fn lines_from(s: Seq<char>, from: int) -> Seq<Seq<char>>
    decreases s.len() - from,
    when 0 <= from <= s.len()
    via lines_terminate
{
    let e = first_at(s, '\n', from);
    if from >= s.len() {
        seq![]
    } else if e >= s.len() {
        seq![s.subrange(from, s.len() as int)]
    } else if from < e && s[e - 1] == '\r' {
        seq![s.subrange(from, e - 1)] + lines_from(s, e + 1)
    } else {
        seq![s.subrange(from, e)] + lines_from(s, e + 1)
    }
}

#[via_fn]
proof fn lines_terminate(s: Seq<char>, from: int) {
    lemma_first_at(s, '\n', from);
}

pub open spec fn lines_of(s: Seq<char>) -> Seq<Seq<char>> {
    lines_from(s, 0)
}

pub fn lines(s: &str) -> (r: Vec<String>)
    ensures
        texts(r@) == lines_of(s@),
{
    let v = chars_of(s);
    let mut out: Vec<String> = Vec::new();
    let mut from: usize = 0;
    assert(texts(out@) + lines_from(v@, 0) =~= lines_from(v@, 0));
    while from < v.len()
        invariant
            from <= v@.len(),
            v@ == s@,
            texts(out@) + lines_from(v@, from as int) == lines_from(v@, 0),
        decreases v@.len() - from,
    {
        let e = find_char(&v, '\n', from);
        let ghost before = texts(out@);
        if e == v.len() {
            out.push(string_of(cut_out(&v, from, e)));
            assert(texts(out@) == before + lines_from(v@, from as int));
            return out;
        }
        let to: usize = if from < e && v[e - 1] == '\r' {
            e - 1
        } else {
            e
        };
        out.push(string_of(cut_out(&v, from, to)));
        assert(texts(out@) == before.push(v@.subrange(from as int, to as int)));
        assert(texts(out@) + lines_from(v@, e + 1) == before + lines_from(v@, from as int));
        from = e + 1;
    }
    assert(texts(out@) + lines_from(v@, from as int) =~= texts(out@));
    out
}

/// The strings one after the other with `sep` between them.
pub open spec fn joined(v: Seq<Seq<char>>, sep: Seq<char>) -> Seq<char>
    decreases v.len(),
{
    if v.len() == 0 {
        seq![]
    } else if v.len() == 1 {
        v[0]
    } else {
        joined(v.drop_last(), sep) + sep + v.last()
    }
}

pub fn join(v: &Vec<String>, sep: &str) -> (r: String)
    ensures
        r@ == joined(texts(v@), sep@),
{
    let mut out = String::new();
    let mut i: usize = 0;
    assert(texts(v@).take(0) =~= seq![]);
    while i < v.len()
        invariant
            i <= v@.len(),
            out@ == joined(texts(v@).take(i as int), sep@),
        decreases v@.len() - i,
    {
        proof {
            let t = texts(v@).take(i + 1);
            assert(t.drop_last() =~= texts(v@).take(i as int));
            assert(t.last() == v@[i as int]@);
            if i == 0 {
                assert(t[0] == v@[0]@);
                assert(seq![] + v@[0]@ =~= v@[0]@);
            }
        }
        if i > 0 {
            out.append(sep);
        }
        out.append(&v[i]);
        i += 1;
    }
    assert(texts(v@).take(v@.len() as int) =~= texts(v@));
    out
}

/// `n` copies of one character.
pub open spec fn repeated(c: char, n: int) -> Seq<char> {
    Seq::new(if n < 0 { 0 } else { n as nat }, |i: int| c)
}

pub fn repeat(c: char, n: usize) -> (r: String)
    ensures
        r@ == repeated(c, n as int),
{
    let mut out = String::new();
    let mut i: usize = 0;
    while i < n
        invariant
            i <= n,
            out@ == repeated(c, i as int),
        decreases n - i,
    {
        out.push(c);
        i += 1;
        assert(out@ =~= repeated(c, i as int));
    }
    out
}

/// One string after the other.
pub fn concat(a: &str, b: &str) -> (r: String)
    ensures
        r@ == a@ + b@,
{
    let mut out = a.to_owned();
    out.append(b);
    out
}

// ---------------------------------------------------------------------------
// Numbers
// ---------------------------------------------------------------------------

pub open spec fn digit_char(d: int) -> char {
    (48 + d) as u8 as char
}

pub fn char_of_digit(d: u64) -> (c: char)
    requires
        d < 10,
    ensures
        c == digit_char(d as int),
        is_digit(c),
{
    ((48 + d) as u8) as char
}

/// A number in decimal, without leading zeros.
pub open spec fn decimal(n: nat) -> Seq<char>
    decreases n,
{
    if n < 10 {
        seq![digit_char(n as int)]
    } else {
        decimal(n / 10).push(digit_char((n % 10) as int))
    }
}

pub fn dec(n: u64) -> (r: String)
    ensures
        r@ == decimal(n as nat),
    decreases n,
{
    if n < 10 {
        let mut s = String::new();
        s.push(char_of_digit(n));
        s
    } else {
        let mut s = dec(n / 10);
        s.push(char_of_digit(n % 10));
        s
    }
}

/// A number in decimal with zeros in front up to the given width.
pub open spec fn zero_padded(n: nat, width: int) -> Seq<char> {
    repeated('0', width - decimal(n).len()) + decimal(n)
}

pub fn dec_padded(n: u64, width: usize) -> (r: String)
    ensures
        r@ == zero_padded(n as nat, width as int),
{
    let digits = dec(n);
    let len = digits.as_str().unicode_len();
    let mut out = repeat('0', if width > len { width - len } else { 0 });
    assert(out@ == repeated('0', width - len));
    out.append(&digits);
    out
}

/// The value of a string of decimal digits.
pub open spec fn dec_value(s: Seq<char>) -> nat
    decreases s.len(),
{
    if s.len() == 0 {
        0
    } else {
        dec_value(s.drop_last()) * 10 + (s.last() as u32 - 48) as nat
    }
}

pub open spec fn all_digits(s: Seq<char>) -> bool {
    forall|i: int| 0 <= i < s.len() ==> is_digit(#[trigger] s[i])
}

/// The number a string of decimal digits stands for. One plus sign may come
/// first; anything else, and nothing at all, is no number.
pub open spec fn number(s: Seq<char>) -> Option<nat> {
    let t = if s.len() > 0 && s[0] == '+' {
        s.subrange(1, s.len() as int)
    } else {
        s
    };
    if t.len() > 0 && all_digits(t) {
        Some(dec_value(t))
    } else {
        None
    }
}

proof fn lemma_dec_value_grows(s: Seq<char>, k: int)
    requires
        0 <= k <= s.len(),
    ensures
        dec_value(s.take(k)) <= dec_value(s),
    decreases s.len() - k,
{
    if k < s.len() {
        lemma_dec_value_grows(s, k + 1);
        assert(s.take(k + 1).drop_last() =~= s.take(k));
    } else {
        assert(s.take(k) =~= s);
    }
}

/// The number a text stands for, unless it is none or larger than `max`.
pub fn parse_u64(s: &str, max: u64) -> (r: Option<u64>)
    ensures
        r is Some <==> number(s@) is Some && number(s@)->0 <= max,
        r is Some ==> r->0 == number(s@)->0,
{
    let v = chars_of(s);
    let from: usize = if v.len() > 0 && v[0] == '+' {
        1
    } else {
        0
    };
    let t = cut_out(&v, from, v.len());
    assert(from == 0 ==> t@ =~= s@);
    if t.len() == 0 {
        return None;
    }
    let mut n: u64 = 0;
    let mut i: usize = 0;
    assert(t@.take(0) =~= seq![]);
    while i < t.len()
        invariant
            i <= t@.len(),
            n <= max,
            n == dec_value(t@.take(i as int)),
            forall|k: int| 0 <= k < i ==> is_digit(#[trigger] t@[k]),
            t@.len() > 0,
            number(s@) == (if all_digits(t@) {
                Some(dec_value(t@))
            } else {
                None
            }),
        decreases t@.len() - i,
    {
        let c = t[i];
        if !digit(c) {
            assert(!is_digit(t@[i as int]));
            return None;
        }
        let d: u64 = (c as u64) - 48;
        proof {
            assert(t@.take(i + 1).drop_last() =~= t@.take(i as int));
            assert(t@.take(i + 1).last() == c);
            lemma_dec_value_grows(t@, i + 1);
        }
        if n > max / 10 {
            assert(n * 10 > max);
            return None;
        }
        if d > max || n * 10 > max - d {
            return None;
        }
        n = n * 10 + d;
        i += 1;
    }
    assert(t@.take(t@.len() as int) =~= t@);
    Some(n)
}

pub fn parse_usize(s: &str) -> (r: Option<usize>)
    ensures
        r is Some <==> number(s@) is Some && number(s@)->0 <= usize::MAX,
        r is Some ==> r->0 == number(s@)->0,
{
    match parse_u64(s, usize::MAX as u64) {
        Some(n) => Some(n as usize),
        None => None,
    }
}

// ---------------------------------------------------------------------------
// Copies
// ---------------------------------------------------------------------------

pub fn copy_opt(s: &Option<String>) -> (r: Option<String>)
    ensures
        r == *s,
{
    match s {
        Some(x) => Some(x.clone()),
        None => None,
    }
}

pub fn copy_all(v: &Vec<String>) -> (r: Vec<String>)
    ensures
        r@ == v@,
{
    let mut out: Vec<String> = Vec::new();
    let mut i: usize = 0;
    while i < v.len()
        invariant
            i <= v@.len(),
            out@ == v@.take(i as int),
        decreases v@.len() - i,
    {
        out.push(v[i].clone());
        i += 1;
        assert(v@.take(i as int) == v@.take(i - 1).push(v@[i - 1]));
    }
    assert(v@.take(v@.len() as int) == v@);
    out
}

// ---------------------------------------------------------------------------
// Laws
// ---------------------------------------------------------------------------

pub open spec fn free_of(s: Seq<char>, c: char) -> bool {
    forall|i: int| 0 <= i < s.len() ==> #[trigger] s[i] != c
}

/// A text without separators is a single piece, whatever comes before it.
proof fn lemma_pieces_tail(a: Seq<char>, b: Seq<char>, sep: char, from: int)
    requires
        0 <= from <= a.len(),
        free_of(b, sep),
    ensures
        pieces(a + seq![sep] + b, sep, from) == pieces(a, sep, from) + seq![b],
    decreases a.len() - from,
{
    let w = a + seq![sep] + b;
    lemma_first_at(a, sep, from);
    lemma_first_at(w, sep, from);
    let e = first_at(a, sep, from);
    let f = first_at(w, sep, from);
    assert(w[a.len() as int] == sep);
    if e < a.len() {
        assert(w[e] == a[e]);
        if f < e {
            assert(w[f] == a[f]);
        }
        assert(f == e);
        lemma_pieces_tail(a, b, sep, e + 1);
        assert(w.subrange(from, e) =~= a.subrange(from, e));
        assert(pieces(w, sep, from) =~= pieces(a, sep, from) + seq![b]);
    } else {
        if f < a.len() {
            assert(w[f] == a[f]);
        }
        assert(f == a.len());
        assert(w.subrange(from, f) =~= a.subrange(from, a.len() as int));
        lemma_first_at(w, sep, f + 1);
        let g = first_at(w, sep, f + 1);
        if g < w.len() {
            assert(w[g] == b[g - f - 1]);
        }
        assert(w.subrange(f + 1, w.len() as int) =~= b);
        assert(pieces(w, sep, f + 1) =~= seq![b]);
        assert(pieces(w, sep, from) =~= pieces(a, sep, from) + seq![b]);
    }
}

/// Splitting at a separator undoes joining with it, where no part holds one.
pub proof fn lemma_pieces_of_joined(v: Seq<Seq<char>>, sep: char)
    requires
        v.len() >= 1,
        forall|i: int| 0 <= i < v.len() ==> free_of(#[trigger] v[i], sep),
    ensures
        pieces(joined(v, seq![sep]), sep, 0) == v,
    decreases v.len(),
{
    if v.len() == 1 {
        lemma_first_at(v[0], sep, 0);
        assert(v[0].subrange(0, v[0].len() as int) =~= v[0]);
        assert(pieces(v[0], sep, 0) =~= v);
    } else {
        let head = v.drop_last();
        assert forall|i: int| 0 <= i < head.len() implies free_of(#[trigger] head[i], sep) by {
            assert(head[i] == v[i]);
        }
        lemma_pieces_of_joined(head, sep);
        assert(free_of(v[v.len() - 1], sep));
        lemma_pieces_tail(joined(head, seq![sep]), v.last(), sep, 0);
        assert(head + seq![v.last()] =~= v);
    }
}

/// Reading a number back from its decimal form gives the number.
pub proof fn lemma_number_of_decimal(n: nat)
    ensures
        decimal(n).len() >= 1,
        all_digits(decimal(n)),
        dec_value(decimal(n)) == n,
        number(decimal(n)) == Some(n),
    decreases n,
{
    if n < 10 {
        let d = digit_char(n as int);
        assert(seq![d].drop_last() =~= seq![]);
        assert(dec_value(seq![d].drop_last()) == 0);
        assert(decimal(n) =~= seq![d]);
        assert(decimal(n).last() == d);
    } else {
        lemma_number_of_decimal(n / 10);
        let head = decimal(n / 10);
        let d = digit_char((n % 10) as int);
        assert(head.push(d).drop_last() =~= head);
        assert forall|i: int| 0 <= i < head.push(d).len() implies is_digit(
            #[trigger] head.push(d)[i],
        ) by {
            if i < head.len() {
                assert(head.push(d)[i] == head[i]);
            }
        }
    }
    assert(is_digit(decimal(n)[0]));
}

/// Lines one after the other, each with its line feed.
pub open spec fn line_file(ls: Seq<Seq<char>>) -> Seq<char>
    decreases ls.len(),
{
    if ls.len() == 0 {
        seq![]
    } else {
        line_file(ls.drop_last()) + ls.last() + seq!['\n']
    }
}

proof fn lemma_lines_tail(a: Seq<char>, b: Seq<char>, from: int)
    requires
        0 <= from <= a.len(),
        a.len() == 0 || a.last() == '\n',
        free_of(b, '\n'),
        free_of(b, '\r'),
    ensures
        lines_from(a + b + seq!['\n'], from) == lines_from(a, from) + seq![b],
    decreases a.len() - from,
{
    let w = a + b + seq!['\n'];
    lemma_first_at(a, '\n', from);
    lemma_first_at(w, '\n', from);
    let e = first_at(a, '\n', from);
    let f = first_at(w, '\n', from);
    if from < a.len() {
        assert(a[a.len() - 1] == '\n');
        assert(e < a.len());
        assert(w[e] == a[e]);
        if f < e {
            assert(w[f] == a[f]);
        }
        assert(f == e);
        if from < e {
            assert(w[e - 1] == a[e - 1]);
        }
        lemma_lines_tail(a, b, e + 1);
        assert(w.subrange(from, e) =~= a.subrange(from, e));
        if from < e {
            assert(w.subrange(from, e - 1) =~= a.subrange(from, e - 1));
        }
        assert(lines_from(w, from) =~= lines_from(a, from) + seq![b]);
    } else {
        let n = a.len() + b.len();
        assert(w[n as int] == '\n');
        if f < n {
            assert(w[f] == b[f - a.len()]);
        }
        assert(f == n);
        if from < f {
            assert(w[f - 1] == b[f - 1 - a.len()]);
        }
        assert(w.subrange(from, f) =~= b);
        assert(lines_from(w, f + 1) =~= seq![]);
        assert(lines_from(a, from) =~= seq![]);
        assert(lines_from(w, from) =~= lines_from(a, from) + seq![b]);
    }
}

/// Reading a file of lines gives the lines, where none holds a line break.
pub proof fn lemma_lines_of_file(ls: Seq<Seq<char>>)
    requires
        forall|i: int|
            0 <= i < ls.len() ==> free_of(#[trigger] ls[i], '\n') && free_of(ls[i], '\r'),
    ensures
        lines_of(line_file(ls)) == ls,
        ls.len() > 0 ==> line_file(ls).len() > 0 && line_file(ls).last() == '\n',
    decreases ls.len(),
{
    if ls.len() == 0 {
        assert(lines_of(line_file(ls)) =~= ls);
    } else {
        let head = ls.drop_last();
        assert forall|i: int| 0 <= i < head.len() implies free_of(#[trigger] head[i], '\n')
            && free_of(head[i], '\r') by {
            assert(head[i] == ls[i]);
        }
        lemma_lines_of_file(head);
        assert(free_of(ls[ls.len() - 1], '\n') && free_of(ls[ls.len() - 1], '\r'));
        lemma_lines_tail(line_file(head), ls.last(), 0);
        assert(head + seq![ls.last()] =~= ls);
    }
}

proof fn lemma_white_start_is(s: Seq<char>, k: int, hi: int)
    requires
        0 <= k <= hi <= s.len(),
        k == 0 || !is_white(s[k - 1]),
        forall|i: int| k <= i < hi ==> is_white(#[trigger] s[i]),
    ensures
        white_start(s, 0, hi) == k,
    decreases hi,
{
    if k < hi {
        lemma_white_start_is(s, k, hi - 1);
    }
}

proof fn lemma_white_start_end(s: Seq<char>, hi: int)
    requires
        0 <= hi <= s.len(),
    ensures
        ({
            let k = white_start(s, 0, hi);
            &&& 0 <= k <= hi
            &&& k == 0 || !is_white(s[k - 1])
            &&& forall|i: int| k <= i < hi ==> is_white(#[trigger] s[i])
        }),
    decreases hi,
{
    if hi > 0 && is_white(s[hi - 1]) {
        lemma_white_start_end(s, hi - 1);
    }
}

/// The text without the white space after it is a beginning of it that ends in
/// no white space, and only white space follows.
pub proof fn lemma_trimmed_end(s: Seq<char>)
    ensures
        ({
            let t = trimmed_end(s);
            &&& t.len() <= s.len()
            &&& t == s.take(t.len() as int)
            &&& t.len() == 0 || !is_white(t.last())
            &&& forall|i: int| t.len() <= i < s.len() ==> is_white(#[trigger] s[i])
        }),
{
    lemma_white_start_end(s, s.len() as int);
    assert(trimmed_end(s) =~= s.take(trimmed_end(s).len() as int));
}

/// Of two texts one after the other, the white space is taken off the second;
/// and off the first only where nothing else is left of the second.
pub proof fn lemma_trimmed_end_concat(a: Seq<char>, b: Seq<char>)
    ensures
        trimmed_end(a + b) == (if trimmed_end(b).len() == 0 {
            trimmed_end(a)
        } else {
            a + trimmed_end(b)
        }),
{
    let w = a + b;
    lemma_trimmed_end(a);
    lemma_trimmed_end(b);
    let k = if trimmed_end(b).len() == 0 {
        trimmed_end(a).len()
    } else {
        a.len() + trimmed_end(b).len()
    };
    assert forall|i: int| k <= i < w.len() implies is_white(#[trigger] w[i]) by {
        if i < a.len() {
            assert(w[i] == a[i]);
        } else {
            assert(w[i] == b[i - a.len()]);
        }
    }
    lemma_white_start_is(w, k as int, w.len() as int);
    assert(trimmed_end(w) =~= (if trimmed_end(b).len() == 0 {
        trimmed_end(a)
    } else {
        a + trimmed_end(b)
    }));
}

proof fn lemma_white_end_range(s: Seq<char>, lo: int)
    requires
        0 <= lo <= s.len(),
    ensures
        lo <= white_end(s, lo) <= s.len(),
    decreases s.len() - lo,
{
    if lo < s.len() && is_white(s[lo]) {
        lemma_white_end_range(s, lo + 1);
    }
}

proof fn lemma_white_start_range(s: Seq<char>, lo: int, hi: int)
    requires
        0 <= lo <= hi <= s.len(),
    ensures
        lo <= white_start(s, lo, hi) <= hi,
    decreases hi - lo,
{
    if lo < hi && is_white(s[hi - 1]) {
        lemma_white_start_range(s, lo, hi - 1);
    }
}

/// What is left without the white space around is a part of the text.
pub proof fn lemma_trimmed_range(s: Seq<char>)
    ensures
        ({
            let a = white_end(s, 0);
            &&& 0 <= a <= white_start(s, a, s.len() as int) <= s.len()
        }),
{
    lemma_white_end_range(s, 0);
    lemma_white_start_range(s, white_end(s, 0), s.len() as int);
}

proof fn lemma_white_end_is(s: Seq<char>, lo: int, a: int)
    requires
        0 <= lo <= a <= s.len(),
        a == s.len() || !is_white(s[a]),
        forall|i: int| lo <= i < a ==> is_white(#[trigger] s[i]),
    ensures
        white_end(s, lo) == a,
    decreases a - lo,
{
    if lo < a {
        lemma_white_end_is(s, lo + 1, a);
    }
}

proof fn lemma_white_start_down(s: Seq<char>, lo: int, b: int, hi: int)
    requires
        0 <= lo <= b <= hi <= s.len(),
        b == lo || !is_white(s[b - 1]),
        forall|i: int| b <= i < hi ==> is_white(#[trigger] s[i]),
    ensures
        white_start(s, lo, hi) == b,
    decreases hi - b,
{
    if b < hi {
        lemma_white_start_down(s, lo, b, hi - 1);
    }
}

/// The part of a text that white space surrounds, and that neither begins nor
/// ends in any, is the text trimmed.
pub proof fn lemma_trimmed_is(s: Seq<char>, a: int, b: int)
    requires
        0 <= a <= b <= s.len(),
        a == b || (!is_white(s[a]) && !is_white(s[b - 1])),
        forall|i: int| 0 <= i < a ==> is_white(#[trigger] s[i]),
        forall|i: int| b <= i < s.len() ==> is_white(#[trigger] s[i]),
    ensures
        trimmed(s) == s.subrange(a, b),
{
    if a == b {
        lemma_white_end_is(s, 0, s.len() as int);
        lemma_white_start_down(s, s.len() as int, s.len() as int, s.len() as int);
        assert(trimmed(s) =~= s.subrange(a, b));
    } else {
        lemma_white_end_is(s, 0, a);
        lemma_white_start_down(s, a, b, s.len() as int);
    }
}

/// Where the part of a text lies that is left of it trimmed.
pub proof fn lemma_trimmed_place(s: Seq<char>) -> (r: (int, int))
    ensures
        0 <= r.0 <= r.1 <= s.len(),
        r.0 == r.1 || (!is_white(s[r.0]) && !is_white(s[r.1 - 1])),
        forall|i: int| 0 <= i < r.0 ==> is_white(#[trigger] s[i]),
        forall|i: int| r.1 <= i < s.len() ==> is_white(#[trigger] s[i]),
        trimmed(s) == s.subrange(r.0, r.1),
{
    let a = lemma_first_solid(s, 0);
    let b = lemma_last_solid(s, a, s.len() as int);
    lemma_trimmed_is(s, a, b);
    (a, b)
}

proof fn lemma_first_solid(s: Seq<char>, lo: int) -> (a: int)
    requires
        0 <= lo <= s.len(),
        forall|i: int| 0 <= i < lo ==> is_white(#[trigger] s[i]),
    ensures
        lo <= a <= s.len(),
        a == s.len() || !is_white(s[a]),
        forall|i: int| 0 <= i < a ==> is_white(#[trigger] s[i]),
    decreases s.len() - lo,
{
    if lo < s.len() && is_white(s[lo]) {
        lemma_first_solid(s, lo + 1)
    } else {
        lo
    }
}

proof fn lemma_last_solid(s: Seq<char>, a: int, hi: int) -> (b: int)
    requires
        0 <= a <= hi <= s.len(),
        a == s.len() || !is_white(s[a]),
        forall|i: int| hi <= i < s.len() ==> is_white(#[trigger] s[i]),
    ensures
        a <= b <= hi,
        a == b || !is_white(s[b - 1]),
        a == b ==> a == s.len(),
        forall|i: int| b <= i < s.len() ==> is_white(#[trigger] s[i]),
    decreases hi - a,
{
    if a < hi && is_white(s[hi - 1]) {
        lemma_last_solid(s, a, hi - 1)
    } else {
        hi
    }
}

/// A line without the carriage return that may end it.
pub open spec fn chomped(s: Seq<char>) -> Seq<char> {
    if s.len() > 0 && s.last() == '\r' {
        s.drop_last()
    } else {
        s
    }
}

/// The lines of a text after which another line was put: those it had, and the
/// new one. Where the text ended in a line feed, or was empty, there is an empty
/// line between them; otherwise the last one loses a carriage return at its end.
pub proof fn lemma_lines_with_one_more(t: Seq<char>, last: Seq<char>)
    requires
        free_of(last, '\n'),
        last.len() > 0,
    ensures
        lines_of(t + seq!['\n'] + last) == (if t.len() == 0 || t.last() == '\n' {
            lines_of(t).push(seq![])
        } else {
            lines_of(t).drop_last().push(chomped(lines_of(t).last()))
        }).push(last),
        t.len() > 0 ==> lines_of(t).len() > 0,
{
    lemma_lines_extended(t, last, 0);
}

proof fn lemma_lines_extended(t: Seq<char>, last: Seq<char>, from: int)
    requires
        0 <= from <= t.len(),
        free_of(last, '\n'),
        last.len() > 0,
    ensures
        ({
            let ls = lines_from(t, from);
            &&& (ls.len() == 0) == (from == t.len())
            &&& lines_from(t + seq!['\n'] + last, from) == (if ls.len() == 0 || t.last() == '\n' {
                ls.push(seq![])
            } else {
                ls.drop_last().push(chomped(ls.last()))
            }).push(last)
        }),
    decreases t.len() - from,
{
    let w = t + seq!['\n'] + last;
    let n = t.len() as int;
    let ls = lines_from(t, from);
    lemma_first_at(t, '\n', from);
    lemma_first_at(w, '\n', from);
    lemma_first_at(w, '\n', n + 1);
    let e = first_at(t, '\n', from);
    let f = first_at(w, '\n', from);
    let g = first_at(w, '\n', n + 1);
    assert(w[n] == '\n');
    if g < w.len() {
        assert(w[g] == last[g - n - 1]);
    }
    assert(w.subrange(n + 1, w.len() as int) =~= last);
    assert(lines_from(w, n + 1) == seq![last]);
    if f < n {
        assert(w[f] == t[f]);
    }
    if e < n {
        assert(w[e] == t[e]);
    }
    assert(f == e);
    if from < e {
        assert(w[e - 1] == t[e - 1]);
    }
    assert(w.subrange(from, e) =~= t.subrange(from, e));
    if from == n {
        assert(w.subrange(from, e) =~= seq![]);
        assert(lines_from(w, from) =~= seq![Seq::<char>::empty()] + seq![last]);
        assert(ls =~= seq![]);
        assert(ls.push(seq![]).push(last) =~= seq![Seq::<char>::empty()] + seq![last]);
    } else if e < n {
        lemma_lines_extended(t, last, e + 1);
        let rest = lines_from(t, e + 1);
        let line = ls[0];
        if from < e {
            assert(w.subrange(from, e - 1) =~= t.subrange(from, e - 1));
        }
        assert(ls == seq![line] + rest);
        assert(lines_from(w, from) == seq![line] + lines_from(w, e + 1));
        if rest.len() == 0 {
            assert(t.last() == '\n');
        }
        if rest.len() == 0 || t.last() == '\n' {
            assert(seq![line] + rest.push(seq![]).push(last) =~= ls.push(seq![]).push(last));
        } else {
            assert(ls.last() == rest.last());
            assert(seq![line] + rest.drop_last().push(chomped(rest.last())).push(last)
                =~= ls.drop_last().push(chomped(ls.last())).push(last));
        }
    } else {
        assert(t.last() != '\n');
        let line = t.subrange(from, n);
        assert(ls == seq![line]);
        assert(ls.drop_last() =~= seq![]);
        if t[n - 1] == '\r' {
            assert(w.subrange(from, n - 1) =~= chomped(line));
        } else {
            assert(w.subrange(from, n) =~= chomped(line));
        }
        assert(lines_from(w, from) == seq![chomped(line)] + lines_from(w, n + 1));
        assert(ls.drop_last().push(chomped(line)).push(last) =~= seq![chomped(line)] + seq![last]);
    }
}

/// There is nothing to take off twice.
pub proof fn lemma_trimmed_twice(s: Seq<char>)
    ensures
        trimmed_end(trimmed_end(s)) == trimmed_end(s),
{
    let t = trimmed_end(s);
    lemma_trimmed_end(s);
    lemma_white_start_is(t, t.len() as int, t.len() as int);
    assert(trimmed_end(t) =~= t);
}

/// A text that holds anything but white space is not blank.
pub proof fn lemma_not_blank(s: Seq<char>)
    requires
        s.len() > 0,
        !is_white(s[0]),
    ensures
        trimmed(s).len() > 0,
{
    assert(white_end(s, 0) == 0);
    lemma_white_start(s, 0, s.len() as int);
}

proof fn lemma_white_start(s: Seq<char>, lo: int, hi: int)
    requires
        0 <= lo < hi <= s.len(),
        !is_white(s[lo]),
    ensures
        lo < white_start(s, lo, hi) <= hi,
    decreases hi - lo,
{
    if is_white(s[hi - 1]) {
        lemma_white_start(s, lo, hi - 1);
    }
}

/// A digit of base sixteen, in lower case.
pub open spec fn hex_char(d: int) -> char {
    if d < 10 {
        (48 + d) as u8 as char
    } else {
        (87 + d) as u8 as char
    }
}

pub fn hex_digit(d: u32) -> (c: char)
    requires
        d < 16,
    ensures
        c == hex_char(d as int),
{
    if d < 10 {
        ((48 + d) as u8) as char
    } else {
        ((87 + d) as u8) as char
    }
}

// ---------------------------------------------------------------------------
// Words
// ---------------------------------------------------------------------------

/// Where the word that stands at `i` ends.
pub open spec fn word_stop(s: Seq<char>, i: int) -> int
    decreases s.len() - i,
{
    if i >= s.len() || is_white(s[i]) {
        i
    } else {
        word_stop(s, i + 1)
    }
}

/// A word ends after where it is looked at, and within the text.
pub proof fn lemma_word_stop(s: Seq<char>, i: int)
    requires
        0 <= i <= s.len(),
    ensures
        i <= word_stop(s, i) <= s.len(),
        i < s.len() && !is_white(s[i]) ==> i < word_stop(s, i),
    decreases s.len() - i,
{
    if i < s.len() && !is_white(s[i]) {
        lemma_word_stop(s, i + 1);
    }
}

/// The words of a text from position `i` on: its runs of anything but white
/// space.
pub open spec fn words_of(s: Seq<char>, i: int) -> Seq<Seq<char>>
    decreases s.len() - i,
{
    if i < 0 || i >= s.len() {
        seq![]
    } else if is_white(s[i]) {
        words_of(s, i + 1)
    } else {
        proof {
            lemma_word_stop(s, i);
        }
        seq![s.subrange(i, word_stop(s, i))] + words_of(s, word_stop(s, i))
    }
}

pub fn words(s: &str) -> (r: Vec<String>)
    ensures
        texts(r@) == words_of(s@, 0),
{
    let v = chars_of(s);
    let mut out: Vec<String> = Vec::new();
    let mut i: usize = 0;
    assert(texts(out@) + words_of(v@, 0) =~= words_of(v@, 0));
    while i < v.len()
        invariant
            i <= v@.len(),
            v@ == s@,
            texts(out@) + words_of(v@, i as int) == words_of(v@, 0),
        decreases v@.len() - i,
    {
        if white(v[i]) {
            i += 1;
            continue;
        }
        let mut e: usize = i;
        while e < v.len() && !white(v[e])
            invariant
                i <= e <= v@.len(),
                word_stop(v@, e as int) == word_stop(v@, i as int),
            decreases v@.len() - e,
        {
            e += 1;
        }
        let ghost before = texts(out@);
        proof {
            lemma_word_stop(v@, i as int);
        }
        out.push(string_of(cut_out(&v, i, e)));
        assert(texts(out@) =~= before.push(v@.subrange(i as int, e as int)));
        assert(texts(out@) + words_of(v@, e as int) =~= before + words_of(v@, i as int));
        i = e;
    }
    assert(texts(out@) + words_of(v@, i as int) =~= texts(out@));
    out
}

// ---------------------------------------------------------------------------
// Order
// ---------------------------------------------------------------------------

/// Whether one text stands before another in the order of their characters.
pub open spec fn precedes(a: Seq<char>, b: Seq<char>, i: int) -> bool
    decreases a.len() - i,
{
    if i >= b.len() {
        false
    } else if i >= a.len() {
        true
    } else if a[i] == b[i] {
        precedes(a, b, i + 1)
    } else {
        a[i] < b[i]
    }
}

pub fn comes_first(a: &str, b: &str) -> (r: bool)
    ensures
        r == precedes(a@, b@, 0),
{
    let x = chars_of(a);
    let y = chars_of(b);
    let mut i: usize = 0;
    while i < x.len() && i < y.len()
        invariant
            i <= x@.len(),
            i <= y@.len(),
            x@ == a@,
            y@ == b@,
            precedes(a@, b@, i as int) == precedes(a@, b@, 0),
        decreases x@.len() - i,
    {
        if x[i] != y[i] {
            return x[i] < y[i];
        }
        i += 1;
    }
    i < y.len()
}

} // verus!
