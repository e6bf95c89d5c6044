//! What holds of texts, paths and addresses.

use vstd::prelude::*;

use crate::net;
use crate::path;
use crate::text;

verus! {

// ---------------------------------------------------------------------------
// Texts
// ---------------------------------------------------------------------------

proof fn lemma_found(s: Seq<char>, p: Seq<char>, from: int)
    requires
        0 <= from,
    ensures
        text::find_from(s, p, from) is Some ==> {
            let at = text::find_from(s, p, from)->0;
            &&& from <= at
            &&& at + p.len() <= s.len()
            &&& s.subrange(at, at + p.len()) == p
            &&& forall|k: int| from <= k < at ==> !(#[trigger] text::stands_at(s, p, k))
        },
        text::find_from(s, p, from) is None ==> forall|k: int|
            from <= k ==> !(#[trigger] text::stands_at(s, p, k)),
    decreases s.len() + 1 - from,
{
    if from <= s.len() && !text::stands_at(s, p, from) {
        lemma_found(s, p, from + 1);
    }
}

/// A text has another in it if and only if the other stands somewhere in it.
pub proof fn lemma_having_is_standing_somewhere(s: Seq<char>, p: Seq<char>)
    ensures
        text::has(s, p) <==> exists|a: Seq<char>, b: Seq<char>| s == #[trigger] (a + p + b),
{
    lemma_found(s, p, 0);
    if text::has(s, p) {
        let at = text::find_from(s, p, 0)->0;
        let a = s.subrange(0, at);
        let b = s.subrange(at + p.len(), s.len() as int);
        assert(s =~= a + p + b);
    }
    if exists|a: Seq<char>, b: Seq<char>| s == #[trigger] (a + p + b) {
        let (a, b) = choose|a: Seq<char>, b: Seq<char>| s == #[trigger] (a + p + b);
        assert(s.subrange(a.len() as int, a.len() as int + p.len()) =~= p);
        assert(text::stands_at(s, p, a.len() as int));
    }
}

/// The first place where a text stands is one where it does, and none before is.
pub proof fn lemma_the_first_place(s: Seq<char>, p: Seq<char>)
    ensures
        text::find_from(s, p, 0) is Some ==> {
            let at = text::find_from(s, p, 0)->0;
            &&& 0 <= at <= s.len() - p.len()
            &&& s.subrange(at, at + p.len()) == p
            &&& forall|k: int|
                0 <= k < at ==> (#[trigger] s.subrange(k, k + p.len())) != p || k + p.len()
                    > s.len()
        },
{
    lemma_found(s, p, 0);
    if text::find_from(s, p, 0) is Some {
        let at = text::find_from(s, p, 0)->0;
        assert forall|k: int| 0 <= k < at implies (#[trigger] s.subrange(k, k + p.len())) != p || k
            + p.len() > s.len() by {
            assert(!text::stands_at(s, p, k));
        }
    }
}

/// What comes before another in the alphabet: the first character in which they
/// differ decides, and a text comes before one that goes on where it ends.
pub proof fn lemma_what_precedes(a: Seq<char>, b: Seq<char>, k: int)
    requires
        0 <= k <= a.len(),
        k <= b.len(),
        a.take(k) == b.take(k),
    ensures
        k < a.len() && k < b.len() && a[k] != b[k] ==> (text::precedes(a, b, 0) <==> a[k] < b[k]),
        k == a.len() && k < b.len() ==> text::precedes(a, b, 0),
        k == b.len() ==> !text::precedes(a, b, 0),
{
    assert forall|i: int| 0 <= i < k implies a[i] == b[i] by {
        assert(a.take(k)[i] == a[i]);
        assert(b.take(k)[i] == b[i]);
    }
    lemma_same_so_far(a, b, 0, k);
}

proof fn lemma_same_so_far(a: Seq<char>, b: Seq<char>, i: int, k: int)
    requires
        0 <= i <= k <= a.len(),
        k <= b.len(),
        forall|j: int| 0 <= j < k ==> a[j] == b[j],
    ensures
        text::precedes(a, b, i) == text::precedes(a, b, k),
    decreases k - i,
{
    if i < k {
        lemma_same_so_far(a, b, i + 1, k);
    }
}

/// Capital letters become small ones, and nothing else changes.
pub proof fn lemma_small_letters(s: Seq<char>, i: int)
    requires
        0 <= i < s.len(),
    ensures
        text::ascii_lower(s).len() == s.len(),
        'A' <= s[i] <= 'Z' ==> text::ascii_lower(s)[i] as u32 == s[i] as u32 + 32,
        !('A' <= s[i] <= 'Z') ==> text::ascii_lower(s)[i] == s[i],
{
}

proof fn lemma_pieces_from(s: Seq<char>, sep: char, from: int)
    requires
        0 <= from <= s.len(),
    ensures
        text::pieces(s, sep, from).len() > 0,
        joined_by(text::pieces(s, sep, from), sep) == s.subrange(from, s.len() as int),
        forall|i: int|
            0 <= i < text::pieces(s, sep, from).len() ==> text::free_of(
                #[trigger] text::pieces(s, sep, from)[i],
                sep,
            ),
    decreases s.len() - from,
{
    let e = text::first_at(s, sep, from);
    text::lemma_first_at(s, sep, from);
    let all = text::pieces(s, sep, from);
    if e >= s.len() {
        let one = s.subrange(from, s.len() as int);
        assert(all =~= seq![one]);
        assert(joined_by(all, sep) == one);
    } else {
        let rest = text::pieces(s, sep, e + 1);
        lemma_pieces_from(s, sep, e + 1);
        let head = s.subrange(from, e);
        assert(all =~= seq![head] + rest);
        assert(all.skip(1) =~= rest);
        assert(joined_by(all, sep) == head + seq![sep] + joined_by(rest, sep));
        assert(head + seq![sep] + s.subrange(e + 1, s.len() as int) =~= s.subrange(
            from,
            s.len() as int,
        ));
        assert forall|i: int| 0 <= i < all.len() implies text::free_of(#[trigger] all[i], sep) by {
            if i > 0 {
                assert(all[i] == rest[i - 1]);
            }
        }
    }
}

/// Pieces with a separator between each two.
pub open spec fn joined_by(ps: Seq<Seq<char>>, sep: char) -> Seq<char>
    decreases ps.len(),
{
    if ps.len() == 0 {
        seq![]
    } else if ps.len() == 1 {
        ps[0]
    } else {
        ps[0] + seq![sep] + joined_by(ps.skip(1), sep)
    }
}

/// The pieces of a text hold no separator, and with one between each two they are
/// the text again.
pub proof fn lemma_pieces_make_the_text(s: Seq<char>, sep: char)
    ensures
        joined_by(text::pieces(s, sep, 0), sep) == s,
        forall|i: int|
            0 <= i < text::pieces(s, sep, 0).len() ==> text::free_of(
                #[trigger] text::pieces(s, sep, 0)[i],
                sep,
            ),
{
    lemma_pieces_from(s, sep, 0);
    assert(s.subrange(0, s.len() as int) =~= s);
}

// ---------------------------------------------------------------------------
// Paths
// ---------------------------------------------------------------------------

/// Whether a text can be the name of a file.
pub open spec fn file_name(n: Seq<char>) -> bool {
    n.len() > 0 && text::free_of(n, '/') && n != "."@ && n != ".."@
}

proof fn lemma_component(s: Seq<char>, a: int, e: int)
    requires
        0 <= a <= e <= s.len(),
        a == 0 || s[a - 1] == '/',
        forall|i: int| a <= i < e ==> (#[trigger] s[i]) != '/',
    ensures
        path::component_start(s, e) == a,
    decreases e - a,
{
    if a < e {
        assert(s[e - 1] != '/');
        lemma_component(s, a, e - 1);
    }
}

/// A file in a folder has the name it was given there, and the folder is its
/// parent.
pub proof fn lemma_a_file_in_a_folder(folder: Seq<char>, n: Seq<char>)
    requires
        file_name(n),
        folder.len() > 0,
        folder.last() != '/',
        !(folder.len() >= 2 && folder.last() == '.' && folder[folder.len() - 2] == '/'),
    ensures
        path::joined(folder, n) == folder + seq!['/'] + n,
        path::name_of(path::joined(folder, n)) == Some(n),
        path::parent_of(path::joined(folder, n)) == Some(folder),
{
    reveal_strlit("/");
    reveal_strlit(".");
    reveal_strlit("..");
    assert("/"@ =~= seq!['/']);
    assert(n[0] != '/');
    let s = folder + seq!['/'] + n;
    assert(path::joined(folder, n) =~= s);
    let a = folder.len() as int + 1;
    let e = s.len() as int;
    assert forall|i: int| a <= i < e implies (#[trigger] s[i]) != '/' by {
        assert(s[i] == n[i - a]);
    }
    assert(s[a - 1] == '/');
    assert(s[e - 1] == n.last());
    assert(path::body_end(s, e) == e) by {
        if s[e - 1] == '.' && s[e - 2] == '/' {
            if n.len() > 1 {
                assert(s[e - 2] == n[n.len() - 2]);
            } else {
                assert(n =~= "."@);
            }
        }
    }
    lemma_component(s, a, e);
    assert(s.subrange(a, e) =~= n);
    assert(path::body_end(s, a) == path::body_end(s, a - 1));
    assert(s[a - 2] == folder.last());
    assert(path::body_end(s, a - 1) == a - 1) by {
        if a >= 3 {
            assert(s[a - 3] == folder[a - 3]);
        }
    }
    assert(s.subrange(0, a - 1) =~= folder);
}

proof fn lemma_last_dot(f: Seq<char>, d: int, e: int)
    requires
        0 <= d < e <= f.len(),
        f[d] == '.',
        forall|i: int| d < i < e ==> (#[trigger] f[i]) != '.',
    ensures
        path::last_dot(f, e) == d,
    decreases e - d,
{
    if e - 1 > d {
        assert(f[e - 1] != '.');
        lemma_last_dot(f, d, e - 1);
    }
}

/// The extension of a file is what follows the last dot of its name.
pub proof fn lemma_the_extension_of_a_file(s: Seq<char>, stem: Seq<char>, ext: Seq<char>)
    requires
        stem.len() > 0,
        text::free_of(ext, '.'),
        path::name_of(s) == Some(stem + seq!['.'] + ext),
    ensures
        path::extension_of(s) == Some(ext),
{
    let f = stem + seq!['.'] + ext;
    let d = stem.len() as int;
    assert(f[d] == '.');
    assert forall|i: int| d < i < f.len() implies (#[trigger] f[i]) != '.' by {
        assert(f[i] == ext[i - d - 1]);
    }
    lemma_last_dot(f, d, f.len() as int);
    assert(f.subrange(d + 1, f.len() as int) =~= ext);
}

/// A path from the root stands by itself wherever it is put.
pub proof fn lemma_a_path_from_the_root(base: Seq<char>, rest: Seq<char>)
    requires
        rest.len() > 0,
        rest[0] == '/',
    ensures
        path::joined(base, rest) == rest,
{
}

// ---------------------------------------------------------------------------
// Addresses
// ---------------------------------------------------------------------------

/// The folder of a path ends in a slash, the path goes on from it, and what
/// follows has no slash.
pub proof fn lemma_the_folder_of_a_path(p: Seq<char>)
    requires
        p.len() > 0,
        p[0] == '/',
    ensures
        ({
            let f = net::folder_of(p);
            &&& 0 < f.len() <= p.len()
            &&& f.last() == '/'
            &&& f == p.take(f.len() as int)
            &&& forall|i: int| f.len() <= i < p.len() ==> (#[trigger] p[i]) != '/'
        }),
    decreases p.len(),
{
    if p.last() == '/' {
        assert(p.take(p.len() as int) =~= p);
    } else {
        let head = p.drop_last();
        assert(head.len() > 0);
        assert(head[0] == '/');
        lemma_the_folder_of_a_path(head);
        let f = net::folder_of(head);
        assert(head.take(f.len() as int) =~= p.take(f.len() as int));
        assert forall|i: int| f.len() <= i < p.len() implies (#[trigger] p[i]) != '/' by {
            if i < head.len() {
                assert(p[i] == head[i]);
            }
        }
    }
}

/// A reference on a page of a mirror stays on that mirror, over its scheme: one
/// from the root as it is, any other beside the page it stands on.
pub proof fn lemma_references_stay_on_the_mirror(
    scheme: Seq<char>,
    authority: Seq<char>,
    page: Seq<char>,
    r: Seq<char>,
)
    requires
        !text::has_prefix(r, "//"@),
    ensures
        r.len() > 0 && r[0] == '/' ==> net::joined(Some(scheme), authority, page, r) == scheme
            + "://"@ + authority + r,
        r.len() > 0 && r[0] != '/' ==> net::joined(Some(scheme), authority, page, r) == scheme
            + "://"@ + authority + net::folder_of(page) + r,
        r.len() > 0 && r[0] == '/' ==> net::joined(None, authority, page, r) == "https"@ + "://"@
            + authority + r,
{
}

} // verus!
