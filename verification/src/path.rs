//! Paths as text, with `/` between their components.

use vstd::prelude::*;
use vstd::string::*;

use crate::text;
use crate::text::{chars_of, cut_out, same, split, string_of};

verus! {

/// A path below another. One that starts at the root stands by itself.
pub open spec fn joined(base: Seq<char>, rest: Seq<char>) -> Seq<char> {
    if rest.len() > 0 && rest[0] == '/' {
        rest
    } else if base.len() == 0 || base.last() == '/' {
        base + rest
    } else {
        base + "/"@ + rest
    }
}

pub fn join(base: &str, rest: &str) -> (r: String)
    ensures
        r@ == joined(base@, rest@),
{
    let b = chars_of(base);
    let t = chars_of(rest);
    if t.len() > 0 && t[0] == '/' {
        return rest.to_owned();
    }
    let mut out = base.to_owned();
    if b.len() > 0 && b[b.len() - 1] != '/' {
        out.append("/");
    }
    out.append(rest);
    out
}

/// Whether a piece between separators is a step of a path. An empty one is not,
/// nor is a `.` anywhere but at the start.
pub open spec fn is_step(piece: Seq<char>, first: bool) -> bool {
    piece.len() > 0 && (first || piece != "."@)
}

pub open spec fn steps_in(pieces: Seq<Seq<char>>) -> Seq<Seq<char>>
    decreases pieces.len(),
{
    if pieces.len() == 0 {
        seq![]
    } else if is_step(pieces.last(), pieces.len() == 1) {
        steps_in(pieces.drop_last()).push(pieces.last())
    } else {
        steps_in(pieces.drop_last())
    }
}

/// The steps a path takes from where it starts.
pub open spec fn steps(s: Seq<char>) -> Seq<Seq<char>> {
    steps_in(text::pieces(s, '/', 0))
}

pub open spec fn at_root(s: Seq<char>) -> bool {
    s.len() > 0 && s[0] == '/'
}

/// Whether two paths are the same, however they are spelled: they start at the
/// same place and take the same steps. Repeated separators, those at the end,
/// and `.` components past the start make no difference.
pub open spec fn agree(a: Seq<char>, b: Seq<char>) -> bool {
    at_root(a) == at_root(b) && steps(a) == steps(b)
}

fn list_steps(s: &str) -> (r: Vec<String>)
    ensures
        text::texts(r@) == steps(s@),
{
    broadcast use text::lemma_texts_push;

    let pieces = split(s, '/');
    let ghost all = text::texts(pieces@);
    let mut out: Vec<String> = Vec::new();
    let mut i: usize = 0;
    assert(all.take(0) =~= seq![]);
    assert(text::texts(out@) =~= seq![]);
    while i < pieces.len()
        invariant
            i <= pieces@.len(),
            all == text::texts(pieces@),
            text::texts(out@) == steps_in(all.take(i as int)),
        decreases pieces@.len() - i,
    {
        proof {
            assert(all.take(i + 1).drop_last() =~= all.take(i as int));
            assert(all.take(i + 1).last() == pieces@[i as int]@);
        }
        if !pieces[i].as_str().is_empty() && (i == 0 || !same(&pieces[i], ".")) {
            out.push(pieces[i].clone());
        }
        i += 1;
    }
    assert(all.take(all.len() as int) =~= all);
    out
}

pub fn same_place(a: &str, b: &str) -> (r: bool)
    ensures
        r == agree(a@, b@),
{
    let v = chars_of(a);
    let w = chars_of(b);
    if (v.len() > 0 && v[0] == '/') != (w.len() > 0 && w[0] == '/') {
        return false;
    }
    let x = list_steps(a);
    let y = list_steps(b);
    let ghost xs = text::texts(x@);
    let ghost ys = text::texts(y@);
    assert(xs.len() == x@.len() && ys.len() == y@.len());
    if x.len() != y.len() {
        return false;
    }
    let mut i: usize = 0;
    while i < x.len()
        invariant
            i <= x@.len(),
            x@.len() == y@.len(),
            xs == text::texts(x@),
            ys == text::texts(y@),
            steps(a@) == xs,
            steps(b@) == ys,
            forall|k: int| 0 <= k < i ==> xs[k] == ys[k],
        decreases x@.len() - i,
    {
        assert(xs[i as int] == x@[i as int]@ && ys[i as int] == y@[i as int]@);
        if !same(&x[i], &y[i]) {
            return false;
        }
        i += 1;
    }
    assert(xs =~= ys);
    true
}

/// Where a path ends once separators and `.` components at its end are left
/// out. Nothing remains of a bare root.
pub open spec fn body_end(s: Seq<char>, e: int) -> int
    decreases e,
{
    if 0 < e <= s.len() && s[e - 1] == '/' {
        body_end(s, e - 1)
    } else if 2 <= e <= s.len() && s[e - 1] == '.' && s[e - 2] == '/' {
        body_end(s, e - 2)
    } else {
        e
    }
}

/// Where the component that ends at `e` begins.
pub open spec fn component_start(s: Seq<char>, e: int) -> int
    decreases e,
{
    if 0 < e <= s.len() && s[e - 1] != '/' {
        component_start(s, e - 1)
    } else {
        e
    }
}

fn end_of_body(v: &Vec<char>, end: usize) -> (r: usize)
    requires
        end <= v@.len(),
    ensures
        r == body_end(v@, end as int),
        r <= end,
{
    let mut e: usize = end;
    loop
        invariant
            e <= end <= v@.len(),
            body_end(v@, end as int) == body_end(v@, e as int),
        decreases e,
    {
        if e > 0 && v[e - 1] == '/' {
            e = e - 1;
        } else if e >= 2 && v[e - 1] == '.' && v[e - 2] == '/' {
            e = e - 2;
        } else {
            return e;
        }
    }
}

fn start_of_component(v: &Vec<char>, end: usize) -> (r: usize)
    requires
        end <= v@.len(),
    ensures
        r == component_start(v@, end as int),
        r <= end,
{
    let mut e: usize = end;
    while e > 0 && v[e - 1] != '/'
        invariant
            e <= end <= v@.len(),
            component_start(v@, end as int) == component_start(v@, e as int),
        decreases e,
    {
        e = e - 1;
    }
    e
}

/// The last component of a path, unless the path is empty, ends at the root,
/// or ends in `.` or `..`.
pub open spec fn name_of(s: Seq<char>) -> Option<Seq<char>> {
    let e = body_end(s, s.len() as int);
    let c = s.subrange(component_start(s, e), e);
    if c.len() == 0 || c == "."@ || c == ".."@ {
        None
    } else {
        Some(c)
    }
}

pub fn file_name(s: &str) -> (r: Option<String>)
    ensures
        r.deep_view() == name_of(s@),
{
    let v = chars_of(s);
    let e = end_of_body(&v, v.len());
    let a = start_of_component(&v, e);
    let c = string_of(cut_out(&v, a, e));
    if c.as_str().is_empty() || same(&c, ".") || same(&c, "..") {
        None
    } else {
        Some(c)
    }
}

/// The path without its last component; nothing for an empty path or the root.
pub open spec fn parent_of(s: Seq<char>) -> Option<Seq<char>> {
    let e = body_end(s, s.len() as int);
    if e == 0 {
        None
    } else {
        let a = component_start(s, e);
        let b = body_end(s, a);
        if b == 0 && a > 0 {
            Some("/"@)
        } else {
            Some(s.subrange(0, b))
        }
    }
}

pub fn parent(s: &str) -> (r: Option<String>)
    ensures
        r.deep_view() == parent_of(s@),
{
    let v = chars_of(s);
    let e = end_of_body(&v, v.len());
    if e == 0 {
        return None;
    }
    let a = start_of_component(&v, e);
    let b = end_of_body(&v, a);
    if b == 0 && a > 0 {
        Some("/".to_owned())
    } else {
        Some(string_of(cut_out(&v, 0, b)))
    }
}

/// Where the last dot stands before `e`; below zero where none does.
pub open spec fn last_dot(s: Seq<char>, e: int) -> int
    decreases e,
{
    if 0 < e <= s.len() {
        if s[e - 1] == '.' {
            e - 1
        } else {
            last_dot(s, e - 1)
        }
    } else {
        -1
    }
}

/// What follows the last dot of the file name; nothing where the name has no
/// dot past its first character.
pub open spec fn extension_of(s: Seq<char>) -> Option<Seq<char>> {
    match name_of(s) {
        None => None,
        Some(f) => {
            let d = last_dot(f, f.len() as int);
            if d <= 0 {
                None
            } else {
                Some(f.subrange(d + 1, f.len() as int))
            }
        },
    }
}

pub fn extension(s: &str) -> (r: Option<String>)
    ensures
        r.deep_view() == extension_of(s@),
{
    match file_name(s) {
        None => None,
        Some(f) => {
            let v = chars_of(&f);
            let mut e: usize = v.len();
            while e > 0 && v[e - 1] != '.'
                invariant
                    e <= v@.len(),
                    last_dot(v@, v@.len() as int) == last_dot(v@, e as int),
                decreases e,
            {
                e = e - 1;
            }
            if e <= 1 {
                None
            } else {
                Some(string_of(cut_out(&v, e, v.len())))
            }
        },
    }
}

} // verus!
