//! As much of HTML as it takes to find the pictures on a page.

use vstd::prelude::*;
use vstd::string::*;

use crate::text;
use crate::text::{at, chars_of, cut_out, find_char, find_in, string_of, to_ascii_lower, white};

verus! {

/// Where the `src` attribute of a tag first stands from `k` on and before `e`,
/// in a page in lower case. An attribute's name follows white space.
pub open spec fn src_at(l: Seq<char>, k: int, e: int) -> Option<int>
    decreases e - k,
{
    if k + 5 > e {
        None
    } else if text::stands_at(l, "src="@, k) && text::is_white(l[k - 1]) {
        Some(k)
    } else {
        src_at(l, k + 1, e)
    }
}

/// The quoted `src` of the tag that begins at `a` and ends before `e`.
pub open spec fn src_of(p: Seq<char>, a: int, e: int) -> Option<Seq<char>> {
    match src_at(text::ascii_lower(p), a + 4, e) {
        None => None,
        Some(k) => {
            let quote = p[k + 4];
            let end = text::first_at(p, quote, k + 5);
            if (quote == '"' || quote == '\'') && end < e {
                Some(p.subrange(k + 5, end))
            } else {
                None
            }
        },
    }
}

/// The pictures named on a page from position `i` on, in order.
pub open spec fn srcs_from(p: Seq<char>, i: int) -> Seq<Seq<char>>
    decreases p.len() - i,
{
    match text::find_from(text::ascii_lower(p), "<img"@, i) {
        None => seq![],
        Some(a) => {
            let e = text::first_at(p, '>', a + 4);
            proof {
                lemma_tag(p, i);
            }
            (match src_of(p, a, e) {
                Some(s) => seq![s],
                None => seq![],
            }) + srcs_from(p, e)
        },
    }
}

/// A tag found on a page lies after where the search began, and within the
/// page.
pub proof fn lemma_tag(p: Seq<char>, i: int)
    ensures
        match text::find_from(text::ascii_lower(p), "<img"@, i) {
            Some(a) => i <= a && a + 4 <= text::first_at(p, '>', a + 4) <= p.len(),
            None => true,
        },
{
    reveal_strlit("<img");
    assert("<img"@.len() == 4);
    lemma_found(text::ascii_lower(p), "<img"@, i);
    match text::find_from(text::ascii_lower(p), "<img"@, i) {
        Some(a) => {
            text::lemma_first_at(p, '>', a + 4);
        },
        None => {},
    }
}

proof fn lemma_found(s: Seq<char>, p: Seq<char>, from: int)
    ensures
        match text::find_from(s, p, from) {
            Some(a) => from <= a && 0 <= a && a + p.len() <= s.len(),
            None => true,
        },
    decreases s.len() + 1 - from,
{
    if from <= s.len() && !text::stands_at(s, p, from) {
        lemma_found(s, p, from + 1);
    }
}

fn find_src(l: &[char], a: usize, e: usize) -> (r: Option<usize>)
    requires
        1 <= a,
        e <= l@.len(),
    ensures
        src_at(l@, a as int, e as int) == (match r {
            Some(k) => Some(k as int),
            None => None,
        }),
        r is Some ==> a <= r->0 && r->0 + 5 <= e,
{
    let name = chars_of("src=");
    let mut k: usize = a;
    while k < e && e - k >= 5
        invariant
            1 <= a <= k,
            e <= l@.len(),
            name@ == "src="@,
            src_at(l@, a as int, e as int) == src_at(l@, k as int, e as int),
        decreases e - k,
    {
        if at(l, &name, k) && white(l[k - 1]) {
            return Some(k);
        }
        k += 1;
    }
    None
}

/// The `src` of every image on a page, in the order of the page.
pub fn img_srcs(page: &str) -> (r: Vec<String>)
    ensures
        text::texts(r@) == srcs_from(page@, 0),
{
    broadcast use text::lemma_texts_push;

    let p = chars_of(page);
    let l = chars_of(&to_ascii_lower(page));
    let tag = chars_of("<img");
    proof {
        reveal_strlit("<img");
        assert("<img"@.len() == 4);
    }
    let n: usize = p.len();
    let mut out: Vec<String> = Vec::new();
    let mut i: usize = 0;
    assert(text::texts(out@) =~= seq![]);
    loop
        invariant
            i <= n,
            n == p@.len(),
            p@ == page@,
            l@ == text::ascii_lower(p@),
            tag@ == "<img"@,
            tag@.len() == 4,
            l@.len() == p@.len(),
            text::texts(out@) + srcs_from(p@, i as int) == srcs_from(p@, 0),
        decreases p@.len() - i,
    {
        proof {
            lemma_tag(p@, i as int);
        }
        match find_in(&l, &tag, i) {
            None => {
                assert(text::texts(out@) + srcs_from(p@, i as int) =~= text::texts(out@));
                return out;
            },
            Some(a) => {
                let e = find_char(&p, '>', a + 4);
                let ghost before = text::texts(out@);
                let ghost rest = srcs_from(p@, e as int);
                match find_src(&l, a + 4, e) {
                    None => {},
                    Some(k) => {
                        let quote = p[k + 4];
                        if quote == '"' || quote == '\'' {
                            let end = find_char(&p, quote, k + 5);
                            if end < e {
                                out.push(string_of(cut_out(&p, k + 5, end)));
                            }
                        }
                    },
                }
                assert(text::texts(out@) + rest =~= before + srcs_from(p@, i as int));
                i = e;
            },
        }
    }
}

} // verus!
