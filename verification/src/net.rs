//! Addresses, as far as the interface reads them.

use vstd::prelude::*;
use vstd::string::*;

use crate::error::Error;
use crate::text;
use crate::text::same_ignoring_case;

verus! {

/// The host named in an address, as `http::Uri` reads it.
pub uninterp spec fn uri_host(s: Seq<char>) -> Option<Seq<char>>;

/// `http::Uri`, parsed from text, and its `host`: the host the address names.
/// Nothing comes back for text that is no address and for an address without a
/// host. How an address is taken apart is that type's business; the same text
/// always gives the same answer.
#[verifier::external_body]
pub(crate) fn parse_host(s: &str) -> (r: Option<String>)
    ensures
        r.deep_view() == uri_host(s@),
{
    match s.parse::<ureq::http::Uri>() {
        Ok(uri) => uri.host().map(|h| h.to_owned()),
        Err(_) => None,
    }
}

/// The host an address names.
pub fn host_of(base: &str) -> (r: Result<String, Error>)
    ensures
        match r {
            Ok(h) => uri_host(base@) == Some(h@),
            Err(e) => uri_host(base@) is None && e.text@ == "`"@ + base@ + "` names no host"@,
        },
{
    match parse_host(base) {
        Some(h) => Ok(h),
        None => {
            let mut e = "`".to_owned();
            e.append(base);
            e.append("` names no host");
            Err(Error::new(e))
        },
    }
}

/// The scheme of an address, as `http::Uri` reads it.
pub uninterp spec fn uri_scheme(s: Seq<char>) -> Option<Seq<char>>;

/// `http::Uri`, parsed from text, and its `scheme_str`: the scheme the address
/// begins with. Nothing comes back for text that is no address and for an
/// address without a scheme.
#[verifier::external_body]
fn parse_scheme(s: &str) -> (r: Option<String>)
    ensures
        r.deep_view() == uri_scheme(s@),
{
    match s.parse::<ureq::http::Uri>() {
        Ok(uri) => uri.scheme_str().map(|t| t.to_owned()),
        Err(_) => None,
    }
}

/// The host of an address with what stands around it: a name and password, and
/// a port. As `http::Uri` reads it.
pub uninterp spec fn uri_authority(s: Seq<char>) -> Option<Seq<char>>;

/// `http::Uri`, parsed from text, and its `authority`. Nothing comes back for
/// text that is no address and for an address without an authority.
#[verifier::external_body]
fn parse_authority(s: &str) -> (r: Option<String>)
    ensures
        r.deep_view() == uri_authority(s@),
{
    match s.parse::<ureq::http::Uri>() {
        Ok(uri) => uri.authority().map(|a| a.as_str().to_owned()),
        Err(_) => None,
    }
}

/// The path of an address, as `http::Uri` reads it.
pub uninterp spec fn uri_path(s: Seq<char>) -> Option<Seq<char>>;

/// `http::Uri`, parsed from text, and its `path`. Nothing comes back for text
/// that is no address.
#[verifier::external_body]
fn parse_path(s: &str) -> (r: Option<String>)
    ensures
        r.deep_view() == uri_path(s@),
{
    match s.parse::<ureq::http::Uri>() {
        Ok(uri) => Some(uri.path().to_owned()),
        Err(_) => None,
    }
}

pub open spec fn is_letter(c: char) -> bool {
    'a' <= c <= 'z' || 'A' <= c <= 'Z'
}

fn letter(c: char) -> (r: bool)
    ensures
        r == is_letter(c),
{
    ('a' <= c && c <= 'z') || ('A' <= c && c <= 'Z')
}

/// Whether a character may stand in a scheme.
pub open spec fn scheme_char(c: char) -> bool {
    is_letter(c) || text::is_digit(c) || c == '+' || c == '-' || c == '.'
}

/// Whether a reference begins with a scheme: a letter and what may follow it, up
/// to a colon. Such a reference is an address of its own.
pub open spec fn has_scheme(r: Seq<char>) -> bool {
    let e = text::first_at(r, ':', 0);
    &&& 0 < e < r.len()
    &&& is_letter(r[0])
    &&& forall|i: int| 0 <= i < e ==> scheme_char(#[trigger] r[i])
}

/// A path up to its last slash, which is the folder a reference is looked up in.
pub open spec fn folder_of(path: Seq<char>) -> Seq<char>
    decreases path.len(),
{
    if path.len() == 0 {
        seq!['/']
    } else if path.last() == '/' {
        path
    } else {
        folder_of(path.drop_last())
    }
}

/// A reference found on a page of a mirror, as an address: one of its own stays
/// as it is, one that begins with two slashes takes the mirror's scheme, one
/// that begins with a slash its authority too, and any other is looked up in the
/// folder of its path. A mirror that names no scheme is spoken to securely.
pub open spec fn joined(
    scheme: Option<Seq<char>>,
    authority: Seq<char>,
    path: Seq<char>,
    r: Seq<char>,
) -> Seq<char> {
    let scheme = match scheme {
        Some(s) => s,
        None => "https"@,
    };
    if text::has_prefix(r, "//"@) {
        scheme + ":"@ + r
    } else if r.len() > 0 && r[0] == '/' {
        scheme + "://"@ + authority + r
    } else {
        scheme + "://"@ + authority + folder_of(path) + r
    }
}

fn begins_with_scheme(v: &Vec<char>) -> (b: bool)
    ensures
        b == has_scheme(v@),
{
    let e = text::find_char(v.as_slice(), ':', 0);
    if e == 0 || e >= v.len() || !letter(v[0]) {
        return false;
    }
    let mut i: usize = 0;
    while i < e
        invariant
            i <= e < v@.len(),
            e == text::first_at(v@, ':', 0),
            forall|k: int| 0 <= k < i ==> scheme_char(#[trigger] v@[k]),
        decreases e - i,
    {
        let c = v[i];
        if !(letter(c) || text::digit(c) || c == '+' || c == '-' || c == '.') {
            return false;
        }
        i += 1;
    }
    true
}

fn folder(path: &str) -> (r: String)
    ensures
        r@ == folder_of(path@),
{
    let v = text::chars_of(path);
    let mut n: usize = v.len();
    assert(v@.take(n as int) =~= v@);
    while n > 0 && v[n - 1] != '/'
        invariant
            n <= v@.len(),
            v@ == path@,
            folder_of(v@.take(n as int)) == folder_of(path@),
        decreases n,
    {
        assert(v@.take(n as int).drop_last() =~= v@.take(n - 1));
        n -= 1;
    }
    if n == 0 {
        proof {
            reveal_strlit("/");
            assert("/"@ =~= seq!['/']);
        }
        "/".to_owned()
    } else {
        assert(v@.subrange(0, n as int) =~= v@.take(n as int));
        text::string_of(text::cut_out(&v, 0, n))
    }
}

/// Put an address together from its parts and a reference.
pub fn put_together(scheme: Option<String>, authority: &str, path: &str, reference: &str) -> (r:
    String)
    ensures
        r@ == joined(
            match scheme {
                Some(s) => Some(s@),
                None => None,
            },
            authority@,
            path@,
            reference@,
        ),
{
    let mut out = match scheme {
        Some(s) => s,
        None => "https".to_owned(),
    };
    if text::starts_with(reference, "//") {
        out.append(":");
        out.append(reference);
        return out;
    }
    out.append("://");
    out.append(authority);
    let v = text::chars_of(reference);
    if v.len() == 0 || v[0] != '/' {
        out.append(&folder(path));
    }
    out.append(reference);
    out
}

/// The address a reference on a page of a mirror stands for.
pub fn join_uri(base: &str, reference: &str) -> (r: Result<String, Error>)
    ensures
        match r {
            Ok(a) => a@ == (if has_scheme(reference@) {
                reference@
            } else {
                joined(
                    uri_scheme(base@),
                    uri_authority(base@)->0,
                    uri_path(base@)->0,
                    reference@,
                )
            }),
            Err(e) => e.text@ == "`"@ + base@ + "` names no host"@,
        },
        r is Ok <==> has_scheme(reference@) || (uri_authority(base@) is Some && uri_path(
            base@,
        ) is Some),
{
    if begins_with_scheme(&text::chars_of(reference)) {
        return Ok(reference.to_owned());
    }
    match (parse_authority(base), parse_path(base)) {
        (Some(authority), Some(path)) => {
            let scheme = parse_scheme(base);
            Ok(put_together(scheme, &authority, &path, reference))
        },
        _ => {
            let mut e = "`".to_owned();
            e.append(base);
            e.append("` names no host");
            Err(Error::new(e))
        },
    }
}

/// Whether two hosts are the same, whatever the case of their letters. A host
/// that is not known is the same as none.
pub fn hosts_agree(a: &Option<String>, b: &Option<String>) -> (r: bool)
    ensures
        r == (a is Some && b is Some && text::ascii_lower(a->0@) == text::ascii_lower(b->0@)),
{
    match (a, b) {
        (Some(x), Some(y)) => same_ignoring_case(x, y),
        _ => false,
    }
}

/// What the client will talk to, and for how long.
#[derive(Debug, Clone, Copy, PartialEq, Eq, Structural)]
pub struct NetPolicy {
    pub allow_http: bool,
    pub allow_private_hosts: bool,
    /// In seconds.
    pub connect_timeout: u64,
    /// In seconds.
    pub request_timeout: u64,
    pub max_redirects: u32,
}

} // verus!
