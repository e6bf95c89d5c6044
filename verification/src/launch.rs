//! Handing a downloaded file to the rest of the desktop.
//!
//! Two things are planned here: opening a book in a reader, and showing it in a
//! file manager. Both mean starting another program, so:
//!
//! * **No shell is involved.** The path is a single argument, never part of a
//!   command line, so a filename cannot turn into an argument or a command of
//!   its own. On Windows that means handing the path to the shell's default
//!   handler directly rather than going through `cmd /C start`, which splits an
//!   unquoted argument on `&`.
//! * **The path is resolved first**, which both proves the file is still there
//!   and guarantees it is absolute, so it cannot start with `-` and be read as a
//!   flag by whatever it is handed to.

use vstd::prelude::*;
use vstd::string::*;

use crate::error::Error;
use crate::path;
use crate::text;
use crate::text::{lines, trim, words};

verus! {

/// The desktops there are.
#[derive(Debug, Clone, Copy, PartialEq, Eq, Structural)]
pub enum System {
    Mac,
    Windows,
    Freedesktop,
}

/// What became of a path when it was made absolute.
#[derive(Debug)]
pub enum Resolved {
    /// There is nothing there.
    Gone,
    /// A file or a directory, at this absolute path.
    Real(String),
    /// Something else, at this absolute path.
    Odd(String),
}

/// One way to hand a file over.
#[derive(Debug, PartialEq, Eq)]
pub enum Attempt {
    /// Run a launcher to completion: it returns as soon as it has handed the
    /// file over, so waiting costs nothing and buys a real error message.
    Run(String, Vec<String>),
    /// Start a program and stop caring about it.
    Detach(String, Vec<String>),
    /// Hand the path to the shell's default handler for its type.
    Shell(String),
}

/// One way to hand a file over, taken by what it says.
pub enum AttemptView {
    Run(Seq<char>, Seq<Seq<char>>),
    Detach(Seq<char>, Seq<Seq<char>>),
    Shell(Seq<char>),
}

impl View for Attempt {
    type V = AttemptView;

    open spec fn view(&self) -> AttemptView {
        match self {
            Attempt::Run(p, a) => AttemptView::Run(p@, text::texts(a@)),
            Attempt::Detach(p, a) => AttemptView::Detach(p@, text::texts(a@)),
            Attempt::Shell(p) => AttemptView::Shell(p@),
        }
    }
}

/// What to say when every attempt failed.
#[derive(Debug, PartialEq, Eq)]
pub enum Failure {
    /// What the last attempt says for itself.
    Own,
    /// Something else in its place.
    Instead(String),
    /// Something else, and after it what the last attempt says.
    Before(String),
}

/// What to say when every attempt failed, taken by what it says.
pub enum FailureView {
    Own,
    Instead(Seq<char>),
    Before(Seq<char>),
}

impl View for Failure {
    type V = FailureView;

    open spec fn view(&self) -> FailureView {
        match self {
            Failure::Own => FailureView::Own,
            Failure::Instead(m) => FailureView::Instead(m@),
            Failure::Before(m) => FailureView::Before(m@),
        }
    }
}

/// Ways to hand a file over, to be tried in turn until one works, and what to
/// say when none does.
#[derive(Debug, PartialEq, Eq)]
pub struct Plan {
    pub attempts: Vec<Attempt>,
    pub failure: Failure,
}

pub open spec fn attempt_views(v: Seq<Attempt>) -> Seq<AttemptView> {
    v.map_values(|a: Attempt| a@)
}

/// A plan, taken by what it says.
pub struct PlanView {
    pub attempts: Seq<AttemptView>,
    pub failure: FailureView,
}

impl View for Plan {
    type V = PlanView;

    open spec fn view(&self) -> PlanView {
        PlanView { attempts: attempt_views(self.attempts@), failure: self.failure@ }
    }
}

/// Prove the file is still there, and make the path absolute while we are at it.
pub fn resolve(file: &str, found: Resolved) -> (r: Result<String, Error>)
    ensures
        match found {
            Resolved::Gone => r is Err && r->Err_0.text@ == file@
                + " is no longer there — it was moved or deleted since it was downloaded"@,
            Resolved::Odd(p) => r is Err && r->Err_0.text@ == p@ + " is not a file"@,
            Resolved::Real(p) => r is Ok && r->Ok_0@ == p@,
        },
{
    match found {
        Resolved::Gone => {
            let mut m = file.to_owned();
            m.append(" is no longer there — it was moved or deleted since it was downloaded");
            Err(Error::new(m))
        },
        Resolved::Odd(p) => {
            let mut m = p;
            m.append(" is not a file");
            Err(Error::new(m))
        },
        Resolved::Real(p) => Ok(p),
    }
}

// ---------------------------------------------------------------------------
// Plans
// ---------------------------------------------------------------------------

/// A plan of one attempt that speaks for itself.
pub open spec fn single_plan(a: AttemptView) -> PlanView {
    PlanView { attempts: seq![a], failure: FailureView::Own }
}

/// What to do to hand something to whatever the desktop thinks should handle it.
pub open spec fn default_plan(system: System, file: Seq<char>) -> PlanView {
    match system {
        System::Mac => single_plan(AttemptView::Run("open"@, seq![file])),
        System::Windows => PlanView {
            attempts: seq![AttemptView::Shell(display_path_of(file))],
            failure: FailureView::Before(
                "could not open "@ + file
                    + " — no application is associated with this file type"@,
            ),
        },
        System::Freedesktop => PlanView {
            attempts: seq![
                AttemptView::Run("xdg-open"@, seq![file]),
                AttemptView::Run("gio"@, seq!["open"@, file]),
            ],
            failure: FailureView::Instead(
                "could not open "@ + file
                    + " — neither `xdg-open` nor `gio` worked. Set `reader` in the config to name a program directly."@,
            ),
        },
    }
}

/// What to do to open a file. On macOS a reader names an application, because
/// that is what `open -a` takes. Elsewhere it is a command, whose words become
/// arguments of their own, with the file as the last one: a reader stays in the
/// foreground for as long as the book is open, so it is started and let go of.
pub open spec fn open_plan(system: System, file: Seq<char>, reader: Option<Seq<char>>) -> PlanView {
    let named = match reader {
        Some(r) => text::trimmed(r),
        None => seq![],
    };
    if named.len() == 0 {
        default_plan(system, file)
    } else if system == System::Mac {
        single_plan(AttemptView::Run("open"@, seq!["-a"@, named, file]))
    } else {
        let parts = text::words_of(named, 0);
        let program = if parts.len() > 0 {
            parts[0]
        } else {
            named
        };
        let rest = if parts.len() > 0 {
            parts.skip(1)
        } else {
            seq![]
        };
        PlanView {
            attempts: seq![AttemptView::Detach(program, rest.push(file))],
            failure: FailureView::Before(
                "could not start `"@ + program + "` — is it installed and on your PATH?"@,
            ),
        }
    }
}

/// What to do to show a file in the system file manager. The freedesktop
/// interface is the only one that can highlight the file rather than merely
/// opening the folder it sits in, so it is tried before falling back.
pub open spec fn reveal_plan(system: System, file: Seq<char>) -> PlanView {
    match system {
        System::Mac => single_plan(AttemptView::Run("open"@, seq!["-R"@, file])),
        System::Windows => single_plan(
            AttemptView::Detach("explorer"@, seq!["/select,"@ + display_path_of(file)]),
        ),
        System::Freedesktop => {
            let folder = match path::parent_of(file) {
                Some(p) => p,
                None => "."@,
            };
            let rest = default_plan(system, folder);
            PlanView {
                attempts: seq![
                    AttemptView::Run(
                        "dbus-send"@,
                        seq![
                            "--session"@,
                            "--dest=org.freedesktop.FileManager1"@,
                            "--type=method_call"@,
                            "/org/freedesktop/FileManager1"@,
                            "org.freedesktop.FileManager1.ShowItems"@,
                            "array:string:"@ + file_uri_of(file),
                            "string:"@,
                        ],
                    ),
                ] + rest.attempts,
                failure: rest.failure,
            }
        },
    }
}

fn one(a: Attempt) -> (r: Plan)
    ensures
        r@ == single_plan(a@),
{
    let mut attempts: Vec<Attempt> = Vec::new();
    attempts.push(a);
    assert(attempt_views(attempts@) =~= seq![a@]);
    Plan { attempts, failure: Failure::Own }
}

fn list1(a: String) -> (r: Vec<String>)
    ensures
        text::texts(r@) == seq![a@],
{
    let mut v: Vec<String> = Vec::new();
    v.push(a);
    assert(text::texts(v@) =~= seq![a@]);
    v
}

fn list2(a: String, b: String) -> (r: Vec<String>)
    ensures
        text::texts(r@) == seq![a@, b@],
{
    let mut v: Vec<String> = Vec::new();
    v.push(a);
    v.push(b);
    assert(text::texts(v@) =~= seq![a@, b@]);
    v
}

fn open_with_default(system: System, file: &str) -> (r: Plan)
    ensures
        r@ == default_plan(system, file@),
{
    match system {
        System::Mac => one(Attempt::Run("open".to_owned(), list1(file.to_owned()))),
        System::Windows => {
            let mut m = "could not open ".to_owned();
            m.append(file);
            m.append(" — no application is associated with this file type");
            let mut attempts: Vec<Attempt> = Vec::new();
            attempts.push(Attempt::Shell(display_path(file)));
            let r = Plan { attempts, failure: Failure::Before(m) };
            assert(r@.attempts =~= default_plan(system, file@).attempts);
            r
        },
        System::Freedesktop => {
            let mut attempts: Vec<Attempt> = Vec::new();
            attempts.push(Attempt::Run("xdg-open".to_owned(), list1(file.to_owned())));
            attempts.push(
                Attempt::Run("gio".to_owned(), list2("open".to_owned(), file.to_owned())),
            );
            let mut m = "could not open ".to_owned();
            m.append(file);
            m.append(
                " — neither `xdg-open` nor `gio` worked. Set `reader` in the config to name a program directly.",
            );
            let r = Plan { attempts, failure: Failure::Instead(m) };
            assert(r@.attempts =~= default_plan(system, file@).attempts);
            r
        },
    }
}

/// Plan to open a file with `reader`, or with the system default when none is
/// set.
pub fn open(system: System, file: &str, reader: &Option<String>) -> (r: Plan)
    ensures
        r@ == open_plan(system, file@, reader.deep_view()),
{
    let named = match reader {
        Some(s) => trim(s),
        None => String::new(),
    };
    if named.as_str().is_empty() {
        assert(named@ =~= seq![]);
        return open_with_default(system, file);
    }
    if system == System::Mac {
        let mut args: Vec<String> = Vec::new();
        args.push("-a".to_owned());
        args.push(named);
        args.push(file.to_owned());
        assert(text::texts(args@) =~= seq!["-a"@, named@, file@]);
        return one(Attempt::Run("open".to_owned(), args));
    }
    let parts = words(&named);
    let program = if parts.len() > 0 {
        parts[0].clone()
    } else {
        named.clone()
    };
    let mut args: Vec<String> = Vec::new();
    let ghost all = text::texts(parts@);
    let mut i: usize = 1;
    while i < parts.len()
        invariant
            1 <= i,
            all == text::texts(parts@),
            parts@.len() == 0 ==> args@.len() == 0,
            parts@.len() > 0 ==> i <= parts@.len() && text::texts(args@) == all.subrange(
                1,
                i as int,
            ),
        decreases parts@.len() - i,
    {
        let ghost before = text::texts(args@);
        args.push(parts[i].clone());
        assert(text::texts(args@) =~= before.push(all[i as int]));
        assert(text::texts(args@) =~= all.subrange(1, i + 1));
        i += 1;
    }
    let ghost rest = if all.len() > 0 {
        all.skip(1)
    } else {
        seq![]
    };
    assert(text::texts(args@) =~= rest);
    args.push(file.to_owned());
    assert(text::texts(args@) =~= rest.push(file@));
    let mut m = "could not start `".to_owned();
    m.append(&program);
    m.append("` — is it installed and on your PATH?");
    let mut attempts: Vec<Attempt> = Vec::new();
    attempts.push(Attempt::Detach(program, args));
    let r = Plan { attempts, failure: Failure::Before(m) };
    assert(r@.attempts =~= open_plan(system, file@, reader.deep_view()).attempts);
    r
}

/// Plan to show a file in the system file manager, selected where that is
/// possible.
pub fn reveal_file(system: System, file: &str) -> (r: Plan)
    ensures
        r@ == reveal_plan(system, file@),
{
    match system {
        System::Mac => one(
            Attempt::Run("open".to_owned(), list2("-R".to_owned(), file.to_owned())),
        ),
        System::Windows => {
            let mut arg = "/select,".to_owned();
            arg.append(&display_path(file));
            one(Attempt::Detach("explorer".to_owned(), list1(arg)))
        },
        System::Freedesktop => {
            let mut shown = "array:string:".to_owned();
            shown.append(&file_uri(file));
            let mut args: Vec<String> = Vec::new();
            args.push("--session".to_owned());
            args.push("--dest=org.freedesktop.FileManager1".to_owned());
            args.push("--type=method_call".to_owned());
            args.push("/org/freedesktop/FileManager1".to_owned());
            args.push("org.freedesktop.FileManager1.ShowItems".to_owned());
            args.push(shown);
            args.push("string:".to_owned());
            assert(text::texts(args@) =~= seq![
                "--session"@,
                "--dest=org.freedesktop.FileManager1"@,
                "--type=method_call"@,
                "/org/freedesktop/FileManager1"@,
                "org.freedesktop.FileManager1.ShowItems"@,
                "array:string:"@ + file_uri_of(file@),
                "string:"@,
            ]);
            let folder = match path::parent(file) {
                Some(p) => p,
                None => ".".to_owned(),
            };
            let rest = open_with_default(system, &folder);
            let mut attempts: Vec<Attempt> = Vec::new();
            attempts.push(Attempt::Run("dbus-send".to_owned(), args));
            let Plan { attempts: mut others, failure } = rest;
            let ghost later = attempt_views(others@);
            attempts.append(&mut others);
            let r = Plan { attempts, failure };
            assert(r@.attempts =~= reveal_plan(system, file@).attempts);
            r
        },
    }
}

/// Whatever the reader, a book is opened by handing its path over whole, as the
/// last argument of one program: no part of the name is an argument of its own.
pub proof fn lemma_the_path_stays_whole(system: System, file: Seq<char>, reader: Option<Seq<char>>)
    ensures
        forall|i: int|
            0 <= i < open_plan(system, file, reader).attempts.len() ==> match (
            #[trigger] open_plan(system, file, reader).attempts[i]) {
                AttemptView::Run(_, args) => args.len() > 0 && args.last() == file,
                AttemptView::Detach(_, args) => args.len() > 0 && args.last() == file,
                AttemptView::Shell(p) => p == display_path_of(file),
            },
{
}

// ---------------------------------------------------------------------------
// What came of an attempt
// ---------------------------------------------------------------------------

/// What to say of a launcher that failed: the first thing it said itself, if
/// anything.
pub open spec fn run_failure_text(program: Seq<char>, said: Seq<char>) -> Seq<char> {
    let ls = text::lines_of(said);
    let first = if ls.len() > 0 {
        text::trimmed(ls[0])
    } else {
        seq![]
    };
    if first.len() == 0 {
        "`"@ + program + "` failed"@
    } else {
        first
    }
}

pub fn run_failure(program: &str, said: &str) -> (r: Error)
    ensures
        r.text@ == run_failure_text(program@, said@),
{
    let ls = lines(said);
    if ls.len() > 0 {
        let first = trim(&ls[0]);
        assert(text::texts(ls@)[0] == ls@[0]@);
        if !first.as_str().is_empty() {
            return Error::new(first);
        }
    }
    let mut m = "`".to_owned();
    m.append(program);
    m.append("` failed");
    Error::new(m)
}

/// What comes of a plan: the error to report when every attempt failed, given
/// what the last of them said.
pub fn plan_failure(plan: Plan, last: Error) -> (r: Error)
    ensures
        r.text@ == (match plan.failure {
            Failure::Own => last.text@,
            Failure::Instead(m) => m@,
            Failure::Before(m) => m@ + ": "@ + last.text@,
        }),
{
    match plan.failure {
        Failure::Own => last,
        Failure::Instead(m) => Error::new(m),
        Failure::Before(m) => {
            let mut out = m;
            out.append(": ");
            out.append(last.message());
            Error::new(out)
        },
    }
}

// ---------------------------------------------------------------------------
// Paths as other programs want them
// ---------------------------------------------------------------------------

pub const EXTENDED: &'static str = "\\\\?\\";

/// A Windows path without the extended-length prefix that making it absolute
/// adds, which the file APIs understand but the shell and Explorer do not. The
/// UNC form has to keep a leading separator to stay a UNC path.
pub open spec fn display_path_of(p: Seq<char>) -> Seq<char> {
    if text::has_prefix(p, EXTENDED@) {
        let rest = p.skip(EXTENDED@.len() as int);
        if text::has_prefix(rest, "UNC\\"@) {
            "\\\\"@ + rest.skip("UNC\\"@.len() as int)
        } else {
            rest
        }
    } else {
        p
    }
}

pub fn display_path(p: &str) -> (r: String)
    ensures
        r@ == display_path_of(p@),
{
    match text::strip_prefix(p, EXTENDED) {
        Some(rest) => match text::strip_prefix(&rest, "UNC\\") {
            Some(share) => {
                let mut r = "\\\\".to_owned();
                r.append(&share);
                r
            },
            None => rest,
        },
        None => p.to_owned(),
    }
}

/// Bytes that stand for themselves in a URI.
pub open spec fn plain_byte(b: u8) -> bool {
    0x41 <= b <= 0x5A || 0x61 <= b <= 0x7A || 0x30 <= b <= 0x39 || b == 0x2D || b == 0x5F || b
        == 0x2E || b == 0x7E || b == 0x2F
}

/// A digit of base sixteen, in upper case.
pub open spec fn upper_hex(d: int) -> char {
    if d < 10 {
        (48 + d) as u8 as char
    } else {
        (55 + d) as u8 as char
    }
}

/// A byte as it stands in a URI.
pub open spec fn escaped_byte(b: u8) -> Seq<char> {
    if plain_byte(b) {
        seq![b as char]
    } else {
        seq!['%', upper_hex((b / 16) as int), upper_hex((b % 16) as int)]
    }
}

pub open spec fn escaped_bytes(b: Seq<u8>) -> Seq<char>
    decreases b.len(),
{
    if b.len() == 0 {
        seq![]
    } else {
        escaped_bytes(b.drop_last()) + escaped_byte(b.last())
    }
}

/// A path, percent-encoded as a `file://` URI.
pub open spec fn file_uri_of(p: Seq<char>) -> Seq<char> {
    "file://"@ + escaped_bytes(vstd::utf8::encode_utf8(p))
}

fn push_hex(out: String, d: u8) -> (r: String)
    requires
        d < 16,
    ensures
        r@ == out@.push(upper_hex(d as int)),
{
    let mut s = out;
    if d < 10 {
        s.push((48 + d) as char);
    } else {
        s.push((55 + d) as char);
    }
    s
}

/// Percent-encode a path as a `file://` URI, for the freedesktop call.
pub fn file_uri(file: &str) -> (r: String)
    ensures
        r@ == file_uri_of(file@),
{
    let bytes = file.as_bytes();
    let n: usize = bytes.len();
    let mut out = "file://".to_owned();
    let mut i: usize = 0;
    assert(out@ + escaped_bytes(bytes@.take(0)) =~= out@);
    while i < n
        invariant
            i <= n,
            n == bytes@.len(),
            out@ == "file://"@ + escaped_bytes(bytes@.take(i as int)),
        decreases n - i,
    {
        let b: u8 = bytes[i];
        let ghost before = out@;
        assert(bytes@.take(i + 1).drop_last() =~= bytes@.take(i as int));
        if (0x41 <= b && b <= 0x5A) || (0x61 <= b && b <= 0x7A) || (0x30 <= b && b <= 0x39) || b
            == 0x2D || b == 0x5F || b == 0x2E || b == 0x7E || b == 0x2F {
            out.push(b as char);
            assert(out@ =~= before + escaped_byte(b));
        } else {
            out.push('%');
            out = push_hex(out, b / 16);
            out = push_hex(out, b % 16);
            assert(out@ =~= before + escaped_byte(b));
        }
        assert(out@ =~= "file://"@ + escaped_bytes(bytes@.take(i + 1)));
        i += 1;
    }
    assert(bytes@.take(n as int) =~= bytes@);
    out
}

/// The value of a digit of base sixteen.
pub open spec fn hex_value(c: char) -> int {
    if '0' <= c <= '9' {
        c as u32 - 48
    } else {
        c as u32 - 55
    }
}

/// What a reader of percent-encoded text makes of it.
pub open spec fn unescaped(s: Seq<char>) -> Seq<u8>
    decreases s.len(),
{
    if s.len() == 0 {
        seq![]
    } else if s.len() >= 3 && s[s.len() - 3] == '%' {
        unescaped(s.take(s.len() - 3)).push(
            (16 * hex_value(s[s.len() - 2]) + hex_value(s[s.len() - 1])) as u8,
        )
    } else {
        unescaped(s.drop_last()).push(s.last() as u8)
    }
}

proof fn lemma_last_of_escaped(b: Seq<u8>)
    ensures
        ({
            let s = escaped_bytes(b);
            let n = s.len() as int;
            &&& (n >= 1 ==> s[n - 1] != '%')
            &&& (n >= 2 ==> (s[n - 2] == '%' ==> false))
        }),
    decreases b.len(),
{
    if b.len() > 0 {
        lemma_last_of_escaped(b.drop_last());
        let h = (b.last() / 16) as int;
        let l = (b.last() % 16) as int;
        assert(upper_hex(h) != '%' && upper_hex(l) != '%');
        assert(b.last() as char == '%' ==> b.last() == 0x25);
    }
}

/// Whoever reads a file URI gets the path's own bytes back, and it holds nothing
/// but letters, digits and `-_.~/%`.
pub proof fn lemma_uri_round_trip(b: Seq<u8>)
    ensures
        unescaped(escaped_bytes(b)) == b,
        forall|i: int|
            0 <= i < escaped_bytes(b).len() ==> (#[trigger] escaped_bytes(b)[i] == '%'
                || plain_byte(escaped_bytes(b)[i] as u8)),
    decreases b.len(),
{
    let s = escaped_bytes(b);
    if b.len() > 0 {
        let front = b.drop_last();
        let w = escaped_bytes(front);
        lemma_uri_round_trip(front);
        lemma_last_of_escaped(front);
        let e = escaped_byte(b.last());
        if plain_byte(b.last()) {
            assert(s.drop_last() =~= w);
            assert(s.last() == b.last() as char);
            assert(s.len() >= 3 ==> s[s.len() - 3] == w[w.len() - 2]);
            assert(unescaped(s) =~= front.push(b.last()));
        } else {
            let h = (b.last() / 16) as int;
            let l = (b.last() % 16) as int;
            assert(s.take(s.len() - 3) =~= w);
            assert(s[s.len() - 3] == '%');
            assert(s[s.len() - 2] == upper_hex(h) && s[s.len() - 1] == upper_hex(l));
            assert(hex_value(upper_hex(h)) == h && hex_value(upper_hex(l)) == l);
            assert(16 * h + l == b.last());
            assert(unescaped(s) =~= front.push(b.last()));
        }
        assert(front.push(b.last()) =~= b);
        assert forall|i: int| 0 <= i < s.len() implies (#[trigger] s[i] == '%' || plain_byte(
            s[i] as u8,
        )) by {
            if i < w.len() {
                assert(s[i] == w[i]);
            } else {
                assert(s[i] == e[i - w.len()]);
            }
        }
    } else {
        assert(unescaped(s) =~= b);
    }
}

} // verus!
