//! Command-line parsing.
//!
//! Supported forms are `--flag`, `--key value`, `--key=value`, short aliases
//! like `-n 10`, and `--` to stop flag parsing. Combined short flags (`-abc`)
//! are deliberately not supported: nothing here benefits from them and they
//! make typos parse as something valid.

use vstd::prelude::*;
use vstd::string::*;

use crate::config;
use crate::config::{expand_tilde, topic_fault, Env};
use crate::error::Error;
use crate::model;
use crate::model::{is_md5, parse_size, parse_topics, Field, Topic};
use crate::term;
use crate::term::Style;
use crate::text;
use crate::text::{
    chars_of, copy_opt, cut_out, find_in, hex, join, parse_usize, same, split, split_list,
    split_once, string_of, to_ascii_lower, trim, trim_start_matches,
};

verus! {

pub const VERSION: &'static str = "0.1.0";

// ---------------------------------------------------------------------------
// What a command line asks for
// ---------------------------------------------------------------------------

#[derive(Debug, PartialEq, Eq)]
pub enum Command {
    Search(Search),
    /// Download directly by MD5, skipping search.
    Get { md5: String },
    Mirrors { refresh: bool },
    /// List past downloads, or forget them.
    History { limit: Option<usize>, clear: bool },
    /// Open a past download, or show it in the file manager.
    Open { selector: String, reveal: bool, with: Option<String> },
    /// Full-screen interface. `query` pre-fills the search box.
    Tui { query: Option<String> },
    Config { init: bool, path: bool },
    Doctor,
    Help,
    Version,
}

#[derive(Debug, PartialEq, Eq)]
pub struct Search {
    pub terms: Vec<String>,
    pub fields: Vec<Field>,
    pub topics: Vec<Topic>,
    pub limit: Option<usize>,
    pub extension: Option<String>,
    pub language: Option<String>,
    /// Take the first result without prompting.
    pub first: bool,
    /// Show results and stop.
    pub no_download: bool,
}

#[derive(Debug, PartialEq, Eq)]
pub struct Global {
    pub mirrors: Vec<String>,
    pub refresh_mirrors: bool,
    pub dest_dir: Option<String>,
    pub output: Option<String>,
    pub max_size: Option<u64>,
    pub verify: Option<bool>,
    pub force: bool,
    pub no_resume: bool,
    pub allow_http: bool,
    pub allow_private_hosts: bool,
    pub no_color: bool,
    pub quiet: bool,
    pub json: bool,
    /// Application to open books with.
    pub reader: Option<String>,
    /// Never fetch or draw cover art.
    pub no_covers: bool,
}

#[derive(Debug, PartialEq, Eq)]
pub struct Cli {
    pub command: Command,
    pub global: Global,
}

/// A search, by value.
pub struct SearchView {
    pub terms: Seq<Seq<char>>,
    pub fields: Seq<Field>,
    pub topics: Seq<Topic>,
    pub limit: Option<usize>,
    pub extension: Option<Seq<char>>,
    pub language: Option<Seq<char>>,
    pub first: bool,
    pub no_download: bool,
}

/// The options every command shares, by value.
pub struct GlobalView {
    pub mirrors: Seq<Seq<char>>,
    pub refresh_mirrors: bool,
    pub dest_dir: Option<Seq<char>>,
    pub output: Option<Seq<char>>,
    pub max_size: Option<u64>,
    pub verify: Option<bool>,
    pub force: bool,
    pub no_resume: bool,
    pub allow_http: bool,
    pub allow_private_hosts: bool,
    pub no_color: bool,
    pub quiet: bool,
    pub json: bool,
    pub reader: Option<Seq<char>>,
    pub no_covers: bool,
}

/// A command, by value.
pub enum CommandView {
    Search(SearchView),
    Get(Seq<char>),
    Mirrors { refresh: bool },
    History { limit: Option<usize>, clear: bool },
    Open { selector: Seq<char>, reveal: bool, with: Option<Seq<char>> },
    Tui(Option<Seq<char>>),
    Config { init: bool, path: bool },
    Doctor,
    Help,
    Version,
}

pub struct CliView {
    pub command: CommandView,
    pub global: GlobalView,
}

impl View for Search {
    type V = SearchView;

    open spec fn view(&self) -> SearchView {
        SearchView {
            terms: text::texts(self.terms@),
            fields: self.fields@,
            topics: self.topics@,
            limit: self.limit,
            extension: self.extension.deep_view(),
            language: self.language.deep_view(),
            first: self.first,
            no_download: self.no_download,
        }
    }
}

impl View for Global {
    type V = GlobalView;

    open spec fn view(&self) -> GlobalView {
        GlobalView {
            mirrors: text::texts(self.mirrors@),
            refresh_mirrors: self.refresh_mirrors,
            dest_dir: self.dest_dir.deep_view(),
            output: self.output.deep_view(),
            max_size: self.max_size,
            verify: self.verify,
            force: self.force,
            no_resume: self.no_resume,
            allow_http: self.allow_http,
            allow_private_hosts: self.allow_private_hosts,
            no_color: self.no_color,
            quiet: self.quiet,
            json: self.json,
            reader: self.reader.deep_view(),
            no_covers: self.no_covers,
        }
    }
}

impl View for Command {
    type V = CommandView;

    open spec fn view(&self) -> CommandView {
        match *self {
            Command::Search(s) => CommandView::Search(s@),
            Command::Get { md5 } => CommandView::Get(md5@),
            Command::Mirrors { refresh } => CommandView::Mirrors { refresh },
            Command::History { limit, clear } => CommandView::History { limit, clear },
            Command::Open { selector, reveal, with } => CommandView::Open {
                selector: selector@,
                reveal,
                with: with.deep_view(),
            },
            Command::Tui { query } => CommandView::Tui(query.deep_view()),
            Command::Config { init, path } => CommandView::Config { init, path },
            Command::Doctor => CommandView::Doctor,
            Command::Help => CommandView::Help,
            Command::Version => CommandView::Version,
        }
    }
}

impl View for Cli {
    type V = CliView;

    open spec fn view(&self) -> CliView {
        CliView { command: self.command@, global: self.global@ }
    }
}

pub open spec fn empty_search() -> SearchView {
    SearchView {
        terms: seq![],
        fields: seq![],
        topics: seq![],
        limit: None,
        extension: None,
        language: None,
        first: false,
        no_download: false,
    }
}

pub open spec fn empty_global() -> GlobalView {
    GlobalView {
        mirrors: seq![],
        refresh_mirrors: false,
        dest_dir: None,
        output: None,
        max_size: None,
        verify: None,
        force: false,
        no_resume: false,
        allow_http: false,
        allow_private_hosts: false,
        no_color: false,
        quiet: false,
        json: false,
        reader: None,
        no_covers: false,
    }
}

impl Default for Search {
    fn default() -> (r: Self)
        ensures
            r@ == empty_search(),
    {
        let r = Search {
            terms: Vec::new(),
            fields: Vec::new(),
            topics: Vec::new(),
            limit: None,
            extension: None,
            language: None,
            first: false,
            no_download: false,
        };
        assert(r@.terms =~= seq![] && r@.fields =~= seq![] && r@.topics =~= seq![]);
        r
    }
}

impl Default for Global {
    fn default() -> (r: Self)
        ensures
            r@ == empty_global(),
    {
        let r = Global {
            mirrors: Vec::new(),
            refresh_mirrors: false,
            dest_dir: None,
            output: None,
            max_size: None,
            verify: None,
            force: false,
            no_resume: false,
            allow_http: false,
            allow_private_hosts: false,
            no_color: false,
            quiet: false,
            json: false,
            reader: None,
            no_covers: false,
        };
        assert(r@.mirrors =~= seq![]);
        r
    }
}

// ---------------------------------------------------------------------------
// Flags
// ---------------------------------------------------------------------------

/// Everything a flag can mean.
#[derive(Debug, Clone, Copy, PartialEq, Eq, Structural)]
pub enum Flag {
    Help,
    Version,
    Column(Field),
    Limit,
    Ext,
    Lang,
    Topics,
    First,
    NoDownload,
    Dir,
    Output,
    Json,
    Mirror,
    Refresh,
    MaxSize,
    NoVerify,
    Force,
    NoResume,
    AllowHttp,
    AllowPrivateHosts,
    NoColor,
    Quiet,
    NoCovers,
    With,
    Find,
    Clear,
    Init,
    Path,
}

/// What a flag means, under every name it has.
pub open spec fn flag_named(s: Seq<char>) -> Option<Flag> {
    if s == "-h"@ || s == "--help"@ {
        Some(Flag::Help)
    } else if s == "-V"@ || s == "--version"@ {
        Some(Flag::Version)
    } else if s == "-a"@ || s == "--author"@ {
        Some(Flag::Column(Field::Author))
    } else if s == "-t"@ || s == "--title"@ {
        Some(Flag::Column(Field::Title))
    } else if s == "--isbn"@ {
        Some(Flag::Column(Field::Isbn))
    } else if s == "--publisher"@ {
        Some(Flag::Column(Field::Publisher))
    } else if s == "-s"@ || s == "--series"@ {
        Some(Flag::Column(Field::Series))
    } else if s == "--year"@ {
        Some(Flag::Column(Field::Year))
    } else if s == "-n"@ || s == "--limit"@ {
        Some(Flag::Limit)
    } else if s == "-e"@ || s == "--ext"@ || s == "--extension"@ {
        Some(Flag::Ext)
    } else if s == "-l"@ || s == "--lang"@ || s == "--language"@ {
        Some(Flag::Lang)
    } else if s == "--topic"@ {
        Some(Flag::Topics)
    } else if s == "-y"@ || s == "--first"@ || s == "--yes"@ {
        Some(Flag::First)
    } else if s == "--no-download"@ || s == "--search-only"@ {
        Some(Flag::NoDownload)
    } else if s == "-d"@ || s == "--dir"@ {
        Some(Flag::Dir)
    } else if s == "-o"@ || s == "--output"@ {
        Some(Flag::Output)
    } else if s == "--json"@ {
        Some(Flag::Json)
    } else if s == "-m"@ || s == "--mirror"@ {
        Some(Flag::Mirror)
    } else if s == "--refresh"@ || s == "--refresh-mirrors"@ {
        Some(Flag::Refresh)
    } else if s == "--max-size"@ {
        Some(Flag::MaxSize)
    } else if s == "--no-verify"@ {
        Some(Flag::NoVerify)
    } else if s == "-f"@ || s == "--force"@ {
        Some(Flag::Force)
    } else if s == "--no-resume"@ {
        Some(Flag::NoResume)
    } else if s == "--allow-http"@ {
        Some(Flag::AllowHttp)
    } else if s == "--allow-private-hosts"@ {
        Some(Flag::AllowPrivateHosts)
    } else if s == "--no-color"@ || s == "--no-colour"@ || s == "--plain"@ {
        Some(Flag::NoColor)
    } else if s == "-q"@ || s == "--quiet"@ {
        Some(Flag::Quiet)
    } else if s == "--no-covers"@ {
        Some(Flag::NoCovers)
    } else if s == "--with"@ {
        Some(Flag::With)
    } else if s == "--find"@ {
        Some(Flag::Find)
    } else if s == "--clear"@ {
        Some(Flag::Clear)
    } else if s == "--init"@ {
        Some(Flag::Init)
    } else if s == "--path"@ {
        Some(Flag::Path)
    } else {
        None
    }
}

fn flag(s: &str) -> (r: Option<Flag>)
    ensures
        r == flag_named(s@),
{
    if same(s, "-h") || same(s, "--help") {
        Some(Flag::Help)
    } else if same(s, "-V") || same(s, "--version") {
        Some(Flag::Version)
    } else if same(s, "-a") || same(s, "--author") {
        Some(Flag::Column(Field::Author))
    } else if same(s, "-t") || same(s, "--title") {
        Some(Flag::Column(Field::Title))
    } else if same(s, "--isbn") {
        Some(Flag::Column(Field::Isbn))
    } else if same(s, "--publisher") {
        Some(Flag::Column(Field::Publisher))
    } else if same(s, "-s") || same(s, "--series") {
        Some(Flag::Column(Field::Series))
    } else if same(s, "--year") {
        Some(Flag::Column(Field::Year))
    } else if same(s, "-n") || same(s, "--limit") {
        Some(Flag::Limit)
    } else if same(s, "-e") || same(s, "--ext") || same(s, "--extension") {
        Some(Flag::Ext)
    } else if same(s, "-l") || same(s, "--lang") || same(s, "--language") {
        Some(Flag::Lang)
    } else if same(s, "--topic") {
        Some(Flag::Topics)
    } else if same(s, "-y") || same(s, "--first") || same(s, "--yes") {
        Some(Flag::First)
    } else if same(s, "--no-download") || same(s, "--search-only") {
        Some(Flag::NoDownload)
    } else if same(s, "-d") || same(s, "--dir") {
        Some(Flag::Dir)
    } else if same(s, "-o") || same(s, "--output") {
        Some(Flag::Output)
    } else if same(s, "--json") {
        Some(Flag::Json)
    } else if same(s, "-m") || same(s, "--mirror") {
        Some(Flag::Mirror)
    } else if same(s, "--refresh") || same(s, "--refresh-mirrors") {
        Some(Flag::Refresh)
    } else if same(s, "--max-size") {
        Some(Flag::MaxSize)
    } else if same(s, "--no-verify") {
        Some(Flag::NoVerify)
    } else if same(s, "-f") || same(s, "--force") {
        Some(Flag::Force)
    } else if same(s, "--no-resume") {
        Some(Flag::NoResume)
    } else if same(s, "--allow-http") {
        Some(Flag::AllowHttp)
    } else if same(s, "--allow-private-hosts") {
        Some(Flag::AllowPrivateHosts)
    } else if same(s, "--no-color") || same(s, "--no-colour") || same(s, "--plain") {
        Some(Flag::NoColor)
    } else if same(s, "-q") || same(s, "--quiet") {
        Some(Flag::Quiet)
    } else if same(s, "--no-covers") {
        Some(Flag::NoCovers)
    } else if same(s, "--with") {
        Some(Flag::With)
    } else if same(s, "--find") {
        Some(Flag::Find)
    } else if same(s, "--clear") {
        Some(Flag::Clear)
    } else if same(s, "--init") {
        Some(Flag::Init)
    } else if same(s, "--path") {
        Some(Flag::Path)
    } else {
        None
    }
}

/// Whether a flag is followed by a value.
pub open spec fn takes_value(f: Flag) -> bool {
    match f {
        Flag::Column(_) | Flag::Limit | Flag::Ext | Flag::Lang | Flag::Topics | Flag::Dir
        | Flag::Output | Flag::Mirror | Flag::MaxSize | Flag::With | Flag::Find => true,
        _ => false,
    }
}

fn wants_value(f: Flag) -> (r: bool)
    ensures
        r == takes_value(f),
{
    match f {
        Flag::Column(_) | Flag::Limit | Flag::Ext | Flag::Lang | Flag::Topics | Flag::Dir
        | Flag::Output | Flag::Mirror | Flag::MaxSize | Flag::With | Flag::Find => true,
        _ => false,
    }
}

// ---------------------------------------------------------------------------
// Reading the arguments
// ---------------------------------------------------------------------------

/// What has been read so far.
struct Draft {
    search: Search,
    global: Global,
    positionals: Vec<String>,
    refresh: bool,
    init: bool,
    path: bool,
    clear: bool,
    find: Option<String>,
}

/// What has been read so far, by value.
pub struct DraftView {
    pub search: SearchView,
    pub global: GlobalView,
    pub positionals: Seq<Seq<char>>,
    pub refresh: bool,
    pub init: bool,
    pub path: bool,
    pub clear: bool,
    pub find: Option<Seq<char>>,
}

impl View for Draft {
    type V = DraftView;

    closed spec fn view(&self) -> DraftView {
        DraftView {
            search: self.search@,
            global: self.global@,
            positionals: text::texts(self.positionals@),
            refresh: self.refresh,
            init: self.init,
            path: self.path,
            clear: self.clear,
            find: self.find.deep_view(),
        }
    }
}

pub open spec fn blank_draft() -> DraftView {
    DraftView {
        search: empty_search(),
        global: empty_global(),
        positionals: seq![],
        refresh: false,
        init: false,
        path: false,
        clear: false,
        find: None,
    }
}

/// What a flag without a value does to the search.
pub open spec fn switched_search(s: SearchView, f: Flag) -> SearchView {
    SearchView {
        first: s.first || f == Flag::First,
        no_download: s.no_download || f == Flag::NoDownload,
        ..s
    }
}

/// What a flag without a value does to the shared options.
pub open spec fn switched_global(g: GlobalView, f: Flag) -> GlobalView {
    GlobalView {
        json: g.json || f == Flag::Json,
        refresh_mirrors: g.refresh_mirrors || f == Flag::Refresh,
        verify: if f == Flag::NoVerify {
            Some(false)
        } else {
            g.verify
        },
        force: g.force || f == Flag::Force,
        no_resume: g.no_resume || f == Flag::NoResume,
        allow_http: g.allow_http || f == Flag::AllowHttp,
        allow_private_hosts: g.allow_private_hosts || f == Flag::AllowPrivateHosts,
        no_color: g.no_color || f == Flag::NoColor,
        quiet: g.quiet || f == Flag::Quiet,
        no_covers: g.no_covers || f == Flag::NoCovers,
        ..g
    }
}

/// What a flag without a value does.
pub open spec fn switched(d: DraftView, f: Flag) -> DraftView {
    DraftView {
        search: switched_search(d.search, f),
        global: switched_global(d.global, f),
        refresh: d.refresh || f == Flag::Refresh,
        clear: d.clear || f == Flag::Clear,
        init: d.init || f == Flag::Init,
        path: d.path || f == Flag::Path,
        ..d
    }
}

fn switch_search(s: Search, f: Flag) -> (r: Search)
    ensures
        r@ == switched_search(s@, f),
{
    Search {
        first: s.first || f == Flag::First,
        no_download: s.no_download || f == Flag::NoDownload,
        ..s
    }
}

fn switch_global(g: Global, f: Flag) -> (r: Global)
    ensures
        r@ == switched_global(g@, f),
{
    Global {
        json: g.json || f == Flag::Json,
        refresh_mirrors: g.refresh_mirrors || f == Flag::Refresh,
        verify: if f == Flag::NoVerify {
            Some(false)
        } else {
            g.verify
        },
        force: g.force || f == Flag::Force,
        no_resume: g.no_resume || f == Flag::NoResume,
        allow_http: g.allow_http || f == Flag::AllowHttp,
        allow_private_hosts: g.allow_private_hosts || f == Flag::AllowPrivateHosts,
        no_color: g.no_color || f == Flag::NoColor,
        quiet: g.quiet || f == Flag::Quiet,
        no_covers: g.no_covers || f == Flag::NoCovers,
        ..g
    }
}

/// What a flag with a value does, or why the value will not do.
pub open spec fn valued(d: DraftView, f: Flag, v: Seq<char>, home: Seq<char>) -> Result<
    DraftView,
    Seq<char>,
> {
    match f {
        Flag::Column(c) => Ok(
            DraftView {
                search: SearchView { fields: d.search.fields.push(c), ..d.search },
                positionals: d.positionals.push(v),
                ..d
            },
        ),
        Flag::Limit => match term::word_of(v) {
            None => Err("`--limit` expects a number, got `"@ + v + "`"@),
            Some(n) => if n == 0 {
                Err("`--limit` must be at least 1"@)
            } else {
                Ok(
                    DraftView {
                        search: SearchView {
                            limit: Some(
                                if n < 100 {
                                    n as usize
                                } else {
                                    100usize
                                },
                            ),
                            ..d.search
                        },
                        ..d
                    },
                )
            },
        },
        Flag::Ext => Ok(
            DraftView {
                search: SearchView {
                    extension: Some(text::ascii_lower(text::stripped_start(v, '.'))),
                    ..d.search
                },
                ..d
            },
        ),
        Flag::Lang => Ok(
            DraftView { search: SearchView { language: Some(v), ..d.search }, ..d },
        ),
        Flag::Topics => match model::first_unknown_topic(text::list_items(v)) {
            Some(name) => Err(config::unknown_topic(name)),
            None => Ok(
                DraftView {
                    search: SearchView {
                        topics: d.search.topics + model::topics_named(text::list_items(v))->0,
                        ..d.search
                    },
                    ..d
                },
            ),
        },
        Flag::Dir => Ok(
            DraftView {
                global: GlobalView { dest_dir: Some(config::expanded(v, home)), ..d.global },
                ..d
            },
        ),
        Flag::Output => Ok(DraftView { global: GlobalView { output: Some(v), ..d.global }, ..d }),
        Flag::Mirror => Ok(
            DraftView {
                global: GlobalView {
                    mirrors: d.global.mirrors + text::list_items(v),
                    ..d.global
                },
                ..d
            },
        ),
        Flag::MaxSize => match model::size_of_text(v) {
            Some(n) => if n <= u64::MAX {
                Ok(
                    DraftView {
                        global: GlobalView { max_size: Some(n as u64), ..d.global },
                        ..d
                    },
                )
            } else {
                Err("`--max-size` is not a size: `"@ + v + "`"@)
            },
            None => Err("`--max-size` is not a size: `"@ + v + "`"@),
        },
        Flag::With => Ok(DraftView { global: GlobalView { reader: Some(v), ..d.global }, ..d }),
        Flag::Find => Ok(DraftView { find: Some(v), ..d }),
        _ => Ok(d),
    }
}

/// What reading one argument leads to.
pub enum Step {
    /// Go on at an argument, with what has been read and whether flags are
    /// still being read.
    On(int, DraftView, bool),
    /// The command is settled.
    Settled(CommandView, GlobalView),
    Fault(Seq<char>),
}

/// Whether an argument is read as it stands rather than as a flag.
pub open spec fn positional(arg: Seq<char>, flags_done: bool) -> bool {
    flags_done || arg.len() == 0 || arg[0] != '-' || arg == "-"@
}

/// The flag in an argument, and the value given behind an equals sign.
pub open spec fn flag_parts(arg: Seq<char>) -> (Seq<char>, Option<Seq<char>>) {
    match text::cut(arg, '=') {
        Some((k, v)) => (k, Some(v)),
        None => (arg, None),
    }
}

/// The value of a flag, and where to go on: what stands behind the equals
/// sign, else the next argument, which must not look like a flag itself.
pub open spec fn value_at(args: Seq<Seq<char>>, i: int) -> Result<(Seq<char>, int), Seq<char>> {
    let (name, given) = flag_parts(args[i]);
    match given {
        Some(v) => Ok((v, i + 1)),
        None => if i + 1 >= args.len() {
            Err("`"@ + name + "` needs a value"@)
        } else if args[i + 1].len() > 1 && args[i + 1][0] == '-' {
            Err("`"@ + name + "` needs a value, but got `"@ + args[i + 1] + "`"@)
        } else {
            Ok((args[i + 1], i + 2))
        },
    }
}

/// Read the argument at `i`.
pub open spec fn step(
    args: Seq<Seq<char>>,
    i: int,
    d: DraftView,
    flags_done: bool,
    home: Seq<char>,
) -> Step {
    let arg = args[i];
    if positional(arg, flags_done) {
        Step::On(i + 1, DraftView { positionals: d.positionals.push(arg), ..d }, flags_done)
    } else if arg == "--"@ {
        Step::On(i + 1, d, true)
    } else {
        match flag_named(flag_parts(arg).0) {
            None => Step::Fault(
                "unknown option `"@ + flag_parts(arg).0 + "` (try `tomesole --help`)"@,
            ),
            Some(Flag::Help) => Step::Settled(CommandView::Help, d.global),
            Some(Flag::Version) => Step::Settled(CommandView::Version, d.global),
            Some(f) => if takes_value(f) {
                match value_at(args, i) {
                    Err(e) => Step::Fault(e),
                    Ok((v, next)) => match valued(d, f, v, home) {
                        Err(e) => Step::Fault(e),
                        Ok(d2) => Step::On(next, d2, false),
                    },
                }
            } else {
                Step::On(i + 1, switched(d, f), false)
            },
        }
    }
}

/// Read the arguments from `i` on.
pub open spec fn scan(
    args: Seq<Seq<char>>,
    i: int,
    d: DraftView,
    flags_done: bool,
    home: Seq<char>,
) -> Step
    decreases args.len() - i,
{
    if i >= args.len() {
        Step::On(i, d, flags_done)
    } else {
        match step(args, i, d, flags_done, home) {
            Step::On(j, d2, done) => if j > i {
                scan(args, j, d2, done, home)
            } else {
                Step::On(j, d2, done)
            },
            s => s,
        }
    }
}

/// The words that name a command when they come first.
pub open spec fn is_subcommand(s: Seq<char>) -> bool {
    s == "search"@ || s == "get"@ || s == "mirrors"@ || s == "history"@ || s == "open"@ || s
        == "reveal"@ || s == "config"@ || s == "doctor"@ || s == "help"@ || s == "version"@ || s
        == "tui"@
}

fn subcommand(s: &str) -> (r: bool)
    ensures
        r == is_subcommand(s@),
{
    same(s, "search") || same(s, "get") || same(s, "mirrors") || same(s, "history") || same(
        s,
        "open",
    ) || same(s, "reveal") || same(s, "config") || same(s, "doctor") || same(s, "help") || same(
        s,
        "version",
    ) || same(s, "tui")
}

/// Where the hexadecimal digits from `i` on end.
pub open spec fn hex_end(s: Seq<char>, i: int) -> int
    decreases s.len() - i,
{
    if 0 <= i < s.len() && text::is_hex(s[i]) {
        hex_end(s, i + 1)
    } else {
        i
    }
}

/// The MD5 in a text: the text itself, what follows `md5=`, or the last segment
/// of a path.
pub open spec fn md5_in(input: Seq<char>) -> Option<Seq<char>> {
    let t = text::trimmed(input);
    let at = text::find_from(t, "md5="@, 0);
    let candidate = t.subrange(at->0 + 4, hex_end(t, at->0 + 4));
    let last = text::last_piece(t, '/');
    if model::md5_shaped(t) {
        Some(text::ascii_lower(t))
    } else if at is Some && model::md5_shaped(candidate) {
        Some(text::ascii_lower(candidate))
    } else if model::md5_shaped(last) {
        Some(text::ascii_lower(last))
    } else {
        None
    }
}

/// Accept either a bare MD5 or a Libgen URL containing one.
fn extract_md5_argument(input: &str) -> (r: Result<String, Error>)
    ensures
        match r {
            Ok(m) => md5_in(input@) == Some(m@),
            Err(e) => md5_in(input@) is None && e.text@ == "`"@ + input@
                + "` is not a 32-character MD5 or a Libgen link containing one"@,
        },
{
    let trimmed = trim(input);
    if is_md5(&trimmed) {
        return Ok(to_ascii_lower(&trimmed));
    }
    let v = chars_of(&trimmed);
    let n: usize = v.len();
    let key = chars_of("md5=");
    proof {
        reveal_strlit("md5=");
        assert(key@.len() == 4);
        assert(n == v@.len());
    }
    if let Some(at) = find_in(&v, &key, 0) {
        let from: usize = at + 4;
        let mut e: usize = from;
        while e < v.len() && hex(v[e])
            invariant
                from <= e <= v@.len(),
                hex_end(v@, from as int) == hex_end(v@, e as int),
            decreases v@.len() - e,
        {
            e += 1;
        }
        let candidate = string_of(cut_out(&v, from, e));
        if is_md5(&candidate) {
            return Ok(to_ascii_lower(&candidate));
        }
    }
    let parts = split(&trimmed, '/');
    proof {
        text::lemma_pieces_nonempty(trimmed@, '/', 0);
        assert(text::texts(parts@).len() == parts@.len());
        assert(text::texts(parts@).last() == parts@.last()@);
    }
    let last = &parts[parts.len() - 1];
    if is_md5(last) {
        return Ok(to_ascii_lower(last));
    }
    let mut e = "`".to_owned();
    e.append(input);
    e.append("` is not a 32-character MD5 or a Libgen link containing one");
    Err(Error::new(e))
}

/// A bare query: the interface when there is nothing to search for, a direct
/// download when it is nothing but an MD5, else a search.
pub open spec fn bare(d: DraftView, terms: Seq<Seq<char>>) -> CommandView {
    if terms.len() == 0 {
        CommandView::Tui(None)
    } else if terms.len() == 1 && model::md5_shaped(terms[0]) {
        CommandView::Get(text::ascii_lower(terms[0]))
    } else {
        CommandView::Search(SearchView { terms, ..d.search })
    }
}

/// Whether the words after `open` or `reveal` can name a past download: none at
/// all, a single number, or a single MD5.
pub open spec fn names_a_download(d: DraftView) -> bool {
    ||| d.positionals.len() == 0
    ||| d.find is None && d.positionals.len() == 1 && (term::word_of(d.positionals[0]) is Some
        || model::md5_shaped(d.positionals[0]))
}

/// Which past download is meant.
pub open spec fn selector_of(d: DraftView) -> Seq<char> {
    match d.find {
        Some(f) => f,
        None => if d.positionals.len() == 0 {
            seq![]
        } else {
            d.positionals[0]
        },
    }
}

/// The command, once every argument has been read. `history`, `open` and
/// `reveal` are also ordinary words, so they name a command only when what
/// follows fits, and start a query otherwise.
pub open spec fn concluded(name: Option<Seq<char>>, d: DraftView) -> Result<
    CommandView,
    Seq<char>,
> {
    match name {
        None => Ok(bare(d, d.positionals)),
        Some(n) => if n == "help"@ {
            Ok(CommandView::Help)
        } else if n == "version"@ {
            Ok(CommandView::Version)
        } else if n == "doctor"@ {
            Ok(CommandView::Doctor)
        } else if n == "tui"@ {
            Ok(
                CommandView::Tui(
                    if d.positionals.len() == 0 {
                        None
                    } else {
                        Some(text::joined(d.positionals, " "@))
                    },
                ),
            )
        } else if n == "mirrors"@ {
            Ok(CommandView::Mirrors { refresh: d.refresh })
        } else if n == "config"@ {
            Ok(CommandView::Config { init: d.init, path: d.path })
        } else if n == "get"@ {
            if d.positionals.len() == 0 {
                Err("`get` needs an MD5, e.g. `tomesole get 1b915999…`"@)
            } else {
                match md5_in(d.positionals[0]) {
                    Some(m) => Ok(CommandView::Get(m)),
                    None => Err(
                        "`"@ + d.positionals[0]
                            + "` is not a 32-character MD5 or a Libgen link containing one"@,
                    ),
                }
            }
        } else if n == "history"@ && d.positionals.len() == 0 {
            Ok(CommandView::History { limit: d.search.limit, clear: d.clear })
        } else if (n == "open"@ || n == "reveal"@) && names_a_download(d) {
            Ok(
                CommandView::Open {
                    selector: selector_of(d),
                    reveal: n == "reveal"@,
                    with: d.global.reader,
                },
            )
        } else if n == "history"@ || n == "open"@ || n == "reveal"@ {
            Ok(bare(d, seq![n] + d.positionals))
        } else {
            Ok(bare(d, d.positionals))
        },
    }
}

/// What a whole command line asks for.
pub open spec fn parsed(argv: Seq<Seq<char>>, home: Seq<char>) -> Result<CliView, Seq<char>> {
    let named = argv.len() > 0 && is_subcommand(argv[0]);
    let rest = if named {
        argv.subrange(1, argv.len() as int)
    } else {
        argv
    };
    match scan(rest, 0, blank_draft(), false, home) {
        Step::Fault(e) => Err(e),
        Step::Settled(command, global) => Ok(CliView { command, global }),
        Step::On(_, d, _) => match concluded(
            if named {
                Some(argv[0])
            } else {
                None
            },
            d,
        ) {
            Err(e) => Err(e),
            Ok(command) => Ok(CliView { command, global: d.global }),
        },
    }
}

impl Draft {
    fn blank() -> (r: Self)
        ensures
            r@ == blank_draft(),
    {
        let r = Draft {
            search: Search::default(),
            global: Global::default(),
            positionals: Vec::new(),
            refresh: false,
            init: false,
            path: false,
            clear: false,
            find: None,
        };
        assert(r@.positionals =~= seq![]);
        r
    }

    /// Act on a flag that takes no value.
    fn switch(self, f: Flag) -> (r: Self)
        ensures
            r@ == switched(self@, f),
    {
        Draft {
            search: switch_search(self.search, f),
            global: switch_global(self.global, f),
            refresh: self.refresh || f == Flag::Refresh,
            clear: self.clear || f == Flag::Clear,
            init: self.init || f == Flag::Init,
            path: self.path || f == Flag::Path,
            ..self
        }
    }

    /// Act on a flag that takes a value and shapes the search.
    fn take_search(self, f: Flag, v: String) -> (r: Result<Self, Error>)
        requires
            f is Column || f is Limit || f is Ext || f is Lang || f is Topics || f is Find,
        ensures
            forall|home: Seq<char>|
                match r {
                    Ok(d) => #[trigger] valued(self@, f, v@, home) == Ok::<DraftView, Seq<char>>(
                        d@,
                    ),
                    Err(e) => valued(self@, f, v@, home) == Err::<DraftView, Seq<char>>(e.text@),
                },
    {
        broadcast use text::lemma_texts_push;

        let mut d = self;
        match f {
            Flag::Column(c) => {
                d.search.fields.push(c);
                d.positionals.push(v);
            },
            Flag::Limit => {
                match parse_usize(&v) {
                    None => {
                        let mut e = "`--limit` expects a number, got `".to_owned();
                        e.append(&v);
                        e.append("`");
                        return Err(Error::new(e));
                    },
                    Some(n) => {
                        if n == 0 {
                            return Err(Error::new("`--limit` must be at least 1".to_owned()));
                        }
                        d.search.limit = Some(
                            if n < 100 {
                                n
                            } else {
                                100
                            },
                        );
                    },
                }
            },
            Flag::Ext => {
                d.search.extension = Some(to_ascii_lower(&trim_start_matches(&v, '.')));
            },
            Flag::Lang => {
                d.search.language = Some(v);
            },
            Flag::Topics => {
                match parse_topics(&split_list(&v)) {
                    Ok(mut ts) => {
                        d.search.topics.append(&mut ts);
                    },
                    Err(name) => {
                        return Err(topic_fault(&name));
                    },
                }
            },
            _ => {
                d.find = Some(v);
            },
        }
        Ok(d)
    }

    /// Act on a flag that takes a value and concerns every command.
    fn take_global(self, f: Flag, v: String, env: &Env) -> (r: Result<Self, Error>)
        requires
            f is Dir || f is Output || f is Mirror || f is MaxSize || f is With,
        ensures
            match r {
                Ok(d) => valued(self@, f, v@, env.home_path()) == Ok::<DraftView, Seq<char>>(d@),
                Err(e) => valued(self@, f, v@, env.home_path()) == Err::<DraftView, Seq<char>>(
                    e.text@,
                ),
            },
    {
        broadcast use text::lemma_texts_concat;

        let mut d = self;
        match f {
            Flag::Dir => {
                d.global.dest_dir = Some(expand_tilde(&v, env));
            },
            Flag::Output => {
                d.global.output = Some(v);
            },
            Flag::Mirror => {
                let mut items = split_list(&v);
                d.global.mirrors.append(&mut items);
            },
            Flag::MaxSize => {
                match parse_size(&v) {
                    Some(n) => {
                        d.global.max_size = Some(n);
                    },
                    None => {
                        let mut e = "`--max-size` is not a size: `".to_owned();
                        e.append(&v);
                        e.append("`");
                        return Err(Error::new(e));
                    },
                }
            },
            _ => {
                d.global.reader = Some(v);
            },
        }
        Ok(d)
    }

    /// Act on a flag that takes a value.
    fn take(self, f: Flag, v: String, env: &Env) -> (r: Result<Self, Error>)
        requires
            takes_value(f),
        ensures
            match r {
                Ok(d) => valued(self@, f, v@, env.home_path()) == Ok::<DraftView, Seq<char>>(d@),
                Err(e) => valued(self@, f, v@, env.home_path()) == Err::<DraftView, Seq<char>>(
                    e.text@,
                ),
            },
    {
        match f {
            Flag::Dir | Flag::Output | Flag::Mirror | Flag::MaxSize | Flag::With => {
                self.take_global(f, v, env)
            },
            _ => self.take_search(f, v),
        }
    }
}

/// Fetch the value for a flag that needs one, and where to go on.
fn take_value(rest: &Vec<String>, i: usize, name: &str, given: Option<String>) -> (r: Result<
    (String, usize),
    Error,
>)
    requires
        i < rest@.len(),
        (name@, given.deep_view()) == flag_parts(rest@[i as int]@),
    ensures
        match r {
            Ok((v, next)) => value_at(text::texts(rest@), i as int) == Ok::<
                (Seq<char>, int),
                Seq<char>,
            >((v@, next as int)) && i < next <= rest@.len(),
            Err(e) => value_at(text::texts(rest@), i as int) == Err::<(Seq<char>, int), Seq<char>>(
                e.text@,
            ),
        },
{
    let n: usize = rest.len();
    assert(text::texts(rest@)[i as int] == rest@[i as int]@);
    if let Some(v) = given {
        return Ok((v, i + 1));
    }
    if i + 1 >= n {
        let mut e = "`".to_owned();
        e.append(name);
        e.append("` needs a value");
        return Err(Error::new(e));
    }
    assert(text::texts(rest@)[i + 1] == rest@[i + 1]@);
    let value = rest[i + 1].clone();
    let cs = chars_of(&value);
    if cs.len() > 1 && cs[0] == '-' {
        let mut e = "`".to_owned();
        e.append(name);
        e.append("` needs a value, but got `");
        e.append(&value);
        e.append("`");
        return Err(Error::new(e));
    }
    Ok((value, i + 2))
}

fn copy_tail(v: &Vec<String>, from: usize) -> (r: Vec<String>)
    requires
        from <= v@.len(),
    ensures
        r@ == v@.subrange(from as int, v@.len() as int),
{
    let mut out: Vec<String> = Vec::new();
    let mut i: usize = from;
    while i < v.len()
        invariant
            from <= i <= v@.len(),
            out@ == v@.subrange(from as int, i as int),
        decreases v@.len() - i,
    {
        out.push(v[i].clone());
        i += 1;
        assert(v@.subrange(from as int, i as int) =~= v@.subrange(from as int, i - 1).push(
            v@[i - 1],
        ));
    }
    out
}

/// Read arguments, excluding the program name.
pub fn parse(argv: &Vec<String>, env: &Env) -> (r: Result<Cli, Error>)
    ensures
        match r {
            Ok(cli) => parsed(text::texts(argv@), env.home_path()) == Ok::<CliView, Seq<char>>(
                cli@,
            ),
            Err(e) => parsed(text::texts(argv@), env.home_path()) == Err::<CliView, Seq<char>>(
                e.text@,
            ),
        },
{
    broadcast use text::lemma_texts_push;

    let ghost all = text::texts(argv@);
    let named = argv.len() > 0 && subcommand(&argv[0]);
    assert(argv@.len() > 0 ==> all[0] == argv@[0]@);
    let rest = copy_tail(argv, if named {
        1
    } else {
        0
    });
    let ghost args = text::texts(rest@);
    assert(named ==> args =~= all.subrange(1, all.len() as int));
    assert(!named ==> args =~= all);
    let ghost h = env.home_path();
    let mut d = Draft::blank();
    let mut i: usize = 0;
    let mut flags_done = false;
    while i < rest.len()
        invariant
            i <= rest@.len(),
            args == text::texts(rest@),
            h == env.home_path(),
            scan(args, 0, blank_draft(), false, h) == scan(args, i as int, d@, flags_done, h),
            named == (all.len() > 0 && is_subcommand(all[0])),
            all == text::texts(argv@),
            named ==> args == all.subrange(1, all.len() as int),
            !named ==> args == all,
        decreases rest@.len() - i,
    {
        broadcast use text::lemma_texts_push;

        assert(args[i as int] == rest@[i as int]@);
        let cs = chars_of(&rest[i]);
        if flags_done || cs.len() == 0 || cs[0] != '-' || same(&rest[i], "-") {
            let ghost before = d@;
            d.positionals.push(rest[i].clone());
            assert(d@ == DraftView { positionals: before.positionals.push(args[i as int]), ..before
            });
            i += 1;
            continue;
        }
        if same(&rest[i], "--") {
            flags_done = true;
            i += 1;
            continue;
        }
        let (name, given): (String, Option<String>) = match split_once(&rest[i], '=') {
            Some((k, v)) => (k, Some(v)),
            None => (rest[i].clone(), None),
        };
        let f = match flag(&name) {
            Some(f) => f,
            None => {
                let mut e = "unknown option `".to_owned();
                e.append(&name);
                e.append("` (try `tomesole --help`)");
                return Err(Error::new(e));
            },
        };
        match f {
            Flag::Help => {
                return Ok(Cli { command: Command::Help, global: d.global });
            },
            Flag::Version => {
                return Ok(Cli { command: Command::Version, global: d.global });
            },
            _ => {},
        }
        if wants_value(f) {
            let (v, next) = match take_value(&rest, i, &name, given) {
                Ok(x) => x,
                Err(e) => return Err(e),
            };
            d = match d.take(f, v, env) {
                Ok(next) => next,
                Err(e) => return Err(e),
            };
            i = next;
        } else {
            d = d.switch(f);
            i += 1;
        }
    }
    let command = if named {
        match conclude_named(&argv[0], &mut d) {
            Ok(c) => c,
            Err(e) => return Err(e),
        }
    } else {
        conclude_bare(&mut d)
    };
    Ok(Cli { command, global: d.global })
}

/// The command of a bare query.
fn conclude_bare(d: &mut Draft) -> (r: Command)
    ensures
        r@ == bare(old(d)@, old(d)@.positionals),
        final(d).global == old(d).global,
{
    let mut terms: Vec<String> = Vec::new();
    let mut search = Search::default();
    assert(text::texts(d.positionals@).len() == d.positionals@.len());
    if d.positionals.len() == 0 {
        return Command::Tui { query: None };
    }
    assert(text::texts(d.positionals@)[0] == d.positionals@[0]@);
    if d.positionals.len() == 1 && is_md5(&d.positionals[0]) {
        return Command::Get { md5: to_ascii_lower(&d.positionals[0]) };
    }
    std::mem::swap(&mut terms, &mut d.positionals);
    std::mem::swap(&mut search, &mut d.search);
    search.terms = terms;
    Command::Search(search)
}

/// The command of a line that begins with a command's name.
fn conclude_named(name: &str, d: &mut Draft) -> (r: Result<Command, Error>)
    requires
        is_subcommand(name@),
    ensures
        match r {
            Ok(c) => concluded(Some(name@), old(d)@) == Ok::<CommandView, Seq<char>>(c@),
            Err(e) => concluded(Some(name@), old(d)@) == Err::<CommandView, Seq<char>>(e.text@),
        },
        final(d).global == old(d).global,
{
    broadcast use text::lemma_texts_push;

    assert(text::texts(d.positionals@).len() == d.positionals@.len());
    assert(d.positionals@.len() > 0 ==> text::texts(d.positionals@)[0] == d.positionals@[0]@);
    if same(name, "help") {
        return Ok(Command::Help);
    }
    if same(name, "version") {
        return Ok(Command::Version);
    }
    if same(name, "doctor") {
        return Ok(Command::Doctor);
    }
    if same(name, "tui") {
        return Ok(
            Command::Tui {
                query: if d.positionals.len() == 0 {
                    None
                } else {
                    Some(join(&d.positionals, " "))
                },
            },
        );
    }
    if same(name, "mirrors") {
        return Ok(Command::Mirrors { refresh: d.refresh });
    }
    if same(name, "config") {
        return Ok(Command::Config { init: d.init, path: d.path });
    }
    if same(name, "get") {
        if d.positionals.len() == 0 {
            return Err(
                Error::new("`get` needs an MD5, e.g. `tomesole get 1b915999…`".to_owned()),
            );
        }
        return match extract_md5_argument(&d.positionals[0]) {
            Ok(md5) => Ok(Command::Get { md5 }),
            Err(e) => Err(e),
        };
    }
    let history = same(name, "history");
    let reveal = same(name, "reveal");
    let open = same(name, "open") || reveal;
    if history && d.positionals.len() == 0 {
        return Ok(Command::History { limit: d.search.limit, clear: d.clear });
    }
    if open && (d.positionals.len() == 0 || (d.find.is_none() && d.positionals.len() == 1 && (
    parse_usize(&d.positionals[0]).is_some() || is_md5(&d.positionals[0])))) {
        let selector = match &d.find {
            Some(f) => f.clone(),
            None => if d.positionals.len() == 0 {
                String::new()
            } else {
                d.positionals[0].clone()
            },
        };
        return Ok(Command::Open { selector, reveal, with: copy_opt(&d.global.reader) });
    }
    if history || open {
        let ghost before = d@;
        d.positionals.insert(0, name.to_owned());
        assert(text::texts(d.positionals@) =~= seq![name@] + before.positionals);
        assert(d@ == DraftView { positionals: seq![name@] + before.positionals, ..before });
    }
    Ok(conclude_bare(d))
}

// ---------------------------------------------------------------------------
// The help screen
// ---------------------------------------------------------------------------

/// Width of the flag column, so descriptions line up.
pub const FLAG_WIDTH: usize = 22;

pub open spec fn usage_rows() -> Seq<(&'static str, &'static str)> {
    seq![
        ("tomesole", "open the full-screen interface"),
        ("tomesole <query>...", "search, then pick what to download"),
        ("tomesole get <md5>", "download a file you already know"),
        ("tomesole history", "list what has been downloaded"),
        ("tomesole open <n>", "open a downloaded book"),
        ("tomesole reveal <n>", "show it in the file manager"),
        ("tomesole mirrors", "show which mirrors are usable"),
        ("tomesole config --init", "write a starter config file"),
        ("tomesole doctor", "check the setup end to end"),
    ]
}

fn usage() -> (r: Vec<(&'static str, &'static str)>)
    ensures
        r@ == usage_rows(),
{
    vec![
        ("tomesole", "open the full-screen interface"),
        ("tomesole <query>...", "search, then pick what to download"),
        ("tomesole get <md5>", "download a file you already know"),
        ("tomesole history", "list what has been downloaded"),
        ("tomesole open <n>", "open a downloaded book"),
        ("tomesole reveal <n>", "show it in the file manager"),
        ("tomesole mirrors", "show which mirrors are usable"),
        ("tomesole config --init", "write a starter config file"),
        ("tomesole doctor", "check the setup end to end"),
    ]
}

pub open spec fn search_flags_rows() -> Seq<(&'static str, &'static str)> {
    seq![
        ("-a, --author <q>", "restrict the query to the author"),
        ("-t, --title <q>", "restrict the query to the title"),
        ("-s, --series <q>", "restrict the query to the series"),
        ("--publisher <q>", "restrict the query to the publisher"),
        ("--year <q>", "restrict the query to the year"),
        ("--isbn <q>", "search by ISBN"),
        ("-n, --limit <n>", "how many results to show (25)"),
        ("-e, --ext <x>", "only this format, e.g. epub, pdf"),
        ("-l, --lang <x>", "only this language, e.g. english"),
        ("--topic <t>", "collections to search (libgen, fiction)"),
        ("-y, --first", "take the top result without asking"),
        ("--no-download", "list results and stop"),
    ]
}

fn search_flags() -> (r: Vec<(&'static str, &'static str)>)
    ensures
        r@ == search_flags_rows(),
{
    vec![
        ("-a, --author <q>", "restrict the query to the author"),
        ("-t, --title <q>", "restrict the query to the title"),
        ("-s, --series <q>", "restrict the query to the series"),
        ("--publisher <q>", "restrict the query to the publisher"),
        ("--year <q>", "restrict the query to the year"),
        ("--isbn <q>", "search by ISBN"),
        ("-n, --limit <n>", "how many results to show (25)"),
        ("-e, --ext <x>", "only this format, e.g. epub, pdf"),
        ("-l, --lang <x>", "only this language, e.g. english"),
        ("--topic <t>", "collections to search (libgen, fiction)"),
        ("-y, --first", "take the top result without asking"),
        ("--no-download", "list results and stop"),
    ]
}

pub open spec fn download_flags_rows() -> Seq<(&'static str, &'static str)> {
    seq![
        ("-d, --dir <path>", "where to save (~/Downloads)"),
        ("-o, --output <name>", "save under this filename"),
        ("-f, --force", "overwrite a file that already exists"),
        ("--max-size <size>", "refuse anything larger (4 GB)"),
        ("--no-verify", "skip the MD5 check — not advised"),
        ("--no-resume", "always start the transfer from zero"),
    ]
}

fn download_flags() -> (r: Vec<(&'static str, &'static str)>)
    ensures
        r@ == download_flags_rows(),
{
    vec![
        ("-d, --dir <path>", "where to save (~/Downloads)"),
        ("-o, --output <name>", "save under this filename"),
        ("-f, --force", "overwrite a file that already exists"),
        ("--max-size <size>", "refuse anything larger (4 GB)"),
        ("--no-verify", "skip the MD5 check — not advised"),
        ("--no-resume", "always start the transfer from zero"),
    ]
}

pub open spec fn mirror_flags_rows() -> Seq<(&'static str, &'static str)> {
    seq![
        ("-m, --mirror <url>", "use this mirror instead of choosing"),
        ("--refresh", "re-probe mirrors, ignoring the cache"),
    ]
}

fn mirror_flags() -> (r: Vec<(&'static str, &'static str)>)
    ensures
        r@ == mirror_flags_rows(),
{
    vec![
        ("-m, --mirror <url>", "use this mirror instead of choosing"),
        ("--refresh", "re-probe mirrors, ignoring the cache"),
    ]
}

pub open spec fn general_flags_rows() -> Seq<(&'static str, &'static str)> {
    seq![
        ("--json", "machine-readable results"),
        ("-q, --quiet", "print only paths and errors"),
        ("--no-color", "disable colour"),
        ("--no-covers", "never fetch or draw cover art"),
        ("--with <app>", "open books with this application"),
        ("--allow-http", "permit cleartext http mirrors"),
        ("-h, --help", "show this help"),
        ("-V, --version", "show the version"),
    ]
}

fn general_flags() -> (r: Vec<(&'static str, &'static str)>)
    ensures
        r@ == general_flags_rows(),
{
    vec![
        ("--json", "machine-readable results"),
        ("-q, --quiet", "print only paths and errors"),
        ("--no-color", "disable colour"),
        ("--no-covers", "never fetch or draw cover art"),
        ("--with <app>", "open books with this application"),
        ("--allow-http", "permit cleartext http mirrors"),
        ("-h, --help", "show this help"),
        ("-V, --version", "show the version"),
    ]
}

pub open spec fn example_lines() -> Seq<&'static str> {
    seq![
        "tomesole the pragmatic programmer",
        "tomesole -a \"Ursula K. Le Guin\" -e epub",
        "tomesole --title dune --lang english -n 50",
        "tomesole get 1b9159991f7fb1b3910c0be9ebf7e595",
    ]
}

fn examples() -> (r: Vec<&'static str>)
    ensures
        r@ == example_lines(),
{
    vec![
        "tomesole the pragmatic programmer",
        "tomesole -a \"Ursula K. Le Guin\" -e epub",
        "tomesole --title dune --lang english -n 50",
        "tomesole get 1b9159991f7fb1b3910c0be9ebf7e595",
    ]
}

/// One flag and what it does. The flag is padded before it is coloured, so the
/// colour codes do not count towards the width.
pub open spec fn help_row(style: Style, row: (&'static str, &'static str)) -> Seq<char> {
    "  "@ + style.cyan_text(term::padded(row.0@, FLAG_WIDTH as int)) + style.dim_text(row.1@)
        + "\n"@
}

pub open spec fn help_rows(style: Style, rows: Seq<(&'static str, &'static str)>) -> Seq<char>
    decreases rows.len(),
{
    if rows.len() == 0 {
        seq![]
    } else {
        help_rows(style, rows.drop_last()) + help_row(style, rows.last())
    }
}

pub open spec fn help_examples(style: Style, lines: Seq<&'static str>) -> Seq<char>
    decreases lines.len(),
{
    if lines.len() == 0 {
        seq![]
    } else {
        help_examples(style, lines.drop_last()) + ("  "@ + style.dim_text(lines.last()@) + "\n"@)
    }
}

/// A heading and the rows under it.
pub open spec fn help_section(
    style: Style,
    title: Seq<char>,
    rows: Seq<(&'static str, &'static str)>,
) -> Seq<char> {
    "\n"@ + style.bold_text(title) + "\n"@ + help_rows(style, rows)
}

/// What the help begins with.
pub open spec fn first_line(style: Style) -> Seq<char> {
    style.bold_text("tomesole"@) + " "@ + VERSION@
        + " — search and download from Library Genesis\n"@
}

/// What the help ends with.
pub open spec fn last_line(style: Style) -> Seq<char> {
    "\n"@ + style.dim_text(
        "Every download is checked against the catalogue's MD5 before it is saved."@,
    ) + "\n"@
}

/// The whole help screen.
pub open spec fn help_screen(style: Style) -> Seq<char> {
    first_line(style)
        + help_section(style, "USAGE"@, usage_rows())
        + help_section(style, "SEARCH"@, search_flags_rows())
        + help_section(style, "DOWNLOAD"@, download_flags_rows())
        + help_section(style, "MIRRORS"@, mirror_flags_rows())
        + help_section(style, "GENERAL"@, general_flags_rows())
        + ("\n"@ + style.bold_text("EXAMPLES"@) + "\n"@ + help_examples(style, example_lines()))
        + last_line(style)
}

fn rows_help(style: &Style, rows: Vec<(&'static str, &'static str)>) -> (r: String)
    ensures
        r@ == help_rows(*style, rows@),
{
    let mut out = String::new();
    let mut i: usize = 0;
    assert(rows@.take(0) =~= seq![]);
    while i < rows.len()
        invariant
            i <= rows@.len(),
            out@ == help_rows(*style, rows@.take(i as int)),
        decreases rows@.len() - i,
    {
        assert(rows@.take(i + 1).drop_last() =~= rows@.take(i as int));
        let (flag, what) = rows[i];
        let mut line = "  ".to_owned();
        line.append(&style.cyan(&term::pad(flag, FLAG_WIDTH)));
        line.append(&style.dim(what));
        line.append("\n");
        out.append(&line);
        i += 1;
    }
    assert(rows@.take(rows@.len() as int) =~= rows@);
    out
}

fn section_help(style: &Style, title: &str, rows: Vec<(&'static str, &'static str)>) -> (r: String)
    ensures
        r@ == help_section(*style, title@, rows@),
{
    let mut out = "\n".to_owned();
    out.append(&style.bold(title));
    out.append("\n");
    out.append(&rows_help(style, rows));
    out
}

fn examples_help(style: &Style, lines: Vec<&'static str>) -> (r: String)
    ensures
        r@ == help_examples(*style, lines@),
{
    let mut out = String::new();
    let mut i: usize = 0;
    assert(lines@.take(0) =~= seq![]);
    while i < lines.len()
        invariant
            i <= lines@.len(),
            out@ == help_examples(*style, lines@.take(i as int)),
        decreases lines@.len() - i,
    {
        assert(lines@.take(i + 1).drop_last() =~= lines@.take(i as int));
        let mut line = "  ".to_owned();
        line.append(&style.dim(lines[i]));
        line.append("\n");
        out.append(&line);
        i += 1;
    }
    assert(lines@.take(lines@.len() as int) =~= lines@);
    out
}

/// The help screen.
pub fn help_text(style: &Style) -> (r: String)
    ensures
        r@ == help_screen(*style),
{
    let mut out = style.bold("tomesole");
    out.append(" ");
    out.append(VERSION);
    out.append(" — search and download from Library Genesis\n");
    out.append(&section_help(style, "USAGE", usage()));
    out.append(&section_help(style, "SEARCH", search_flags()));
    out.append(&section_help(style, "DOWNLOAD", download_flags()));
    out.append(&section_help(style, "MIRRORS", mirror_flags()));
    out.append(&section_help(style, "GENERAL", general_flags()));
    let mut tail = "\n".to_owned();
    tail.append(&style.bold("EXAMPLES"));
    tail.append("\n");
    tail.append(&examples_help(style, examples()));
    out.append(&tail);
    let mut last = "\n".to_owned();
    last.append(
        &style.dim("Every download is checked against the catalogue's MD5 before it is saved."),
    );
    last.append("\n");
    out.append(&last);
    out
}

// ---------------------------------------------------------------------------
// Laws
// ---------------------------------------------------------------------------

/// `--key=value` and `--key value` do the same: from the same draft, both lead
/// to the same draft or the same complaint, whatever stands around them. The
/// second form cannot carry a value that looks like a flag.
pub proof fn lemma_equals_form(
    a: Seq<Seq<char>>,
    i: int,
    b: Seq<Seq<char>>,
    j: int,
    key: Seq<char>,
    value: Seq<char>,
    d: DraftView,
    home: Seq<char>,
)
    requires
        0 <= i < a.len(),
        0 <= j && j + 1 < b.len(),
        a[i] == key + seq!['='] + value,
        b[j] == key,
        b[j + 1] == value,
        flag_named(key) is Some,
        takes_value(flag_named(key)->0),
        value.len() <= 1 || value[0] != '-',
    ensures
        match step(a, i, d, false, home) {
            Step::On(_, d2, done) => step(b, j, d, false, home) == Step::On(j + 2, d2, done),
            other => step(b, j, d, false, home) == other,
        },
        step(a, i, d, false, home) is On ==> step(a, i, d, false, home)->On_0 == i + 1,
{
    let arg = a[i];
    lemma_valued_flag(key);
    text::lemma_first_at(arg, '=', 0);
    let e = text::first_at(arg, '=', 0);
    assert(arg[key.len() as int] == '=');
    assert(e == key.len()) by {
        if e < key.len() {
            assert(arg[e] == key[e]);
        }
    }
    assert(arg.subrange(0, e) =~= key);
    assert(arg.subrange(e + 1, arg.len() as int) =~= value);
    text::lemma_first_at(key, '=', 0);
    let ek = text::first_at(key, '=', 0);
    assert(ek == key.len());
    reveal_strlit("-");
    reveal_strlit("--");
    assert(arg[0] == key[0]);
    assert(arg != "-"@);
    assert(key != "-"@);
    assert(arg != "--"@) by {
        if arg == "--"@ {
            assert(arg[key.len() as int] == '-');
        }
    }
    assert(key != "--"@);
}

/// Whether two readings come to the same: both fail, or both give the same.
pub open spec fn agree(s: Step, t: Step) -> bool {
    match (s, t) {
        (Step::Fault(_), Step::Fault(_)) => true,
        (Step::Settled(c, g), Step::Settled(c2, g2)) => c == c2 && g == g2,
        (Step::On(_, d, done), Step::On(_, d2, done2)) => d == d2 && done == done2,
        _ => false,
    }
}

/// What the rest of a command line says does not depend on where it stands.
proof fn lemma_scan_moves(
    a: Seq<Seq<char>>,
    i: int,
    b: Seq<Seq<char>>,
    j: int,
    d: DraftView,
    flags_done: bool,
    home: Seq<char>,
)
    requires
        0 <= i <= a.len(),
        0 <= j <= b.len(),
        a.subrange(i, a.len() as int) == b.subrange(j, b.len() as int),
    ensures
        agree(scan(a, i, d, flags_done, home), scan(b, j, d, flags_done, home)),
    decreases a.len() - i,
{
    let rest = a.subrange(i, a.len() as int);
    assert(rest.len() == a.len() - i);
    assert(rest.len() == b.len() - j);
    if i < a.len() {
        assert(a[i] == rest[0] && b[j] == rest[0]);
        if i + 1 < a.len() {
            assert(a[i + 1] == rest[1] && b[j + 1] == rest[1]);
        }
        match step(a, i, d, flags_done, home) {
            Step::On(n, d2, done) => {
                assert(step(b, j, d, flags_done, home) == Step::On(n - i + j, d2, done));
                assert(i < n <= i + 2 && n <= a.len());
                assert(a.subrange(n, a.len() as int) =~= rest.subrange(n - i, rest.len() as int));
                assert(b.subrange(n - i + j, b.len() as int) =~= rest.subrange(
                    n - i,
                    rest.len() as int,
                ));
                lemma_scan_moves(a, n, b, n - i + j, d2, done, home);
            },
            other => {
                assert(step(b, j, d, flags_done, home) == other);
            },
        }
    }
}

/// The two forms of an option with a value come to the same from any place
/// before them.
proof fn lemma_equals_form_from(
    xs: Seq<Seq<char>>,
    key: Seq<char>,
    value: Seq<char>,
    ys: Seq<Seq<char>>,
    i: int,
    d: DraftView,
    home: Seq<char>,
)
    requires
        0 <= i <= xs.len(),
        !xs.contains("--"@),
        flag_named(key) is Some,
        takes_value(flag_named(key)->0),
        value.len() <= 1 || value[0] != '-',
    ensures
        agree(
            scan(xs + seq![key + seq!['='] + value] + ys, i, d, false, home),
            scan(xs + seq![key, value] + ys, i, d, false, home),
        ),
    decreases xs.len() - i,
{
    let n = xs.len() as int;
    let a = xs + seq![key + seq!['='] + value] + ys;
    let b = xs + seq![key, value] + ys;
    assert(a[n] == key + seq!['='] + value);
    assert(b[n] == key && b[n + 1] == value);
    lemma_valued_flag(key);
    if i == n {
        lemma_equals_form(a, n, b, n, key, value, d, home);
        assert(a.subrange(n + 1, a.len() as int) =~= ys);
        assert(b.subrange(n + 2, b.len() as int) =~= ys);
        match step(a, n, d, false, home) {
            Step::On(_, d2, done) => {
                lemma_scan_moves(a, n + 1, b, n + 2, d2, done, home);
            },
            _ => {},
        }
    } else {
        assert(a[i] == xs[i] && b[i] == xs[i]);
        assert(xs[i] != "--"@) by {
            if xs[i] == "--"@ {
                assert(xs.contains("--"@));
            }
        }
        if i + 1 < n {
            assert(a[i + 1] == xs[i + 1] && b[i + 1] == xs[i + 1]);
        } else {
            assert(a[i + 1][0] == key[0]);
        }
        match step(a, i, d, false, home) {
            Step::On(next, d2, done) => {
                assert(step(b, i, d, false, home) == Step::On(next, d2, done));
                assert(i < next <= n);
                assert(!done);
                lemma_equals_form_from(xs, key, value, ys, next, d2, home);
            },
            _ => {},
        }
    }
}

/// `--name=value` and `--name value` say the same wherever they stand on the
/// command line, but behind a `--`: both are refused, or both are read as the
/// same command.
pub proof fn lemma_equals_form_anywhere(
    xs: Seq<Seq<char>>,
    key: Seq<char>,
    value: Seq<char>,
    ys: Seq<Seq<char>>,
    home: Seq<char>,
)
    requires
        !xs.contains("--"@),
        flag_named(key) is Some,
        takes_value(flag_named(key)->0),
        value.len() <= 1 || value[0] != '-',
    ensures
        match (
            parsed(xs + seq![key + seq!['='] + value] + ys, home),
            parsed(xs + seq![key, value] + ys, home),
        ) {
            (Ok(one), Ok(other)) => one == other,
            (Err(_), Err(_)) => true,
            _ => false,
        },
{
    let a = xs + seq![key + seq!['='] + value] + ys;
    let b = xs + seq![key, value] + ys;
    lemma_valued_flag(key);
    if xs.len() == 0 {
        assert(a[0] == key + seq!['='] + value && a[0][0] == '-');
        assert(b[0] == key);
        lemma_no_dashed_subcommand(a[0]);
        lemma_no_dashed_subcommand(b[0]);
        lemma_equals_form_from(xs, key, value, ys, 0, blank_draft(), home);
    } else {
        assert(a[0] == xs[0] && b[0] == xs[0]);
        if is_subcommand(xs[0]) {
            let rest = xs.subrange(1, xs.len() as int);
            assert(!rest.contains("--"@)) by {
                if rest.contains("--"@) {
                    let k = choose|k: int| 0 <= k < rest.len() && rest[k] == "--"@;
                    assert(xs[k + 1] == "--"@);
                }
            }
            assert(a.subrange(1, a.len() as int) =~= rest + seq![key + seq!['='] + value] + ys);
            assert(b.subrange(1, b.len() as int) =~= rest + seq![key, value] + ys);
            lemma_equals_form_from(rest, key, value, ys, 0, blank_draft(), home);
        } else {
            lemma_equals_form_from(xs, key, value, ys, 0, blank_draft(), home);
        }
    }
}

pub proof fn lemma_no_dashed_subcommand(s: Seq<char>)
    requires
        s.len() > 0,
        s[0] == '-',
    ensures
        !is_subcommand(s),
{
    reveal_strlit("search");
    reveal_strlit("get");
    reveal_strlit("mirrors");
    reveal_strlit("history");
    reveal_strlit("open");
    reveal_strlit("reveal");
    reveal_strlit("config");
    reveal_strlit("doctor");
    reveal_strlit("help");
    reveal_strlit("version");
    reveal_strlit("tui");
}

/// The name of a flag that takes a value begins with a dash, is more than
/// dashes, and holds no equals sign.
proof fn lemma_valued_flag(key: Seq<char>)
    requires
        flag_named(key) is Some,
        takes_value(flag_named(key)->0),
    ensures
        key.len() > 1,
        key[0] == '-',
        key.len() > 2 || key[1] != '-',
        text::free_of(key, '='),
{
    reveal_strlit("-a");
    reveal_strlit("--author");
    reveal_strlit("-t");
    reveal_strlit("--title");
    reveal_strlit("--isbn");
    reveal_strlit("--publisher");
    reveal_strlit("-s");
    reveal_strlit("--series");
    reveal_strlit("--year");
    reveal_strlit("-n");
    reveal_strlit("--limit");
    reveal_strlit("-e");
    reveal_strlit("--ext");
    reveal_strlit("--extension");
    reveal_strlit("-l");
    reveal_strlit("--lang");
    reveal_strlit("--language");
    reveal_strlit("--topic");
    reveal_strlit("-d");
    reveal_strlit("--dir");
    reveal_strlit("-o");
    reveal_strlit("--output");
    reveal_strlit("-m");
    reveal_strlit("--mirror");
    reveal_strlit("--max-size");
    reveal_strlit("--with");
    reveal_strlit("--find");
}

/// A text that holds no escape.
pub open spec fn unmarked(s: Seq<char>) -> bool {
    text::free_of(s, term::ESCAPE)
}

/// Rows that hold no escape.
pub open spec fn unmarked_rows(rows: Seq<(&'static str, &'static str)>) -> bool {
    forall|i: int| 0 <= i < rows.len() ==> unmarked((#[trigger] rows[i]).0@) && unmarked(rows[i].1@)
}

proof fn lemma_usage_unmarked()
    ensures
        unmarked_rows(usage_rows()),
{
    assert(unmarked("tomesole"@)) by {
        reveal_strlit("tomesole");
    }
    assert(unmarked("open the full-screen interface"@)) by {
        reveal_strlit("open the full-screen interface");
    }
    assert(unmarked("tomesole <query>..."@)) by {
        reveal_strlit("tomesole <query>...");
    }
    assert(unmarked("search, then pick what to download"@)) by {
        reveal_strlit("search, then pick what to download");
    }
    assert(unmarked("tomesole get <md5>"@)) by {
        reveal_strlit("tomesole get <md5>");
    }
    assert(unmarked("download a file you already know"@)) by {
        reveal_strlit("download a file you already know");
    }
    assert(unmarked("tomesole history"@)) by {
        reveal_strlit("tomesole history");
    }
    assert(unmarked("list what has been downloaded"@)) by {
        reveal_strlit("list what has been downloaded");
    }
    assert(unmarked("tomesole open <n>"@)) by {
        reveal_strlit("tomesole open <n>");
    }
    assert(unmarked("open a downloaded book"@)) by {
        reveal_strlit("open a downloaded book");
    }
    assert(unmarked("tomesole reveal <n>"@)) by {
        reveal_strlit("tomesole reveal <n>");
    }
    assert(unmarked("show it in the file manager"@)) by {
        reveal_strlit("show it in the file manager");
    }
    assert(unmarked("tomesole mirrors"@)) by {
        reveal_strlit("tomesole mirrors");
    }
    assert(unmarked("show which mirrors are usable"@)) by {
        reveal_strlit("show which mirrors are usable");
    }
    assert(unmarked("tomesole config --init"@)) by {
        reveal_strlit("tomesole config --init");
    }
    assert(unmarked("write a starter config file"@)) by {
        reveal_strlit("write a starter config file");
    }
    assert(unmarked("tomesole doctor"@)) by {
        reveal_strlit("tomesole doctor");
    }
    assert(unmarked("check the setup end to end"@)) by {
        reveal_strlit("check the setup end to end");
    }
}

proof fn lemma_search_unmarked()
    ensures
        unmarked_rows(search_flags_rows()),
{
    assert(unmarked("-a, --author <q>"@)) by {
        reveal_strlit("-a, --author <q>");
    }
    assert(unmarked("restrict the query to the author"@)) by {
        reveal_strlit("restrict the query to the author");
    }
    assert(unmarked("-t, --title <q>"@)) by {
        reveal_strlit("-t, --title <q>");
    }
    assert(unmarked("restrict the query to the title"@)) by {
        reveal_strlit("restrict the query to the title");
    }
    assert(unmarked("-s, --series <q>"@)) by {
        reveal_strlit("-s, --series <q>");
    }
    assert(unmarked("restrict the query to the series"@)) by {
        reveal_strlit("restrict the query to the series");
    }
    assert(unmarked("--publisher <q>"@)) by {
        reveal_strlit("--publisher <q>");
    }
    assert(unmarked("restrict the query to the publisher"@)) by {
        reveal_strlit("restrict the query to the publisher");
    }
    assert(unmarked("--year <q>"@)) by {
        reveal_strlit("--year <q>");
    }
    assert(unmarked("restrict the query to the year"@)) by {
        reveal_strlit("restrict the query to the year");
    }
    assert(unmarked("--isbn <q>"@)) by {
        reveal_strlit("--isbn <q>");
    }
    assert(unmarked("search by ISBN"@)) by {
        reveal_strlit("search by ISBN");
    }
    assert(unmarked("-n, --limit <n>"@)) by {
        reveal_strlit("-n, --limit <n>");
    }
    assert(unmarked("how many results to show (25)"@)) by {
        reveal_strlit("how many results to show (25)");
    }
    assert(unmarked("-e, --ext <x>"@)) by {
        reveal_strlit("-e, --ext <x>");
    }
    assert(unmarked("only this format, e.g. epub, pdf"@)) by {
        reveal_strlit("only this format, e.g. epub, pdf");
    }
    assert(unmarked("-l, --lang <x>"@)) by {
        reveal_strlit("-l, --lang <x>");
    }
    assert(unmarked("only this language, e.g. english"@)) by {
        reveal_strlit("only this language, e.g. english");
    }
    assert(unmarked("--topic <t>"@)) by {
        reveal_strlit("--topic <t>");
    }
    assert(unmarked("collections to search (libgen, fiction)"@)) by {
        reveal_strlit("collections to search (libgen, fiction)");
    }
    assert(unmarked("-y, --first"@)) by {
        reveal_strlit("-y, --first");
    }
    assert(unmarked("take the top result without asking"@)) by {
        reveal_strlit("take the top result without asking");
    }
    assert(unmarked("--no-download"@)) by {
        reveal_strlit("--no-download");
    }
    assert(unmarked("list results and stop"@)) by {
        reveal_strlit("list results and stop");
    }
}

proof fn lemma_download_unmarked()
    ensures
        unmarked_rows(download_flags_rows()),
{
    assert(unmarked("-d, --dir <path>"@)) by {
        reveal_strlit("-d, --dir <path>");
    }
    assert(unmarked("where to save (~/Downloads)"@)) by {
        reveal_strlit("where to save (~/Downloads)");
    }
    assert(unmarked("-o, --output <name>"@)) by {
        reveal_strlit("-o, --output <name>");
    }
    assert(unmarked("save under this filename"@)) by {
        reveal_strlit("save under this filename");
    }
    assert(unmarked("-f, --force"@)) by {
        reveal_strlit("-f, --force");
    }
    assert(unmarked("overwrite a file that already exists"@)) by {
        reveal_strlit("overwrite a file that already exists");
    }
    assert(unmarked("--max-size <size>"@)) by {
        reveal_strlit("--max-size <size>");
    }
    assert(unmarked("refuse anything larger (4 GB)"@)) by {
        reveal_strlit("refuse anything larger (4 GB)");
    }
    assert(unmarked("--no-verify"@)) by {
        reveal_strlit("--no-verify");
    }
    assert(unmarked("skip the MD5 check — not advised"@)) by {
        reveal_strlit("skip the MD5 check — not advised");
    }
    assert(unmarked("--no-resume"@)) by {
        reveal_strlit("--no-resume");
    }
    assert(unmarked("always start the transfer from zero"@)) by {
        reveal_strlit("always start the transfer from zero");
    }
}

proof fn lemma_mirror_unmarked()
    ensures
        unmarked_rows(mirror_flags_rows()),
{
    assert(unmarked("-m, --mirror <url>"@)) by {
        reveal_strlit("-m, --mirror <url>");
    }
    assert(unmarked("use this mirror instead of choosing"@)) by {
        reveal_strlit("use this mirror instead of choosing");
    }
    assert(unmarked("--refresh"@)) by {
        reveal_strlit("--refresh");
    }
    assert(unmarked("re-probe mirrors, ignoring the cache"@)) by {
        reveal_strlit("re-probe mirrors, ignoring the cache");
    }
}

proof fn lemma_general_unmarked()
    ensures
        unmarked_rows(general_flags_rows()),
{
    assert(unmarked("--json"@)) by {
        reveal_strlit("--json");
    }
    assert(unmarked("machine-readable results"@)) by {
        reveal_strlit("machine-readable results");
    }
    assert(unmarked("-q, --quiet"@)) by {
        reveal_strlit("-q, --quiet");
    }
    assert(unmarked("print only paths and errors"@)) by {
        reveal_strlit("print only paths and errors");
    }
    assert(unmarked("--no-color"@)) by {
        reveal_strlit("--no-color");
    }
    assert(unmarked("disable colour"@)) by {
        reveal_strlit("disable colour");
    }
    assert(unmarked("--no-covers"@)) by {
        reveal_strlit("--no-covers");
    }
    assert(unmarked("never fetch or draw cover art"@)) by {
        reveal_strlit("never fetch or draw cover art");
    }
    assert(unmarked("--with <app>"@)) by {
        reveal_strlit("--with <app>");
    }
    assert(unmarked("open books with this application"@)) by {
        reveal_strlit("open books with this application");
    }
    assert(unmarked("--allow-http"@)) by {
        reveal_strlit("--allow-http");
    }
    assert(unmarked("permit cleartext http mirrors"@)) by {
        reveal_strlit("permit cleartext http mirrors");
    }
    assert(unmarked("-h, --help"@)) by {
        reveal_strlit("-h, --help");
    }
    assert(unmarked("show this help"@)) by {
        reveal_strlit("show this help");
    }
    assert(unmarked("-V, --version"@)) by {
        reveal_strlit("-V, --version");
    }
    assert(unmarked("show the version"@)) by {
        reveal_strlit("show the version");
    }
}

proof fn lemma_examples_unmarked()
    ensures
        forall|i: int| 0 <= i < example_lines().len() ==> unmarked((#[trigger] example_lines()[i])@),
{
    assert(unmarked("tomesole the pragmatic programmer"@)) by {
        reveal_strlit("tomesole the pragmatic programmer");
    }
    assert(unmarked("tomesole -a \"Ursula K. Le Guin\" -e epub"@)) by {
        reveal_strlit("tomesole -a \"Ursula K. Le Guin\" -e epub");
    }
    assert(unmarked("tomesole --title dune --lang english -n 50"@)) by {
        reveal_strlit("tomesole --title dune --lang english -n 50");
    }
    assert(unmarked("tomesole get 1b9159991f7fb1b3910c0be9ebf7e595"@)) by {
        reveal_strlit("tomesole get 1b9159991f7fb1b3910c0be9ebf7e595");
    }
}

proof fn lemma_code(code: Seq<char>)
    requires
        code == "1"@ || code == "2"@ || code == "36"@,
    ensures
        text::all_digits(code),
        code.len() > 0,
{
    reveal_strlit("1");
    reveal_strlit("2");
    reveal_strlit("36");
}

proof fn lemma_blanks()
    ensures
        term::colours("  "@, "  "@),
        term::colours("\n"@, "\n"@),
        term::colours(" "@, " "@),
{
    reveal_strlit("  ");
    reveal_strlit("\n");
    reveal_strlit(" ");
    term::lemma_plain_colours("  "@);
    term::lemma_plain_colours("\n"@);
    term::lemma_plain_colours(" "@);
}

proof fn lemma_row_colours(style: Style, plain: Style, row: (&'static str, &'static str))
    requires
        !plain.enabled,
        unmarked(row.0@),
        unmarked(row.1@),
    ensures
        term::colours(help_row(style, row), help_row(plain, row)),
{
    let a = term::padded(row.0@, FLAG_WIDTH as int);
    lemma_blanks();
    lemma_code("36"@);
    lemma_code("2"@);
    term::lemma_painted_colours(style, "36"@, a);
    term::lemma_painted_colours(style, "2"@, row.1@);
    let x = "  "@ + style.cyan_text(a);
    let y = "  "@ + a;
    term::lemma_colours_join("  "@, "  "@, style.cyan_text(a), a);
    term::lemma_colours_join(x, y, style.dim_text(row.1@), row.1@);
    term::lemma_colours_join(x + style.dim_text(row.1@), y + row.1@, "\n"@, "\n"@);
}

proof fn lemma_rows_colours(style: Style, plain: Style, rows: Seq<(&'static str, &'static str)>)
    requires
        !plain.enabled,
        unmarked_rows(rows),
    ensures
        term::colours(help_rows(style, rows), help_rows(plain, rows)),
    decreases rows.len(),
{
    if rows.len() == 0 {
        term::lemma_plain_colours(seq![]);
    } else {
        let head = rows.drop_last();
        assert forall|i: int| 0 <= i < head.len() implies unmarked((#[trigger] head[i]).0@)
            && unmarked(head[i].1@) by {
            assert(head[i] == rows[i]);
        }
        lemma_rows_colours(style, plain, head);
        assert(unmarked(rows[rows.len() - 1].0@));
        lemma_row_colours(style, plain, rows.last());
        term::lemma_colours_join(
            help_rows(style, head),
            help_rows(plain, head),
            help_row(style, rows.last()),
            help_row(plain, rows.last()),
        );
    }
}

proof fn lemma_examples_colours(style: Style, plain: Style, lines: Seq<&'static str>)
    requires
        !plain.enabled,
        forall|i: int| 0 <= i < lines.len() ==> unmarked((#[trigger] lines[i])@),
    ensures
        term::colours(help_examples(style, lines), help_examples(plain, lines)),
    decreases lines.len(),
{
    if lines.len() == 0 {
        term::lemma_plain_colours(seq![]);
    } else {
        let head = lines.drop_last();
        assert forall|i: int| 0 <= i < head.len() implies unmarked((#[trigger] head[i])@) by {
            assert(head[i] == lines[i]);
        }
        lemma_examples_colours(style, plain, head);
        let t = lines[lines.len() - 1]@;
        assert(unmarked(t));
        lemma_blanks();
        lemma_code("2"@);
        term::lemma_painted_colours(style, "2"@, t);
        term::lemma_colours_join("  "@, "  "@, style.dim_text(t), t);
        term::lemma_colours_join("  "@ + style.dim_text(t), "  "@ + t, "\n"@, "\n"@);
        term::lemma_colours_join(
            help_examples(style, head),
            help_examples(plain, head),
            "  "@ + style.dim_text(t) + "\n"@,
            "  "@ + t + "\n"@,
        );
    }
}

/// A heading on a line of its own.
proof fn lemma_heading_colours(style: Style, title: Seq<char>)
    requires
        unmarked(title),
    ensures
        term::colours(
            "\n"@ + style.bold_text(title) + "\n"@,
            "\n"@ + title + "\n"@,
        ),
{
    lemma_blanks();
    lemma_code("1"@);
    term::lemma_painted_colours(style, "1"@, title);
    term::lemma_colours_join("\n"@, "\n"@, style.bold_text(title), title);
    term::lemma_colours_join("\n"@ + style.bold_text(title), "\n"@ + title, "\n"@, "\n"@);
}

proof fn lemma_section_colours(
    style: Style,
    plain: Style,
    title: Seq<char>,
    rows: Seq<(&'static str, &'static str)>,
)
    requires
        !plain.enabled,
        unmarked(title),
        unmarked_rows(rows),
    ensures
        term::colours(help_section(style, title, rows), help_section(plain, title, rows)),
{
    lemma_heading_colours(style, title);
    lemma_rows_colours(style, plain, rows);
    term::lemma_colours_join(
        "\n"@ + style.bold_text(title) + "\n"@,
        "\n"@ + title + "\n"@,
        help_rows(style, rows),
        help_rows(plain, rows),
    );
}

proof fn lemma_first_line_colours(style: Style, plain: Style)
    requires
        !plain.enabled,
    ensures
        term::colours(first_line(style), first_line(plain)),
{
    let name = "tomesole"@;
    let about = " — search and download from Library Genesis\n"@;
    assert(unmarked(name)) by {
        reveal_strlit("tomesole");
    }
    assert(unmarked(VERSION@)) by {
        reveal_strlit("0.1.0");
    }
    assert(unmarked(about)) by {
        reveal_strlit(" — search and download from Library Genesis\n");
    }
    lemma_blanks();
    lemma_code("1"@);
    term::lemma_painted_colours(style, "1"@, name);
    term::lemma_plain_colours(VERSION@);
    term::lemma_plain_colours(about);
    let a = style.bold_text(name);
    term::lemma_colours_join(a, name, " "@, " "@);
    term::lemma_colours_join(a + " "@, name + " "@, VERSION@, VERSION@);
    term::lemma_colours_join(a + " "@ + VERSION@, name + " "@ + VERSION@, about, about);
}

proof fn lemma_last_line_colours(style: Style, plain: Style)
    requires
        !plain.enabled,
    ensures
        term::colours(last_line(style), last_line(plain)),
{
    let t = "Every download is checked against the catalogue's MD5 before it is saved."@;
    assert(unmarked(t)) by {
        reveal_strlit("Every download is checked against the catalogue's MD5 before it is saved.");
    }
    lemma_blanks();
    lemma_code("2"@);
    term::lemma_painted_colours(style, "2"@, t);
    term::lemma_colours_join("\n"@, "\n"@, style.dim_text(t), t);
    term::lemma_colours_join("\n"@ + style.dim_text(t), "\n"@ + t, "\n"@, "\n"@);
}

proof fn lemma_help_colours(style: Style, plain: Style)
    requires
        !plain.enabled,
    ensures
        term::colours(help_screen(style), help_screen(plain)),
{
    lemma_first_line_colours(style, plain);
    lemma_last_line_colours(style, plain);
    lemma_usage_unmarked();
    lemma_search_unmarked();
    lemma_download_unmarked();
    lemma_mirror_unmarked();
    lemma_general_unmarked();
    lemma_examples_unmarked();
    assert(unmarked("USAGE"@) && unmarked("SEARCH"@) && unmarked("DOWNLOAD"@) && unmarked(
        "MIRRORS"@,
    ) && unmarked("GENERAL"@) && unmarked("EXAMPLES"@)) by {
        reveal_strlit("USAGE");
        reveal_strlit("SEARCH");
        reveal_strlit("DOWNLOAD");
        reveal_strlit("MIRRORS");
        reveal_strlit("GENERAL");
        reveal_strlit("EXAMPLES");
    }
    lemma_section_colours(style, plain, "USAGE"@, usage_rows());
    lemma_section_colours(style, plain, "SEARCH"@, search_flags_rows());
    lemma_section_colours(style, plain, "DOWNLOAD"@, download_flags_rows());
    lemma_section_colours(style, plain, "MIRRORS"@, mirror_flags_rows());
    lemma_section_colours(style, plain, "GENERAL"@, general_flags_rows());
    lemma_heading_colours(style, "EXAMPLES"@);
    lemma_examples_colours(style, plain, example_lines());
    let a = first_line(style);
    let b = help_section(style, "USAGE"@, usage_rows());
    let c = help_section(style, "SEARCH"@, search_flags_rows());
    let d = help_section(style, "DOWNLOAD"@, download_flags_rows());
    let e = help_section(style, "MIRRORS"@, mirror_flags_rows());
    let f = help_section(style, "GENERAL"@, general_flags_rows());
    let g = "\n"@ + style.bold_text("EXAMPLES"@) + "\n"@;
    let h = help_examples(style, example_lines());
    let a2 = first_line(plain);
    let b2 = help_section(plain, "USAGE"@, usage_rows());
    let c2 = help_section(plain, "SEARCH"@, search_flags_rows());
    let d2 = help_section(plain, "DOWNLOAD"@, download_flags_rows());
    let e2 = help_section(plain, "MIRRORS"@, mirror_flags_rows());
    let f2 = help_section(plain, "GENERAL"@, general_flags_rows());
    let g2 = "\n"@ + "EXAMPLES"@ + "\n"@;
    let h2 = help_examples(plain, example_lines());
    term::lemma_colours_join(a, a2, b, b2);
    term::lemma_colours_join(a + b, a2 + b2, c, c2);
    term::lemma_colours_join(a + b + c, a2 + b2 + c2, d, d2);
    term::lemma_colours_join(a + b + c + d, a2 + b2 + c2 + d2, e, e2);
    term::lemma_colours_join(a + b + c + d + e, a2 + b2 + c2 + d2 + e2, f, f2);
    term::lemma_colours_join(g, g2, h, h2);
    term::lemma_colours_join(
        a + b + c + d + e + f,
        a2 + b2 + c2 + d2 + e2 + f2,
        g + h,
        g2 + h2,
    );
    term::lemma_colours_join(
        a + b + c + d + e + f + (g + h),
        a2 + b2 + c2 + d2 + e2 + f2 + (g2 + h2),
        last_line(style),
        last_line(plain),
    );
}

/// Colour changes nothing of what the help says: without colour it holds no
/// escape, and with colour, taking every code out gives the same text.
pub proof fn lemma_colour_leaves_the_help_alone(style: Style)
    ensures
        text::free_of(help_screen(Style { enabled: false }), term::ESCAPE),
        term::uncoloured(help_screen(style)) == help_screen(Style { enabled: false }),
{
    let plain = Style { enabled: false };
    lemma_help_colours(style, plain);
    term::lemma_uncoloured(help_screen(style), help_screen(plain));
}

/// Once flags are over, every argument that is left is read as it stands.
pub proof fn lemma_after_double_dash(
    args: Seq<Seq<char>>,
    i: int,
    d: DraftView,
    home: Seq<char>,
)
    requires
        0 <= i <= args.len(),
    ensures
        scan(args, i, d, true, home) == Step::On(
            args.len() as int,
            DraftView {
                positionals: d.positionals + args.subrange(i, args.len() as int),
                ..d
            },
            true,
        ),
    decreases args.len() - i,
{
    if i < args.len() {
        let d2 = DraftView { positionals: d.positionals.push(args[i]), ..d };
        lemma_after_double_dash(args, i + 1, d2, home);
        assert(d2.positionals + args.subrange(i + 1, args.len() as int) =~= d.positionals
            + args.subrange(i, args.len() as int));
    } else {
        assert(d.positionals + args.subrange(i, args.len() as int) =~= d.positionals);
    }
}

/// Words that do not begin with a dash are a search for those words, unless
/// they are a single MD5 or begin with a command's name.
pub proof fn lemma_bare_words(args: Seq<Seq<char>>, home: Seq<char>)
    requires
        args.len() > 0,
        forall|k: int| 0 <= k < args.len() ==> positional(#[trigger] args[k], false),
        !is_subcommand(args[0]),
        args.len() > 1 || !model::md5_shaped(args[0]),
    ensures
        parsed(args, home) == Ok::<CliView, Seq<char>>(
            CliView {
                command: CommandView::Search(SearchView { terms: args, ..empty_search() }),
                global: empty_global(),
            },
        ),
{
    lemma_positionals(args, 0, blank_draft(), home);
    assert(blank_draft().positionals + args.subrange(0, args.len() as int) =~= args);
}

proof fn lemma_positionals(args: Seq<Seq<char>>, i: int, d: DraftView, home: Seq<char>)
    requires
        0 <= i <= args.len(),
        forall|k: int| 0 <= k < args.len() ==> positional(#[trigger] args[k], false),
    ensures
        scan(args, i, d, false, home) == Step::On(
            args.len() as int,
            DraftView {
                positionals: d.positionals + args.subrange(i, args.len() as int),
                ..d
            },
            false,
        ),
    decreases args.len() - i,
{
    if i < args.len() {
        let d2 = DraftView { positionals: d.positionals.push(args[i]), ..d };
        lemma_positionals(args, i + 1, d2, home);
        assert(d2.positionals + args.subrange(i + 1, args.len() as int) =~= d.positionals
            + args.subrange(i, args.len() as int));
    } else {
        assert(d.positionals + args.subrange(i, args.len() as int) =~= d.positionals);
    }
}

} // verus!
