//! Config file and standard directory locations.
//!
//! The config format is intentionally trivial: `key = value` lines with `#`
//! comments, because the whole configurable surface is a handful of scalars and
//! a mirror list.

use vstd::prelude::*;
use vstd::string::*;

use crate::error::Error;
use crate::model;
use crate::model::{parse_size, parse_topics, Topic};
use crate::path;
use crate::text;
use crate::text::{
    chars_of, cut_out, dec, digit, lines, parse_usize, same, split, split_list, split_once,
    string_of, strip_prefix, to_ascii_lower, trim, trim_matches,
};

verus! {

/// The commented template written by `tomesole config --init`.
pub const TEMPLATE: &'static str =
    "# tomesole configuration.
# Command-line flags override everything here.

# Mirrors to try first, in order. Repeat the key or use a comma-separated list.
# Leave unset to use the built-in list plus auto-discovery.
# mirror = https://libgen.li

# Where downloads are saved.
# download_dir = ~/Downloads

# Default number of results to show.
# limit = 25

# Collections to search: libgen, fiction, comics, magazines, standards, russian
# topics = libgen, fiction

# Refuse to save a file larger than this.
# max_size = 4 GB

# Verify each download against the MD5 the catalogue advertises.
# Turning this off removes the only integrity check available. Don't.
# verify = true

# What `tomesole open` hands a book to. On macOS this is an application name,
# passed to `open -a`; elsewhere it is a command run with the file as its
# argument. Unset means the system default for the file type.
# reader = Books
# reader = zathura

# Keep a record of what has been downloaded, for `tomesole history`.
# history = true

# Fetch and draw cover art in the full-screen interface.
# covers = true

# Permit cleartext http mirrors. Off unless you have a specific reason.
# allow_http = false
";

// ---------------------------------------------------------------------------
// Directories
// ---------------------------------------------------------------------------

/// The environment variables that say where things live.
#[derive(Debug)]
pub struct Env {
    /// `HOME`
    pub home: Option<String>,
    /// `XDG_CONFIG_HOME`
    pub config_home: Option<String>,
    /// `XDG_CACHE_HOME`
    pub cache_home: Option<String>,
    /// `XDG_DATA_HOME`
    pub data_home: Option<String>,
}

impl Env {
    /// The home directory, or the working directory when `HOME` is unset.
    pub open spec fn home_path(self) -> Seq<char> {
        match self.home {
            Some(h) => h@,
            None => "."@,
        }
    }

    /// A base directory: the variable where it is set and not empty, else a
    /// place below the home directory.
    pub open spec fn base(self, var: Option<String>, fallback: Seq<char>) -> Seq<char> {
        match var {
            Some(v) => if v@.len() > 0 {
                v@
            } else {
                path::joined(self.home_path(), fallback)
            },
            None => path::joined(self.home_path(), fallback),
        }
    }

    pub open spec fn config_path_text(self) -> Seq<char> {
        path::joined(
            path::joined(self.base(self.config_home, ".config"@), "tomesole"@),
            "config.conf"@,
        )
    }

    pub open spec fn cache_path_text(self) -> Seq<char> {
        path::joined(self.base(self.cache_home, ".cache"@), "tomesole"@)
    }

    pub open spec fn data_path_text(self) -> Seq<char> {
        path::joined(self.base(self.data_home, ".local/share"@), "tomesole"@)
    }
}

pub fn home_dir(env: &Env) -> (r: String)
    ensures
        r@ == env.home_path(),
{
    match &env.home {
        Some(h) => h.clone(),
        None => ".".to_owned(),
    }
}

fn xdg_dir(env: &Env, var: &Option<String>, fallback: &str) -> (r: String)
    ensures
        r@ == env.base(*var, fallback@),
{
    match var {
        Some(v) => {
            if !v.as_str().is_empty() {
                return v.clone();
            }
        },
        None => {},
    }
    path::join(&home_dir(env), fallback)
}

pub fn config_dir(env: &Env) -> (r: String)
    ensures
        r@ == path::joined(env.base(env.config_home, ".config"@), "tomesole"@),
{
    path::join(&xdg_dir(env, &env.config_home, ".config"), "tomesole")
}

pub fn config_path(env: &Env) -> (r: String)
    ensures
        r@ == env.config_path_text(),
{
    path::join(&config_dir(env), "config.conf")
}

pub fn cache_dir(env: &Env) -> (r: String)
    ensures
        r@ == env.cache_path_text(),
{
    path::join(&xdg_dir(env, &env.cache_home, ".cache"), "tomesole")
}

pub fn mirror_cache_path(env: &Env) -> (r: String)
    ensures
        r@ == path::joined(env.cache_path_text(), "mirrors.tsv"@),
{
    path::join(&cache_dir(env), "mirrors.tsv")
}

/// Downloaded cover thumbnails. Cache, not data: losing it costs a refetch.
pub fn cover_cache_dir(env: &Env) -> (r: String)
    ensures
        r@ == path::joined(env.cache_path_text(), "covers"@),
{
    path::join(&cache_dir(env), "covers")
}

/// Where state the user would miss lives, as opposed to state we can rebuild.
pub fn data_dir(env: &Env) -> (r: String)
    ensures
        r@ == env.data_path_text(),
{
    path::join(&xdg_dir(env, &env.data_home, ".local/share"), "tomesole")
}

pub fn history_path(env: &Env) -> (r: String)
    ensures
        r@ == path::joined(env.data_path_text(), "history.tsv"@),
{
    path::join(&data_dir(env), "history.tsv")
}

/// The directory downloads would land in below the home directory.
pub fn downloads_dir(env: &Env) -> (r: String)
    ensures
        r@ == path::joined(env.home_path(), "Downloads"@),
{
    path::join(&home_dir(env), "Downloads")
}

/// The default place downloads land: `~/Downloads` when it is a directory, else
/// the working directory.
pub fn default_download_dir(env: &Env, downloads_exist: bool) -> (r: String)
    ensures
        r@ == (if downloads_exist {
            path::joined(env.home_path(), "Downloads"@)
        } else {
            "."@
        }),
{
    if downloads_exist {
        downloads_dir(env)
    } else {
        ".".to_owned()
    }
}

/// A path with a leading `~` replaced by the home directory.
pub open spec fn expanded(p: Seq<char>, home: Seq<char>) -> Seq<char> {
    let t = text::trimmed(p);
    if t == "~"@ {
        home
    } else {
        match text::after_prefix(t, "~/"@) {
            Some(rest) => path::joined(home, rest),
            None => t,
        }
    }
}

/// Replace a leading `~` with the user's home directory.
pub fn expand_tilde(p: &str, env: &Env) -> (r: String)
    ensures
        r@ == expanded(p@, env.home_path()),
{
    let t = trim(p);
    if same(&t, "~") {
        return home_dir(env);
    }
    match strip_prefix(&t, "~/") {
        Some(rest) => path::join(&home_dir(env), &rest),
        None => t,
    }
}

// ---------------------------------------------------------------------------
// The file
// ---------------------------------------------------------------------------

/// Everything the user can set in the config file. All fields are optional;
/// command-line flags win over any of them.
#[derive(Debug)]
pub struct Config {
    /// Mirrors to try first, in order, before the built-in list.
    pub mirrors: Vec<String>,
    pub download_dir: Option<String>,
    pub limit: Option<usize>,
    pub topics: Option<Vec<Topic>>,
    pub allow_http: bool,
    pub max_size: Option<u64>,
    /// Set to false to skip MD5 verification. Strongly discouraged.
    pub verify: Option<bool>,
    /// What to hand a downloaded book to. On macOS this names an application
    /// for `open -a`; elsewhere it is a command run with the file as argument.
    pub reader: Option<String>,
    /// Set to false to stop recording what was downloaded.
    pub history: Option<bool>,
    /// Set to false to never fetch or draw cover art.
    pub covers: Option<bool>,
}

/// What a config says, by value.
pub struct ConfigView {
    pub mirrors: Seq<Seq<char>>,
    pub download_dir: Option<Seq<char>>,
    pub limit: Option<usize>,
    pub topics: Option<Seq<Topic>>,
    pub allow_http: bool,
    pub max_size: Option<u64>,
    pub verify: Option<bool>,
    pub reader: Option<Seq<char>>,
    pub history: Option<bool>,
    pub covers: Option<bool>,
}

impl View for Config {
    type V = ConfigView;

    open spec fn view(&self) -> ConfigView {
        ConfigView {
            mirrors: text::texts(self.mirrors@),
            download_dir: self.download_dir.deep_view(),
            limit: self.limit,
            topics: match self.topics {
                Some(t) => Some(t@),
                None => None,
            },
            allow_http: self.allow_http,
            max_size: self.max_size,
            verify: self.verify,
            reader: self.reader.deep_view(),
            history: self.history,
            covers: self.covers,
        }
    }
}

/// A config that sets nothing.
pub open spec fn unset() -> ConfigView {
    ConfigView {
        mirrors: seq![],
        download_dir: None,
        limit: None,
        topics: None,
        allow_http: false,
        max_size: None,
        verify: None,
        reader: None,
        history: None,
        covers: None,
    }
}

impl Default for Config {
    fn default() -> (r: Self)
        ensures
            r@ == unset(),
    {
        let r = Config {
            mirrors: Vec::new(),
            download_dir: None,
            limit: None,
            topics: None,
            allow_http: false,
            max_size: None,
            verify: None,
            reader: None,
            history: None,
            covers: None,
        };
        assert(r@.mirrors =~= seq![]);
        r
    }
}

/// The yes-or-no a word stands for.
pub open spec fn flag_of(value: Seq<char>) -> Option<bool> {
    let v = text::ascii_lower(text::trimmed(value));
    if v == "true"@ || v == "yes"@ || v == "on"@ || v == "1"@ {
        Some(true)
    } else if v == "false"@ || v == "no"@ || v == "off"@ || v == "0"@ {
        Some(false)
    } else {
        None
    }
}

pub open spec fn not_a_flag(value: Seq<char>) -> Seq<char> {
    "expected true or false, got `"@ + text::ascii_lower(text::trimmed(value)) + "`"@
}

fn parse_bool(value: &str) -> (r: Result<bool, Error>)
    ensures
        match r {
            Ok(b) => flag_of(value@) == Some(b),
            Err(e) => flag_of(value@) is None && e.text@ == not_a_flag(value@),
        },
{
    let v = to_ascii_lower(&trim(value));
    if same(&v, "true") || same(&v, "yes") || same(&v, "on") || same(&v, "1") {
        Ok(true)
    } else if same(&v, "false") || same(&v, "no") || same(&v, "off") || same(&v, "0") {
        Ok(false)
    } else {
        let mut out = "expected true or false, got `".to_owned();
        out.append(&v);
        out.append("`");
        Err(Error::new(out))
    }
}

/// What a line holds once its comment is gone.
pub open spec fn content(raw: Seq<char>) -> Seq<char> {
    text::trimmed(text::pieces(raw, '#', 0)[0])
}

/// The setting on a line that holds one: its key in small letters, its value
/// without the quotes around it.
pub open spec fn setting(raw: Seq<char>) -> Option<(Seq<char>, Seq<char>)> {
    match text::cut(content(raw), '=') {
        Some((k, v)) => Some(
            (
                text::ascii_lower(text::trimmed(k)),
                text::stripped_of(text::stripped_of(text::trimmed(v), '"'), '\''),
            ),
        ),
        None => None,
    }
}

pub open spec fn bad_line(n: nat, raw: Seq<char>) -> Seq<char> {
    "line "@ + text::decimal(n) + ": expected `key = value`, got `"@ + text::trimmed(raw) + "`"@
}

/// The settings on some lines, in order; or what is wrong with the first line
/// that is neither blank nor a setting.
pub open spec fn settings_of(ls: Seq<Seq<char>>) -> Result<Seq<(Seq<char>, Seq<char>)>, Seq<char>>
    decreases ls.len(),
{
    if ls.len() == 0 {
        Ok(seq![])
    } else {
        match settings_of(ls.drop_last()) {
            Err(e) => Err(e),
            Ok(ps) => if content(ls.last()).len() == 0 {
                Ok(ps)
            } else {
                match setting(ls.last()) {
                    Some(p) => Ok(ps.push(p)),
                    None => Err(bad_line(ls.len(), ls.last())),
                }
            },
        }
    }
}

/// Pairs of strings, each taken by its characters.
pub open spec fn pair_texts(v: Seq<(String, String)>) -> Seq<(Seq<char>, Seq<char>)> {
    Seq::new(v.len(), |i: int| (v[i].0@, v[i].1@))
}

proof fn lemma_settings_fault(ls: Seq<Seq<char>>, k: int)
    requires
        0 <= k <= ls.len(),
        settings_of(ls.take(k)) is Err,
    ensures
        settings_of(ls) == settings_of(ls.take(k)),
    decreases ls.len() - k,
{
    if k < ls.len() {
        assert(ls.take(k + 1).drop_last() =~= ls.take(k));
        lemma_settings_fault(ls, k + 1);
    } else {
        assert(ls.take(k) =~= ls);
    }
}

/// Read `key = value` lines, keeping repeats so `mirror` can be listed more
/// than once.
fn parse_pairs(s: &str) -> (r: Result<Vec<(String, String)>, Error>)
    ensures
        match r {
            Ok(ps) => settings_of(text::lines_of(s@)) == Ok::<
                Seq<(Seq<char>, Seq<char>)>,
                Seq<char>,
            >(pair_texts(ps@)),
            Err(e) => settings_of(text::lines_of(s@)) == Err::<
                Seq<(Seq<char>, Seq<char>)>,
                Seq<char>,
            >(e.text@),
        },
{
    let raws = lines(s);
    let ghost all = text::texts(raws@);
    let mut out: Vec<(String, String)> = Vec::new();
    let mut i: usize = 0;
    assert(all.take(0) =~= seq![]);
    assert(pair_texts(out@) =~= seq![]);
    while i < raws.len()
        invariant
            i <= raws@.len(),
            all == text::texts(raws@),
            all == text::lines_of(s@),
            settings_of(all.take(i as int)) == Ok::<Seq<(Seq<char>, Seq<char>)>, Seq<char>>(
                pair_texts(out@),
            ),
        decreases raws@.len() - i,
    {
        let ghost t = all.take(i + 1);
        proof {
            assert(t.drop_last() =~= all.take(i as int));
            assert(t.last() == raws@[i as int]@);
            text::lemma_pieces_nonempty(raws@[i as int]@, '#', 0);
        }
        let parts = split(&raws[i], '#');
        assert(text::texts(parts@)[0] == parts@[0]@);
        let line = trim(&parts[0]);
        if !line.as_str().is_empty() {
            match split_once(&line, '=') {
                Some((k, v)) => {
                    let key = to_ascii_lower(&trim(&k));
                    let value = trim_matches(&trim_matches(&trim(&v), '"'), '\'');
                    let ghost before = pair_texts(out@);
                    let ghost p = (key@, value@);
                    out.push((key, value));
                    assert(pair_texts(out@) =~= before.push(p));
                },
                None => {
                    let mut e = "line ".to_owned();
                    assert(i + 1 <= raws@.len());
                    e.append(&dec(i as u64 + 1));
                    e.append(": expected `key = value`, got `");
                    e.append(&trim(&raws[i]));
                    e.append("`");
                    proof {
                        lemma_settings_fault(all, i + 1);
                    }
                    return Err(Error::new(e));
                },
            }
        }
        i += 1;
    }
    assert(all.take(all.len() as int) =~= all);
    Ok(out)
}

/// Every value a key was given, in order.
pub open spec fn values_of(ps: Seq<(Seq<char>, Seq<char>)>, key: Seq<char>) -> Seq<Seq<char>>
    decreases ps.len(),
{
    if ps.len() == 0 {
        seq![]
    } else if ps.last().0 == key {
        values_of(ps.drop_last(), key).push(ps.last().1)
    } else {
        values_of(ps.drop_last(), key)
    }
}

/// The last value a key was given, which is the one that counts.
pub open spec fn value_of(ps: Seq<(Seq<char>, Seq<char>)>, key: Seq<char>) -> Option<Seq<char>> {
    let vs = values_of(ps, key);
    if vs.len() == 0 {
        None
    } else {
        Some(vs.last())
    }
}

fn all_values(ps: &Vec<(String, String)>, key: &str) -> (r: Vec<String>)
    ensures
        text::texts(r@) == values_of(pair_texts(ps@), key@),
{
    broadcast use text::lemma_texts_push;

    let ghost all = pair_texts(ps@);
    let mut out: Vec<String> = Vec::new();
    let mut i: usize = 0;
    assert(all.take(0) =~= seq![]);
    assert(text::texts(out@) =~= seq![]);
    while i < ps.len()
        invariant
            i <= ps@.len(),
            all == pair_texts(ps@),
            text::texts(out@) == values_of(all.take(i as int), key@),
        decreases ps@.len() - i,
    {
        proof {
            assert(all.take(i + 1).drop_last() =~= all.take(i as int));
            assert(all.take(i + 1).last() == (ps@[i as int].0@, ps@[i as int].1@));
        }
        if same(&ps[i].0, key) {
            out.push(ps[i].1.clone());
        }
        i += 1;
    }
    assert(all.take(all.len() as int) =~= all);
    out
}

fn last_value(ps: &Vec<(String, String)>, key: &str) -> (r: Option<String>)
    ensures
        r.deep_view() == value_of(pair_texts(ps@), key@),
{
    let vs = all_values(ps, key);
    assert(text::texts(vs@).len() == vs@.len());
    if vs.len() == 0 {
        None
    } else {
        assert(text::texts(vs@).last() == vs@.last()@);
        Some(vs[vs.len() - 1].clone())
    }
}

/// The items of several comma-separated lists, one list after the other.
pub open spec fn items_of(vs: Seq<Seq<char>>) -> Seq<Seq<char>>
    decreases vs.len(),
{
    if vs.len() == 0 {
        seq![]
    } else {
        items_of(vs.drop_last()) + text::list_items(vs.last())
    }
}

fn all_items(vs: &Vec<String>) -> (r: Vec<String>)
    ensures
        text::texts(r@) == items_of(text::texts(vs@)),
{
    broadcast use text::lemma_texts_concat;

    let ghost all = text::texts(vs@);
    let mut out: Vec<String> = Vec::new();
    let mut i: usize = 0;
    assert(all.take(0) =~= seq![]);
    assert(text::texts(out@) =~= seq![]);
    while i < vs.len()
        invariant
            i <= vs@.len(),
            all == text::texts(vs@),
            text::texts(out@) == items_of(all.take(i as int)),
        decreases vs@.len() - i,
    {
        proof {
            assert(all.take(i + 1).drop_last() =~= all.take(i as int));
            assert(all.take(i + 1).last() == vs@[i as int]@);
        }
        let mut items = split_list(&vs[i]);
        out.append(&mut items);
        i += 1;
    }
    assert(all.take(all.len() as int) =~= all);
    out
}

/// A setting that has to be a yes or a no, where it is there at all.
pub open spec fn flag_setting(
    ps: Seq<(Seq<char>, Seq<char>)>,
    key: Seq<char>,
) -> Result<Option<bool>, Seq<char>> {
    match value_of(ps, key) {
        None => Ok(None),
        Some(v) => match flag_of(v) {
            Some(b) => Ok(Some(b)),
            None => Err(not_a_flag(v)),
        },
    }
}

fn read_flag(ps: &Vec<(String, String)>, key: &str) -> (r: Result<Option<bool>, Error>)
    ensures
        match r {
            Ok(b) => flag_setting(pair_texts(ps@), key@) == Ok::<Option<bool>, Seq<char>>(b),
            Err(e) => flag_setting(pair_texts(ps@), key@) == Err::<Option<bool>, Seq<char>>(
                e.text@,
            ),
        },
{
    match last_value(ps, key) {
        None => Ok(None),
        Some(v) => match parse_bool(&v) {
            Ok(b) => Ok(Some(b)),
            Err(e) => Err(e),
        },
    }
}

/// Why a text is not a number that a machine word holds. A number that is too
/// large is called so even when something else follows its digits.
pub open spec fn number_fault(s: Seq<char>) -> Seq<char> {
    let from = if s.len() > 0 && s[0] == '+' {
        1int
    } else {
        0int
    };
    if s.len() == 0 {
        "cannot parse integer from empty string"@
    } else if text::dec_value(s.subrange(from, model::digits_end(s, from))) > usize::MAX {
        "number too large to fit in target type"@
    } else {
        "invalid digit found in string"@
    }
}

fn why_no_number(s: &str) -> (r: &'static str)
    ensures
        r@ == number_fault(s@),
{
    let v = chars_of(s);
    if v.len() == 0 {
        return "cannot parse integer from empty string";
    }
    let from: usize = if v[0] == '+' {
        1
    } else {
        0
    };
    let mut e: usize = from;
    while e < v.len() && digit(v[e])
        invariant
            from <= e <= v@.len(),
            model::digits_end(v@, from as int) == model::digits_end(v@, e as int),
            forall|i: int| from <= i < e ==> text::is_digit(#[trigger] v@[i]),
        decreases v@.len() - e,
    {
        e += 1;
    }
    if e > from && parse_usize(&string_of(cut_out(&v, from, e))).is_none() {
        "number too large to fit in target type"
    } else {
        "invalid digit found in string"
    }
}

/// The result limit.
pub open spec fn limit_setting(ps: Seq<(Seq<char>, Seq<char>)>) -> Result<
    Option<usize>,
    Seq<char>,
> {
    match value_of(ps, "limit"@) {
        None => Ok(None),
        Some(v) => match crate::term::word_of(v) {
            Some(n) => Ok(Some(n as usize)),
            None => Err("`limit` must be a number, got `"@ + v + "`: "@ + number_fault(v)),
        },
    }
}

fn read_limit(ps: &Vec<(String, String)>) -> (r: Result<Option<usize>, Error>)
    ensures
        match r {
            Ok(n) => limit_setting(pair_texts(ps@)) == Ok::<Option<usize>, Seq<char>>(n),
            Err(e) => limit_setting(pair_texts(ps@)) == Err::<Option<usize>, Seq<char>>(e.text@),
        },
{
    match last_value(ps, "limit") {
        None => Ok(None),
        Some(v) => match parse_usize(&v) {
            Some(n) => Ok(Some(n)),
            None => {
                let mut e = "`limit` must be a number, got `".to_owned();
                e.append(&v);
                e.append("`: ");
                e.append(why_no_number(&v));
                Err(Error::new(e))
            },
        },
    }
}

/// The largest download.
pub open spec fn size_setting(ps: Seq<(Seq<char>, Seq<char>)>) -> Result<Option<u64>, Seq<char>> {
    match value_of(ps, "max_size"@) {
        None => Ok(None),
        Some(v) => match model::size_of_text(v) {
            Some(n) => if n <= u64::MAX {
                Ok(Some(n as u64))
            } else {
                Err("`max_size` is not a size, got `"@ + v + "`"@)
            },
            None => Err("`max_size` is not a size, got `"@ + v + "`"@),
        },
    }
}

fn read_size(ps: &Vec<(String, String)>) -> (r: Result<Option<u64>, Error>)
    ensures
        match r {
            Ok(n) => size_setting(pair_texts(ps@)) == Ok::<Option<u64>, Seq<char>>(n),
            Err(e) => size_setting(pair_texts(ps@)) == Err::<Option<u64>, Seq<char>>(e.text@),
        },
{
    match last_value(ps, "max_size") {
        None => Ok(None),
        Some(v) => match parse_size(&v) {
            Some(n) => Ok(Some(n)),
            None => {
                let mut e = "`max_size` is not a size, got `".to_owned();
                e.append(&v);
                e.append("`");
                Err(Error::new(e))
            },
        },
    }
}

pub open spec fn unknown_topic(name: Seq<char>) -> Seq<char> {
    "unknown topic `"@ + name + "` (expected one of: "@ + model::ALL_TOPICS@ + ")"@
}

pub fn topic_fault(name: &str) -> (r: Error)
    ensures
        r.text@ == unknown_topic(name@),
{
    let mut e = "unknown topic `".to_owned();
    e.append(name);
    e.append("` (expected one of: ");
    e.append(model::ALL_TOPICS);
    e.append(")");
    Error::new(e)
}

/// The collections to search.
pub open spec fn topics_setting(ps: Seq<(Seq<char>, Seq<char>)>) -> Result<
    Option<Seq<Topic>>,
    Seq<char>,
> {
    match value_of(ps, "topics"@) {
        None => Ok(None),
        Some(v) => match model::first_unknown_topic(text::list_items(v)) {
            None => Ok(model::topics_named(text::list_items(v))),
            Some(name) => Err(unknown_topic(name)),
        },
    }
}

fn read_topics(ps: &Vec<(String, String)>) -> (r: Result<Option<Vec<Topic>>, Error>)
    ensures
        match r {
            Ok(t) => topics_setting(pair_texts(ps@)) == Ok::<Option<Seq<Topic>>, Seq<char>>(
                match t {
                    Some(v) => Some(v@),
                    None => None,
                },
            ),
            Err(e) => topics_setting(pair_texts(ps@)) == Err::<Option<Seq<Topic>>, Seq<char>>(
                e.text@,
            ),
        },
{
    match last_value(ps, "topics") {
        None => Ok(None),
        Some(v) => match parse_topics(&split_list(&v)) {
            Ok(ts) => Ok(Some(ts)),
            Err(name) => Err(topic_fault(&name)),
        },
    }
}

/// A value without the blanks around it, unless nothing is left.
pub open spec fn filled_in(v: Option<Seq<char>>) -> Option<Seq<char>> {
    match v {
        Some(x) => if text::trimmed(x).len() > 0 {
            Some(text::trimmed(x))
        } else {
            None
        },
        None => None,
    }
}

fn read_word(ps: &Vec<(String, String)>, key: &str) -> (r: Option<String>)
    ensures
        r.deep_view() == filled_in(value_of(pair_texts(ps@), key@)),
{
    match last_value(ps, key) {
        Some(v) => {
            let t = trim(&v);
            if t.as_str().is_empty() {
                None
            } else {
                Some(t)
            }
        },
        None => None,
    }
}

/// One answer where it is given, else another.
pub open spec fn either<T>(a: Option<T>, b: Option<T>) -> Option<T> {
    if a is Some {
        a
    } else {
        b
    }
}

/// What a list of settings says. A key under two names counts under the one
/// that comes later in the alphabet. Unknown keys are ignored rather than
/// fatal, so a config written for a newer version still works.
pub open spec fn config_said(ps: Seq<(Seq<char>, Seq<char>)>, home: Seq<char>) -> Result<
    ConfigView,
    Seq<char>,
> {
    match flag_setting(ps, "allow_http"@) {
        Err(e) => Err(e),
        Ok(allow) => match flag_setting(ps, "cover_art"@) {
            Err(e) => Err(e),
            Ok(art) => match flag_setting(ps, "covers"@) {
                Err(e) => Err(e),
                Ok(covers) => match flag_setting(ps, "history"@) {
                    Err(e) => Err(e),
                    Ok(history) => match limit_setting(ps) {
                        Err(e) => Err(e),
                        Ok(limit) => match size_setting(ps) {
                            Err(e) => Err(e),
                            Ok(size) => match topics_setting(ps) {
                                Err(e) => Err(e),
                                Ok(topics) => match flag_setting(ps, "verify"@) {
                                    Err(e) => Err(e),
                                    Ok(verify) => Ok(
                                        ConfigView {
                                            mirrors: items_of(values_of(ps, "mirror"@)) + items_of(
                                                values_of(ps, "mirrors"@),
                                            ),
                                            download_dir: match value_of(ps, "download_dir"@) {
                                                Some(d) => Some(expanded(d, home)),
                                                None => None,
                                            },
                                            limit,
                                            topics,
                                            allow_http: allow == Some(true),
                                            max_size: size,
                                            verify,
                                            reader: either(
                                                filled_in(value_of(ps, "viewer"@)),
                                                filled_in(value_of(ps, "reader"@)),
                                            ),
                                            history,
                                            covers: either(covers, art),
                                        },
                                    ),
                                },
                            },
                        },
                    },
                },
            },
        },
    }
}

/// What a config text says.
pub open spec fn config_text(s: Seq<char>, home: Seq<char>) -> Result<ConfigView, Seq<char>> {
    match settings_of(text::lines_of(s)) {
        Err(e) => Err(e),
        Ok(ps) => config_said(ps, home),
    }
}

/// What was found when the config file was read.
#[derive(Debug)]
pub enum Found {
    /// There is no such file.
    Missing,
    Text(String),
    /// The file is there but could not be read, for the reason given.
    Unreadable(String),
}

impl Config {
    /// The config a file holds: the defaults when there is none.
    pub fn load(found: Found, env: &Env) -> (r: Result<Self, Error>)
        ensures
            match found {
                Found::Missing => r is Ok && r->Ok_0@ == unset(),
                Found::Text(s) => match config_text(s@, env.home_path()) {
                    Ok(c) => r is Ok && r->Ok_0@ == c,
                    Err(e) => r is Err && r->Err_0.text@ == "invalid config at "@
                        + env.config_path_text() + ": "@ + e,
                },
                Found::Unreadable(why) => r is Err && r->Err_0.text@ == "could not read "@
                    + env.config_path_text() + ": "@ + why@,
            },
    {
        match found {
            Found::Missing => Ok(Config::default()),
            Found::Text(s) => match Config::parse(&s, env) {
                Ok(c) => Ok(c),
                Err(e) => {
                    let mut out = "invalid config at ".to_owned();
                    out.append(&config_path(env));
                    out.append(": ");
                    out.append(e.message());
                    Err(Error::new(out))
                },
            },
            Found::Unreadable(why) => {
                let mut out = "could not read ".to_owned();
                out.append(&config_path(env));
                out.append(": ");
                out.append(&why);
                Err(Error::new(out))
            },
        }
    }

    /// Read a config text.
    pub fn parse(s: &str, env: &Env) -> (r: Result<Self, Error>)
        ensures
            match r {
                Ok(c) => config_text(s@, env.home_path()) == Ok::<ConfigView, Seq<char>>(c@),
                Err(e) => config_text(s@, env.home_path()) == Err::<ConfigView, Seq<char>>(e.text@),
            },
    {
        broadcast use text::lemma_texts_concat;

        let ps = match parse_pairs(s) {
            Ok(ps) => ps,
            Err(e) => return Err(e),
        };
        let allow = match read_flag(&ps, "allow_http") {
            Ok(b) => b,
            Err(e) => return Err(e),
        };
        let art = match read_flag(&ps, "cover_art") {
            Ok(b) => b,
            Err(e) => return Err(e),
        };
        let covers = match read_flag(&ps, "covers") {
            Ok(b) => b,
            Err(e) => return Err(e),
        };
        let history = match read_flag(&ps, "history") {
            Ok(b) => b,
            Err(e) => return Err(e),
        };
        let limit = match read_limit(&ps) {
            Ok(n) => n,
            Err(e) => return Err(e),
        };
        let max_size = match read_size(&ps) {
            Ok(n) => n,
            Err(e) => return Err(e),
        };
        let topics = match read_topics(&ps) {
            Ok(t) => t,
            Err(e) => return Err(e),
        };
        let verify = match read_flag(&ps, "verify") {
            Ok(b) => b,
            Err(e) => return Err(e),
        };
        let mut mirrors = all_items(&all_values(&ps, "mirror"));
        let mut more = all_items(&all_values(&ps, "mirrors"));
        mirrors.append(&mut more);
        let download_dir = match last_value(&ps, "download_dir") {
            Some(d) => Some(expand_tilde(&d, env)),
            None => None,
        };
        let viewer = read_word(&ps, "viewer");
        let reader = if viewer.is_some() {
            viewer
        } else {
            read_word(&ps, "reader")
        };
        Ok(
            Config {
                mirrors,
                download_dir,
                limit,
                topics,
                allow_http: match allow {
                    Some(b) => b,
                    None => false,
                },
                max_size,
                verify,
                reader,
                history,
                covers: if covers.is_some() {
                    covers
                } else {
                    art
                },
            },
        )
    }
}

// ---------------------------------------------------------------------------
// Laws
// ---------------------------------------------------------------------------

/// The names a configuration file gives meaning to.
pub open spec fn known_key(key: Seq<char>) -> bool {
    ||| key == "mirror"@
    ||| key == "mirrors"@
    ||| key == "download_dir"@
    ||| key == "limit"@
    ||| key == "topics"@
    ||| key == "allow_http"@
    ||| key == "verify"@
    ||| key == "reader"@
    ||| key == "viewer"@
    ||| key == "history"@
    ||| key == "covers"@
    ||| key == "cover_art"@
    ||| key == "max_size"@
}

/// A setting with an unknown name changes nothing: a file means the same, or is
/// refused for the same reason, with such a line after it and without.
pub proof fn lemma_unknown_keys_are_ignored(
    t: Seq<char>,
    k: Seq<char>,
    v: Seq<char>,
    home: Seq<char>,
)
    requires
        !known_key(text::ascii_lower(text::trimmed(k))),
        text::free_of(k, '#'),
        text::free_of(k, '='),
        text::free_of(k, '\n'),
        text::free_of(v, '#'),
        text::free_of(v, '\n'),
    ensures
        config_text(t + "\n"@ + (k + " = "@ + v), home) == config_text(t, home),
{
    let last = k + " = "@ + v;
    let ls = text::lines_of(t);
    reveal_strlit("\n");
    reveal_strlit(" = ");
    assert("\n"@ =~= seq!['\n']);
    assert(text::free_of(last, '\n'));
    text::lemma_lines_with_one_more(t, last);
    let before = if t.len() == 0 || t.last() == '\n' {
        ls.push(seq![])
    } else {
        ls.drop_last().push(text::chomped(ls.last()))
    };
    if t.len() == 0 || t.last() == '\n' {
        assert(before.drop_last() =~= ls);
        lemma_blank_content();
    } else {
        assert(before.drop_last() =~= ls.drop_last());
        lemma_chomped_content(ls.last());
    }
    assert(settings_of(before) == settings_of(ls));
    assert(before.push(last).drop_last() =~= before);
    lemma_setting_line(k, v);
    match settings_of(ls) {
        Err(_) => {},
        Ok(ps) => {
            let p = setting(last)->0;
            assert(settings_of(before.push(last)) == Ok::<
                Seq<(Seq<char>, Seq<char>)>,
                Seq<char>,
            >(ps.push(p)));
            lemma_other_values(ps, p);
        },
    }
}

pub proof fn lemma_blank_content()
    ensures
        content(seq![]).len() == 0,
{
    text::lemma_trimmed_range(text::pieces(seq![], '#', 0)[0]);
}

/// A carriage return at the end of a line says nothing.
pub proof fn lemma_chomped_content(s: Seq<char>)
    ensures
        content(text::chomped(s)) == content(s),
        text::trimmed(text::chomped(s)) == text::trimmed(s),
{
    let c = text::chomped(s);
    if c != s {
        text::lemma_first_at(s, '#', 0);
        text::lemma_first_at(c, '#', 0);
        let e = text::first_at(s, '#', 0);
        let f = text::first_at(c, '#', 0);
        assert(forall|i: int| 0 <= i < c.len() ==> c[i] == s[i]);
        if e < s.len() {
            assert(c[e] == '#');
            assert(f == e);
            assert(c.subrange(0, e) =~= s.subrange(0, e));
        } else {
            if f < c.len() {
                assert(s[f] == '#');
            }
            assert(c.subrange(0, c.len() as int) =~= c);
            assert(s.subrange(0, s.len() as int) =~= s);
        }
        let (a, b) = text::lemma_trimmed_place(c);
        text::lemma_trimmed_is(s, if a == b {
            s.len() as int
        } else {
            a
        }, if a == b {
            s.len() as int
        } else {
            b
        });
        assert(text::trimmed(s) =~= text::trimmed(c));
    }
}

/// What stands before the first equals sign of a line is the name of the
/// setting.
proof fn lemma_setting_line(k: Seq<char>, v: Seq<char>)
    requires
        text::free_of(k, '#'),
        text::free_of(k, '='),
        text::free_of(v, '#'),
    ensures
        ({
            let last = k + " = "@ + v;
            &&& content(last).len() > 0
            &&& setting(last) is Some
            &&& (setting(last)->0).0 == text::ascii_lower(text::trimmed(k))
        }),
{
    let last = k + " = "@ + v;
    reveal_strlit(" = ");
    let eq = k.len() as int + 1;
    text::lemma_first_at(last, '#', 0);
    let e = text::first_at(last, '#', 0);
    assert(forall|i: int| 0 <= i < k.len() ==> last[i] == k[i]);
    assert(last[k.len() as int] == ' ');
    assert(last[eq] == '=');
    if e < last.len() {
        if e >= k.len() + 3 {
            assert(last[e] == v[e - k.len() - 3]);
        }
    }
    assert(last.subrange(0, last.len() as int) =~= last);
    let (from, to) = text::lemma_trimmed_place(last);
    let (a, b) = text::lemma_trimmed_place(k);
    assert(from <= eq < to);
    let c = content(last);
    assert(c == last.subrange(from, to));
    text::lemma_first_at(c, '=', 0);
    let f = text::first_at(c, '=', 0);
    assert(c[eq - from] == '=');
    if f < eq - from {
        assert(c[f] == last[f + from]);
    }
    assert(f == eq - from);
    let name = c.subrange(0, f);
    assert(forall|i: int| 0 <= i < f ==> name[i] == last[from + i]);
    if a == b {
        assert(forall|i: int| 0 <= i < k.len() ==> text::is_white(#[trigger] k[i]));
        if from < k.len() {
            assert(text::is_white(k[from]));
        }
        assert(from == eq);
        text::lemma_trimmed_is(name, 0, 0);
    } else {
        if from < a {
            assert(text::is_white(k[from]));
        }
        if from > a {
            assert(text::is_white(last[a]));
        }
        assert(from == a);
        assert forall|i: int| b - a <= i < name.len() implies text::is_white(#[trigger] name[i]) by {
            if i + a < k.len() {
                assert(text::is_white(k[i + a]));
            }
        }
        text::lemma_trimmed_is(name, 0, b - a);
    }
    assert(text::trimmed(name) =~= text::trimmed(k));
}

/// A setting of one name leaves those of another alone.
proof fn lemma_other_value(
    ps: Seq<(Seq<char>, Seq<char>)>,
    p: (Seq<char>, Seq<char>),
    key: Seq<char>,
)
    requires
        p.0 != key,
    ensures
        values_of(ps.push(p), key) == values_of(ps, key),
        value_of(ps.push(p), key) == value_of(ps, key),
{
    assert(ps.push(p).drop_last() =~= ps);
}

proof fn lemma_other_values(ps: Seq<(Seq<char>, Seq<char>)>, p: (Seq<char>, Seq<char>))
    requires
        !known_key(p.0),
    ensures
        forall|home: Seq<char>| config_said(ps.push(p), home) == #[trigger] config_said(ps, home),
{
    lemma_other_value(ps, p, "mirror"@);
    lemma_other_value(ps, p, "mirrors"@);
    lemma_other_value(ps, p, "download_dir"@);
    lemma_other_value(ps, p, "limit"@);
    lemma_other_value(ps, p, "topics"@);
    lemma_other_value(ps, p, "allow_http"@);
    lemma_other_value(ps, p, "verify"@);
    lemma_other_value(ps, p, "reader"@);
    lemma_other_value(ps, p, "viewer"@);
    lemma_other_value(ps, p, "history"@);
    lemma_other_value(ps, p, "covers"@);
    lemma_other_value(ps, p, "cover_art"@);
    lemma_other_value(ps, p, "max_size"@);
}

} // verus!
