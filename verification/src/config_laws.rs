//! What holds of a configuration file: what each setting, written out, sets.

use vstd::prelude::*;

use crate::config;
use crate::config::ConfigView;
use crate::model;
use crate::model::Topic;
use crate::text;

verus! {

/// Whether a value means itself: it does not begin or end in white space or
/// quotes, and nothing in it begins a comment or ends the line.
pub open spec fn clean(v: Seq<char>) -> bool {
    &&& v.len() > 0
    &&& !text::is_white(v[0])
    &&& !text::is_white(v.last())
    &&& v[0] != '"' && v.last() != '"'
    &&& v[0] != '\'' && v.last() != '\''
    &&& text::free_of(v, '#')
    &&& text::free_of(v, '\n')
}

/// A file with one more line that sets something.
pub open spec fn also(t: Seq<char>, key: Seq<char>, v: Seq<char>) -> Seq<char> {
    t + "\n"@ + (key + " = "@ + v)
}

/// Whether a text is the name of a setting as it is written.
spec fn name(k: Seq<char>) -> bool {
    &&& k.len() > 0
    &&& forall|i: int| 0 <= i < k.len() ==> 'a' <= #[trigger] k[i] <= 'z' || k[i] == '_'
}

proof fn lemma_unquoted(v: Seq<char>, c: char)
    requires
        v.len() > 0,
        v[0] != c,
        v.last() != c,
    ensures
        text::stripped_of(v, c) == v,
{
    assert(v.subrange(0, v.len() as int) =~= v);
}

proof fn lemma_setting(k: Seq<char>, v: Seq<char>)
    requires
        name(k),
        clean(v),
    ensures
        config::content(k + " = "@ + v).len() > 0,
        config::setting(k + " = "@ + v) == Some((k, v)),
{
    let line = k + " = "@ + v;
    let n = k.len() as int;
    reveal_strlit(" = ");
    text::lemma_first_at(line, '#', 0);
    let e = text::first_at(line, '#', 0);
    if e < line.len() {
        if e < n {
            assert(line[e] == k[e]);
        } else if e >= n + 3 {
            assert(line[e] == v[e - n - 3]);
        }
    }
    assert(e == line.len());
    assert(text::pieces(line, '#', 0)[0] =~= line);
    assert(line[0] == k[0]);
    assert(line[line.len() - 1] == v.last());
    text::lemma_trimmed_is(line, 0, line.len() as int);
    assert(line.subrange(0, line.len() as int) =~= line);
    assert(config::content(line) == line);
    text::lemma_first_at(line, '=', 0);
    let f = text::first_at(line, '=', 0);
    assert(line[n + 1] == '=');
    if f < n {
        assert(line[f] == k[f]);
    }
    assert(f == n + 1);
    let left = line.subrange(0, f);
    let right = line.subrange(f + 1, line.len() as int);
    assert(left =~= k + seq![' ']);
    assert(left[0] == k[0] && left[n - 1] == k[n - 1] && left[n] == ' ');
    text::lemma_trimmed_is(left, 0, n);
    assert(left.subrange(0, n) =~= k);
    assert(text::ascii_lower(k) =~= k);
    assert(right =~= seq![' '] + v);
    assert(right[1] == v[0] && right[right.len() - 1] == v.last());
    text::lemma_trimmed_is(right, 1, right.len() as int);
    assert(right.subrange(1, right.len() as int) =~= v);
    lemma_unquoted(v, '"');
    lemma_unquoted(v, '\'');
}

/// A line more is a setting more.
proof fn lemma_line_added(t: Seq<char>, k: Seq<char>, v: Seq<char>)
    requires
        name(k),
        clean(v),
        config::settings_of(text::lines_of(t)) is Ok,
    ensures
        config::settings_of(text::lines_of(also(t, k, v))) == Ok::<
            Seq<(Seq<char>, Seq<char>)>,
            Seq<char>,
        >(config::settings_of(text::lines_of(t))->Ok_0.push((k, v))),
{
    let last = k + " = "@ + v;
    let ls = text::lines_of(t);
    reveal_strlit("\n");
    reveal_strlit(" = ");
    assert("\n"@ =~= seq!['\n']);
    assert(text::free_of(last, '\n')) by {
        assert forall|i: int| 0 <= i < last.len() implies last[i] != '\n' by {
            if i < k.len() {
                assert(last[i] == k[i]);
            } else if i >= k.len() + 3 {
                assert(last[i] == v[i - k.len() - 3]);
            }
        }
    }
    text::lemma_lines_with_one_more(t, last);
    let before = if t.len() == 0 || t.last() == '\n' {
        ls.push(seq![])
    } else {
        ls.drop_last().push(text::chomped(ls.last()))
    };
    if t.len() == 0 || t.last() == '\n' {
        assert(before.drop_last() =~= ls);
        config::lemma_blank_content();
    } else {
        assert(before.drop_last() =~= ls.drop_last());
        config::lemma_chomped_content(ls.last());
    }
    assert(config::settings_of(before) == config::settings_of(ls));
    assert(before.push(last).drop_last() =~= before);
    lemma_setting(k, v);
}

proof fn lemma_value_added(ps: Seq<(Seq<char>, Seq<char>)>, k: Seq<char>, v: Seq<char>)
    ensures
        config::values_of(ps.push((k, v)), k) == config::values_of(ps, k).push(v),
        config::value_of(ps.push((k, v)), k) == Some(v),
        forall|other: Seq<char>|
            other != k ==> #[trigger] config::values_of(ps.push((k, v)), other)
                == config::values_of(ps, other),
        forall|other: Seq<char>|
            other != k ==> #[trigger] config::value_of(ps.push((k, v)), other) == config::value_of(
                ps,
                other,
            ),
{
    assert(ps.push((k, v)).drop_last() =~= ps);
}

#[verifier::spinoff_prover]
proof fn lemma_keys_spelled()
    ensures
        "mirror"@.len() == 6,
        "mirror"@[0] == 'm',
        "mirror"@[1] == 'i',
        "mirror"@[2] == 'r',
        "mirror"@[3] == 'r',
        "mirror"@[4] == 'o',
        "mirror"@[5] == 'r',
        "mirrors"@.len() == 7,
        "mirrors"@[0] == 'm',
        "mirrors"@[1] == 'i',
        "mirrors"@[2] == 'r',
        "mirrors"@[3] == 'r',
        "mirrors"@[4] == 'o',
        "mirrors"@[5] == 'r',
        "mirrors"@[6] == 's',
        "download_dir"@.len() == 12,
        "download_dir"@[0] == 'd',
        "download_dir"@[1] == 'o',
        "download_dir"@[2] == 'w',
        "download_dir"@[3] == 'n',
        "download_dir"@[4] == 'l',
        "download_dir"@[5] == 'o',
        "download_dir"@[6] == 'a',
        "download_dir"@[7] == 'd',
        "download_dir"@[8] == '_',
        "download_dir"@[9] == 'd',
        "download_dir"@[10] == 'i',
        "download_dir"@[11] == 'r',
        "limit"@.len() == 5,
        "limit"@[0] == 'l',
        "limit"@[1] == 'i',
        "limit"@[2] == 'm',
        "limit"@[3] == 'i',
        "limit"@[4] == 't',
        "topics"@.len() == 6,
        "topics"@[0] == 't',
        "topics"@[1] == 'o',
        "topics"@[2] == 'p',
        "topics"@[3] == 'i',
        "topics"@[4] == 'c',
        "topics"@[5] == 's',
        "allow_http"@.len() == 10,
        "allow_http"@[0] == 'a',
        "allow_http"@[1] == 'l',
        "allow_http"@[2] == 'l',
        "allow_http"@[3] == 'o',
        "allow_http"@[4] == 'w',
        "allow_http"@[5] == '_',
        "allow_http"@[6] == 'h',
        "allow_http"@[7] == 't',
        "allow_http"@[8] == 't',
        "allow_http"@[9] == 'p',
        "verify"@.len() == 6,
        "verify"@[0] == 'v',
        "verify"@[1] == 'e',
        "verify"@[2] == 'r',
        "verify"@[3] == 'i',
        "verify"@[4] == 'f',
        "verify"@[5] == 'y',
        "reader"@.len() == 6,
        "reader"@[0] == 'r',
        "reader"@[1] == 'e',
        "reader"@[2] == 'a',
        "reader"@[3] == 'd',
        "reader"@[4] == 'e',
        "reader"@[5] == 'r',
        "viewer"@.len() == 6,
        "viewer"@[0] == 'v',
        "viewer"@[1] == 'i',
        "viewer"@[2] == 'e',
        "viewer"@[3] == 'w',
        "viewer"@[4] == 'e',
        "viewer"@[5] == 'r',
        "history"@.len() == 7,
        "history"@[0] == 'h',
        "history"@[1] == 'i',
        "history"@[2] == 's',
        "history"@[3] == 't',
        "history"@[4] == 'o',
        "history"@[5] == 'r',
        "history"@[6] == 'y',
        "covers"@.len() == 6,
        "covers"@[0] == 'c',
        "covers"@[1] == 'o',
        "covers"@[2] == 'v',
        "covers"@[3] == 'e',
        "covers"@[4] == 'r',
        "covers"@[5] == 's',
        "cover_art"@.len() == 9,
        "cover_art"@[0] == 'c',
        "cover_art"@[1] == 'o',
        "cover_art"@[2] == 'v',
        "cover_art"@[3] == 'e',
        "cover_art"@[4] == 'r',
        "cover_art"@[5] == '_',
        "cover_art"@[6] == 'a',
        "cover_art"@[7] == 'r',
        "cover_art"@[8] == 't',
        "max_size"@.len() == 8,
        "max_size"@[0] == 'm',
        "max_size"@[1] == 'a',
        "max_size"@[2] == 'x',
        "max_size"@[3] == '_',
        "max_size"@[4] == 's',
        "max_size"@[5] == 'i',
        "max_size"@[6] == 'z',
        "max_size"@[7] == 'e',
{
    reveal_strlit("mirror");
    reveal_strlit("mirrors");
    reveal_strlit("download_dir");
    reveal_strlit("limit");
    reveal_strlit("topics");
    reveal_strlit("allow_http");
    reveal_strlit("verify");
    reveal_strlit("reader");
    reveal_strlit("viewer");
    reveal_strlit("history");
    reveal_strlit("covers");
    reveal_strlit("cover_art");
    reveal_strlit("max_size");
}

proof fn lemma_keys_are_names()
    ensures
        name("mirror"@),
        name("mirrors"@),
        name("download_dir"@),
        name("limit"@),
        name("topics"@),
        name("allow_http"@),
        name("verify"@),
        name("reader"@),
        name("viewer"@),
        name("history"@),
        name("covers"@),
        name("cover_art"@),
        name("max_size"@),
{
    lemma_keys_spelled();
}

/// What holds where nothing is set.
pub open spec fn nothing_set() -> ConfigView {
    ConfigView {
        mirrors: seq![],
        download_dir: None,
        limit: None,
        topics: None,
        allow_http: false,
        max_size: None,
        verify: None,
        reader: None,
        history: None,
        covers: None,
    }
}

/// Whether a word says yes, or no.
pub open spec fn says(v: Seq<char>, b: bool) -> bool {
    if b {
        v == "true"@ || v == "yes"@ || v == "on"@ || v == "1"@
    } else {
        v == "false"@ || v == "no"@ || v == "off"@ || v == "0"@
    }
}

#[verifier::spinoff_prover]
proof fn lemma_says(v: Seq<char>, b: bool)
    requires
        says(v, b),
    ensures
        clean(v),
        config::flag_of(v) == Some(b),
{
    reveal_strlit("true");
    reveal_strlit("yes");
    reveal_strlit("on");
    reveal_strlit("1");
    reveal_strlit("false");
    reveal_strlit("no");
    reveal_strlit("off");
    reveal_strlit("0");
    assert("true"@.len() == 4);
    assert("true"@[0] == 't');
    assert("true"@[1] == 'r');
    assert("true"@[2] == 'u');
    assert("true"@[3] == 'e');
    assert("yes"@.len() == 3);
    assert("yes"@[0] == 'y');
    assert("yes"@[1] == 'e');
    assert("yes"@[2] == 's');
    assert("on"@.len() == 2);
    assert("on"@[0] == 'o');
    assert("on"@[1] == 'n');
    assert("1"@.len() == 1);
    assert("1"@[0] == '1');
    assert("false"@.len() == 5);
    assert("false"@[0] == 'f');
    assert("false"@[1] == 'a');
    assert("false"@[2] == 'l');
    assert("false"@[3] == 's');
    assert("false"@[4] == 'e');
    assert("no"@.len() == 2);
    assert("no"@[0] == 'n');
    assert("no"@[1] == 'o');
    assert("off"@.len() == 3);
    assert("off"@[0] == 'o');
    assert("off"@[1] == 'f');
    assert("off"@[2] == 'f');
    assert("0"@.len() == 1);
    assert("0"@[0] == '0');
    text::lemma_trimmed_is(v, 0, v.len() as int);
    assert(v.subrange(0, v.len() as int) =~= v);
    assert(text::ascii_lower(v) =~= v);
}

/// `allow_http` allows plain HTTP, or not, and sets nothing else.
#[verifier::spinoff_prover]
pub proof fn lemma_allow_http_sets_itself(t: Seq<char>, v: Seq<char>, home: Seq<char>, b: bool)
    requires
        clean(v),
        says(v, b),
        config::config_text(t, home) is Ok,
    ensures
        config::config_text(also(t, "allow_http"@, v), home) == Ok::<ConfigView, Seq<char>>(
            ConfigView { allow_http: b, ..config::config_text(t, home)->Ok_0 },
        ),
{
    lemma_keys_spelled();
    lemma_keys_are_names();
    let ps = config::settings_of(text::lines_of(t))->Ok_0;
    lemma_line_added(t, "allow_http"@, v);
    lemma_value_added(ps, "allow_http"@, v);
    lemma_says(v, b);
}

/// `verify` turns verification on or off, and sets nothing else.
#[verifier::spinoff_prover]
pub proof fn lemma_verify_sets_itself(t: Seq<char>, v: Seq<char>, home: Seq<char>, b: bool)
    requires
        clean(v),
        says(v, b),
        config::config_text(t, home) is Ok,
    ensures
        config::config_text(also(t, "verify"@, v), home) == Ok::<ConfigView, Seq<char>>(
            ConfigView { verify: Some(b), ..config::config_text(t, home)->Ok_0 },
        ),
{
    lemma_keys_spelled();
    lemma_keys_are_names();
    let ps = config::settings_of(text::lines_of(t))->Ok_0;
    lemma_line_added(t, "verify"@, v);
    lemma_value_added(ps, "verify"@, v);
    lemma_says(v, b);
}

/// `history` turns recording on or off, and sets nothing else.
#[verifier::spinoff_prover]
pub proof fn lemma_history_sets_itself(t: Seq<char>, v: Seq<char>, home: Seq<char>, b: bool)
    requires
        clean(v),
        says(v, b),
        config::config_text(t, home) is Ok,
    ensures
        config::config_text(also(t, "history"@, v), home) == Ok::<ConfigView, Seq<char>>(
            ConfigView { history: Some(b), ..config::config_text(t, home)->Ok_0 },
        ),
{
    lemma_keys_spelled();
    lemma_keys_are_names();
    let ps = config::settings_of(text::lines_of(t))->Ok_0;
    lemma_line_added(t, "history"@, v);
    lemma_value_added(ps, "history"@, v);
    lemma_says(v, b);
}

/// `covers` turns cover art on or off, and sets nothing else.
#[verifier::spinoff_prover]
pub proof fn lemma_covers_sets_itself(t: Seq<char>, v: Seq<char>, home: Seq<char>, b: bool)
    requires
        clean(v),
        says(v, b),
        config::config_text(t, home) is Ok,
    ensures
        config::config_text(also(t, "covers"@, v), home) == Ok::<ConfigView, Seq<char>>(
            ConfigView { covers: Some(b), ..config::config_text(t, home)->Ok_0 },
        ),
{
    lemma_keys_spelled();
    lemma_keys_are_names();
    let ps = config::settings_of(text::lines_of(t))->Ok_0;
    lemma_line_added(t, "covers"@, v);
    lemma_value_added(ps, "covers"@, v);
    lemma_says(v, b);
}

/// `cover_art` is another name for `covers`.
#[verifier::spinoff_prover]
pub proof fn lemma_cover_art_sets_covers(v: Seq<char>, home: Seq<char>, b: bool)
    requires
        clean(v),
        says(v, b),
    ensures
        config::config_text(also(seq![], "cover_art"@, v), home) == Ok::<ConfigView, Seq<char>>(
            ConfigView { covers: Some(b), ..nothing_set() },
        ),
{
    lemma_keys_spelled();
    lemma_keys_are_names();
    let t = Seq::<char>::empty();
    assert(text::lines_of(t) =~= seq![]);
    let ps = config::settings_of(text::lines_of(t))->Ok_0;
    lemma_line_added(t, "cover_art"@, v);
    lemma_value_added(ps, "cover_art"@, v);
    lemma_says(v, b);
}

/// `limit` sets the result limit, and nothing else; the last one counts.
#[verifier::spinoff_prover]
pub proof fn lemma_limit_sets_itself(t: Seq<char>, v: Seq<char>, home: Seq<char>, n: nat)
    requires
        clean(v),
        text::number(v) == Some(n),
        n <= usize::MAX,
        config::config_text(t, home) is Ok,
    ensures
        config::config_text(also(t, "limit"@, v), home) == Ok::<ConfigView, Seq<char>>(
            ConfigView { limit: Some(n as usize), ..config::config_text(t, home)->Ok_0 },
        ),
{
    lemma_keys_spelled();
    lemma_keys_are_names();
    let ps = config::settings_of(text::lines_of(t))->Ok_0;
    lemma_line_added(t, "limit"@, v);
    lemma_value_added(ps, "limit"@, v);
}

/// `max_size` sets the largest download, and nothing else.
#[verifier::spinoff_prover]
pub proof fn lemma_max_size_sets_itself(t: Seq<char>, v: Seq<char>, home: Seq<char>)
    requires
        clean(v),
        model::size_of_text(v) is Some,
        model::size_of_text(v)->0 <= u64::MAX,
        config::config_text(t, home) is Ok,
    ensures
        config::config_text(also(t, "max_size"@, v), home) == Ok::<ConfigView, Seq<char>>(
            ConfigView { max_size: Some(model::size_of_text(v)->0 as u64), ..config::config_text(t, home)->Ok_0 },
        ),
{
    lemma_keys_spelled();
    lemma_keys_are_names();
    let ps = config::settings_of(text::lines_of(t))->Ok_0;
    lemma_line_added(t, "max_size"@, v);
    lemma_value_added(ps, "max_size"@, v);
}

/// `download_dir` sets where downloads go, and nothing else.
#[verifier::spinoff_prover]
pub proof fn lemma_download_dir_sets_itself(t: Seq<char>, v: Seq<char>, home: Seq<char>)
    requires
        clean(v),
        config::config_text(t, home) is Ok,
    ensures
        config::config_text(also(t, "download_dir"@, v), home) == Ok::<ConfigView, Seq<char>>(
            ConfigView { download_dir: Some(config::expanded(v, home)), ..config::config_text(t, home)->Ok_0 },
        ),
{
    lemma_keys_spelled();
    lemma_keys_are_names();
    let ps = config::settings_of(text::lines_of(t))->Ok_0;
    lemma_line_added(t, "download_dir"@, v);
    lemma_value_added(ps, "download_dir"@, v);
}

/// `viewer` sets what books are opened with, and nothing else.
#[verifier::spinoff_prover]
pub proof fn lemma_viewer_sets_the_reader(t: Seq<char>, v: Seq<char>, home: Seq<char>)
    requires
        clean(v),
        config::config_text(t, home) is Ok,
    ensures
        config::config_text(also(t, "viewer"@, v), home) == Ok::<ConfigView, Seq<char>>(
            ConfigView { reader: Some(v), ..config::config_text(t, home)->Ok_0 },
        ),
{
    lemma_keys_spelled();
    lemma_keys_are_names();
    let ps = config::settings_of(text::lines_of(t))->Ok_0;
    lemma_line_added(t, "viewer"@, v);
    lemma_value_added(ps, "viewer"@, v);
    text::lemma_trimmed_is(v, 0, v.len() as int);
    assert(v.subrange(0, v.len() as int) =~= v);
}

/// `reader` sets what books are opened with.
#[verifier::spinoff_prover]
pub proof fn lemma_reader_sets_itself(v: Seq<char>, home: Seq<char>)
    requires
        clean(v),
    ensures
        config::config_text(also(seq![], "reader"@, v), home) == Ok::<ConfigView, Seq<char>>(
            ConfigView { reader: Some(v), ..nothing_set() },
        ),
{
    lemma_keys_spelled();
    lemma_keys_are_names();
    let t = Seq::<char>::empty();
    assert(text::lines_of(t) =~= seq![]);
    let ps = config::settings_of(text::lines_of(t))->Ok_0;
    lemma_line_added(t, "reader"@, v);
    lemma_value_added(ps, "reader"@, v);
    text::lemma_trimmed_is(v, 0, v.len() as int);
    assert(v.subrange(0, v.len() as int) =~= v);
}

/// `mirrors` adds to the mirrors that are tried first, and sets nothing else.
#[verifier::spinoff_prover]
pub proof fn lemma_mirrors_add_up(t: Seq<char>, v: Seq<char>, home: Seq<char>)
    requires
        clean(v),
        config::config_text(t, home) is Ok,
    ensures
        config::config_text(also(t, "mirrors"@, v), home) == Ok::<ConfigView, Seq<char>>(
            ConfigView { mirrors: config::config_text(t, home)->Ok_0.mirrors + text::list_items(v), ..config::config_text(t, home)->Ok_0 },
        ),
{
    lemma_keys_spelled();
    lemma_keys_are_names();
    let ps = config::settings_of(text::lines_of(t))->Ok_0;
    lemma_line_added(t, "mirrors"@, v);
    lemma_value_added(ps, "mirrors"@, v);
    let before = config::values_of(ps, "mirrors"@);
    assert(before.push(v).drop_last() =~= before);
    assert(config::items_of(config::values_of(ps, "mirror"@)) + (config::items_of(before)
        + text::list_items(v)) =~= config::items_of(config::values_of(ps, "mirror"@))
        + config::items_of(before) + text::list_items(v));
}

/// `mirror` is another name for `mirrors`.
#[verifier::spinoff_prover]
pub proof fn lemma_mirror_is_a_mirror(v: Seq<char>, home: Seq<char>)
    requires
        clean(v),
    ensures
        config::config_text(also(seq![], "mirror"@, v), home) == Ok::<ConfigView, Seq<char>>(
            ConfigView { mirrors: text::list_items(v), ..nothing_set() },
        ),
{
    lemma_keys_spelled();
    lemma_keys_are_names();
    let t = Seq::<char>::empty();
    assert(text::lines_of(t) =~= seq![]);
    let ps = config::settings_of(text::lines_of(t))->Ok_0;
    lemma_line_added(t, "mirror"@, v);
    lemma_value_added(ps, "mirror"@, v);
    reveal_with_fuel(config::items_of, 2);
    let none = Seq::<Seq<char>>::empty();
    assert(config::values_of(ps, "mirror"@) =~= none);
    assert(none.push(v).drop_last() =~= none);
    assert(none + text::list_items(v) + none =~= text::list_items(v));
}

/// `topics` sets the collections that are searched, and nothing else.
#[verifier::spinoff_prover]
pub proof fn lemma_topics_sets_itself(t: Seq<char>, v: Seq<char>, home: Seq<char>, t2: Topic)
    requires
        clean(v),
        text::list_items(v) == seq![v],
        model::topic_named(v) == Some(t2),
        config::config_text(t, home) is Ok,
    ensures
        config::config_text(also(t, "topics"@, v), home) == Ok::<ConfigView, Seq<char>>(
            ConfigView { topics: Some(seq![t2]), ..config::config_text(t, home)->Ok_0 },
        ),
{
    lemma_keys_spelled();
    lemma_keys_are_names();
    let ps = config::settings_of(text::lines_of(t))->Ok_0;
    lemma_line_added(t, "topics"@, v);
    lemma_value_added(ps, "topics"@, v);
    reveal_with_fuel(model::topics_named, 2);
    reveal_with_fuel(model::first_unknown_topic, 2);
    assert(seq![v].drop_last() =~= seq![]);
    assert(Seq::<Topic>::empty().push(t2) =~= seq![t2]);
}

/// A comment, or a blank line, says nothing; and a file that says nothing sets
/// nothing.
pub proof fn lemma_an_empty_file_sets_nothing(home: Seq<char>)
    ensures
        config::config_text(seq![], home) == Ok::<ConfigView, Seq<char>>(nothing_set()),
{
    assert(text::lines_of(seq![]) =~= seq![]);
    let none = Seq::<Seq<char>>::empty();
    assert(none + none =~= none);
}

/// A leading `~` stands for home; any other directory is meant as it stands.
pub proof fn lemma_a_tilde_is_home(p: Seq<char>, home: Seq<char>)
    requires
        p.len() > 0,
        !text::is_white(p[0]),
        !text::is_white(p.last()),
    ensures
        p[0] != '~' ==> config::expanded(p, home) == p,
        p == seq!['~'] ==> config::expanded(p, home) == home,
        p.len() > 1 && p[0] == '~' && p[1] == '/' ==> config::expanded(p, home)
            == crate::path::joined(home, p.skip(2)),
        p.len() > 1 && p[0] == '~' && p[1] != '/' ==> config::expanded(p, home) == p,
{
    text::lemma_trimmed_is(p, 0, p.len() as int);
    assert(p.subrange(0, p.len() as int) =~= p);
    reveal_strlit("~");
    reveal_strlit("~/");
    assert("~"@ =~= seq!['~']);
    if p.len() > 1 && p[0] == '~' && p[1] == '/' {
        assert(text::has_prefix(p, "~/"@)) by {
            assert(p.subrange(0, 2) =~= "~/"@);
        }
        assert(p.subrange(2, p.len() as int) =~= p.skip(2));
    } else if text::has_prefix(p, "~/"@) {
        assert(p.subrange(0, 2)[0] == '~');
        assert(p.subrange(0, 2)[1] == '/');
    }
}

} // verus!
