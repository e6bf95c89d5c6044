//! What each command decides and says.
//!
//! A command reads something, decides, and prints. What it decides and what it
//! prints is here, as functions of what was read.

use vstd::prelude::*;
use vstd::string::*;

use crate::args;
use crate::args::{Global, Search, VERSION};
use crate::config;
use crate::config::{default_download_dir, Config, Env};
use crate::error::Error;
use crate::graphics::Protocol;
use crate::history;
use crate::history::{select, Disk, Entry, Outcome};
use crate::model;
use crate::model::{human_bytes, Book, SearchQuery, DEFAULT_LIMIT};
use crate::net::NetPolicy;
use crate::path;
use crate::query;
use crate::query::parse;
use crate::term;
use crate::term::{pad, Style};
use crate::text;
use crate::text::{copy_all, copy_opt, dec, join, same, trim};
use crate::ui;
use crate::ui::{
    json_history,
    json_results,
    render_history,
    render_mirror_table,
    render_results,
    MirrorStatus,
};

verus! {

/// Default ceiling on a single download.
pub const DEFAULT_MAX_BYTES: u64 = 4_294_967_296;

/// What a command prints: to the error stream, then to the output, then to the
/// error stream again.
#[derive(Debug, PartialEq, Eq)]
pub struct Page {
    pub before: String,
    pub out: String,
    pub after: String,
}

impl Page {
    pub open spec fn says(self, before: Seq<char>, out: Seq<char>, after: Seq<char>) -> bool {
        &&& self.before@ == before
        &&& self.out@ == out
        &&& self.after@ == after
    }
}

fn aside(before: String) -> (r: Page)
    ensures
        r.says(before@, seq![], seq![]),
{
    let r = Page { before, out: String::new(), after: String::new() };
    assert(r.out@ =~= seq![]);
    assert(r.after@ =~= seq![]);
    r
}

fn output(out: String) -> (r: Page)
    ensures
        r.says(seq![], out@, seq![]),
{
    let r = Page { before: String::new(), out, after: String::new() };
    assert(r.before@ =~= seq![]);
    assert(r.after@ =~= seq![]);
    r
}

// ---------------------------------------------------------------------------
// Settings
// ---------------------------------------------------------------------------

/// Everything the commands need, after merging flags over the config file.
#[derive(Debug)]
pub struct Settings {
    pub policy: NetPolicy,
    pub dest_dir: String,
    pub max_bytes: u64,
    pub verify: bool,
    pub force: bool,
    pub resume: bool,
    pub mirrors: Vec<String>,
    pub refresh_mirrors: bool,
    pub quiet: bool,
    pub json: bool,
    pub output: Option<String>,
    /// Application to open downloaded books with. None means the system default.
    pub reader: Option<String>,
    /// Record what gets downloaded.
    pub history: bool,
    /// Fetch and draw cover art.
    pub covers: bool,
}

/// A flag, or what the config says, or the built-in default.
pub open spec fn settled<T>(flag: Option<T>, configured: Option<T>, default: T) -> T {
    match config::either(flag, configured) {
        Some(v) => v,
        None => default,
    }
}

/// Merge the flags over the config file, and that over the built-in defaults.
pub fn settings(global: &Global, config: &Config, env: &Env, downloads_exist: bool) -> (r: Settings)
    ensures
        r.policy.allow_http == (global.allow_http || config.allow_http),
        r.policy.allow_private_hosts == global.allow_private_hosts,
        r.policy.connect_timeout == 10,
        r.policy.request_timeout == 45,
        r.policy.max_redirects == 8,
        r.dest_dir@ == settled(
            global@.dest_dir,
            config@.download_dir,
            if downloads_exist {
                path::joined(env.home_path(), "Downloads"@)
            } else {
                "."@
            },
        ),
        r.max_bytes == settled(global.max_size, config.max_size, DEFAULT_MAX_BYTES),
        r.verify == settled(global.verify, config.verify, true),
        r.force == global.force,
        r.resume == !global.no_resume,
        text::texts(r.mirrors@) == (if global.mirrors@.len() == 0 {
            config@.mirrors
        } else {
            global@.mirrors
        }),
        r.refresh_mirrors == global.refresh_mirrors,
        r.quiet == global.quiet,
        r.json == global.json,
        r.output.deep_view() == global@.output,
        r.reader.deep_view() == config::either(global@.reader, config@.reader),
        r.history == settled(None, config.history, true),
        r.covers == (!global.no_covers && settled(None, config.covers, true)),
{
    let policy = NetPolicy {
        allow_http: global.allow_http || config.allow_http,
        allow_private_hosts: global.allow_private_hosts,
        connect_timeout: 10,
        request_timeout: 45,
        max_redirects: 8,
    };
    let mirrors = if global.mirrors.len() == 0 {
        copy_all(&config.mirrors)
    } else {
        copy_all(&global.mirrors)
    };
    let dest_dir = match (&global.dest_dir, &config.download_dir) {
        (Some(d), _) => d.clone(),
        (None, Some(d)) => d.clone(),
        (None, None) => default_download_dir(env, downloads_exist),
    };
    let max_bytes = match (global.max_size, config.max_size) {
        (Some(n), _) => n,
        (None, Some(n)) => n,
        (None, None) => DEFAULT_MAX_BYTES,
    };
    let verify = match (global.verify, config.verify) {
        (Some(b), _) => b,
        (None, Some(b)) => b,
        (None, None) => true,
    };
    let reader = if global.reader.is_some() {
        copy_opt(&global.reader)
    } else {
        copy_opt(&config.reader)
    };
    let history = match config.history {
        Some(b) => b,
        None => true,
    };
    let covers = match config.covers {
        Some(b) => b,
        None => true,
    };
    Settings {
        policy,
        dest_dir,
        max_bytes,
        verify,
        force: global.force,
        resume: !global.no_resume,
        mirrors,
        refresh_mirrors: global.refresh_mirrors,
        quiet: global.quiet,
        json: global.json,
        output: copy_opt(&global.output),
        reader,
        history,
        covers: !global.no_covers && covers,
    }
}

// ---------------------------------------------------------------------------
// The mirror pool
// ---------------------------------------------------------------------------

/// A list without one of its members.
pub open spec fn others(pool: Seq<Seq<char>>, used: Seq<char>) -> Seq<Seq<char>>
    decreases pool.len(),
{
    if pool.len() == 0 {
        seq![]
    } else if pool.last() == used {
        others(pool.drop_last(), used)
    } else {
        others(pool.drop_last(), used).push(pool.last())
    }
}

/// Reorder a pool so the mirror that just worked is tried first.
pub fn prefer(pool: &Vec<String>, used: &str) -> (r: Vec<String>)
    ensures
        text::texts(r@) == seq![used@] + others(text::texts(pool@), used@),
{
    broadcast use text::lemma_texts_push;

    let ghost all = text::texts(pool@);
    let mut ordered: Vec<String> = Vec::new();
    ordered.push(used.to_owned());
    let mut i: usize = 0;
    assert(text::texts(ordered@) =~= seq![used@] + others(all.take(0), used@));
    while i < pool.len()
        invariant
            i <= pool@.len(),
            all == text::texts(pool@),
            text::texts(ordered@) == seq![used@] + others(all.take(i as int), used@),
        decreases pool@.len() - i,
    {
        assert(all.take(i + 1).drop_last() =~= all.take(i as int));
        let ghost before = text::texts(ordered@);
        if !same(&pool[i], used) {
            ordered.push(pool[i].clone());
            assert(text::texts(ordered@) =~= before.push(all[i as int]));
        }
        assert(text::texts(ordered@) =~= seq![used@] + others(all.take(i + 1), used@));
        i += 1;
    }
    assert(all.take(all.len() as int) =~= all);
    ordered
}

/// Reordering a pool loses no mirror, and tries the one that worked just once.
pub proof fn lemma_prefer_keeps_the_pool(pool: Seq<Seq<char>>, used: Seq<char>, m: Seq<char>)
    ensures
        pool.contains(m) ==> (seq![used] + others(pool, used)).contains(m),
        !others(pool, used).contains(used),
        others(pool, used).contains(m) ==> pool.contains(m),
    decreases pool.len(),
{
    let w = seq![used] + others(pool, used);
    assert(w[0] == used);
    if pool.len() > 0 {
        let front = pool.drop_last();
        lemma_prefer_keeps_the_pool(front, used, m);
        let rest = others(front, used);
        let all = others(pool, used);
        if pool.contains(m) && m != used {
            let i = choose|i: int| 0 <= i < pool.len() && pool[i] == m;
            if i == pool.len() - 1 {
                assert(all[rest.len() as int] == m);
                assert(w[rest.len() as int + 1] == m);
            } else {
                assert(front[i] == m);
                let k = choose|k: int| 0 <= k < (seq![used] + rest).len() && (seq![used] + rest)[k]
                    == m;
                assert(k > 0);
                assert(w[k] == m);
            }
        }
        if all.contains(used) {
            let k = choose|k: int| 0 <= k < all.len() && all[k] == used;
            if k < rest.len() {
                assert(rest[k] == used);
            }
        }
        if all.contains(m) {
            let k = choose|k: int| 0 <= k < all.len() && all[k] == m;
            if k < rest.len() {
                assert(rest[k] == m);
                let i = choose|i: int| 0 <= i < front.len() && front[i] == m;
                assert(pool[i] == m);
            } else {
                assert(pool[pool.len() - 1] == m);
            }
        }
    }
}

/// A list with the members of another that it does not hold already.
pub open spec fn merged(own: Seq<Seq<char>>, more: Seq<Seq<char>>) -> Seq<Seq<char>>
    decreases more.len(),
{
    if more.len() == 0 {
        own
    } else {
        let before = merged(own, more.drop_last());
        if before.contains(more.last()) {
            before
        } else {
            before.push(more.last())
        }
    }
}

fn listed_in(v: &Vec<String>, s: &str) -> (r: bool)
    ensures
        r == text::texts(v@).contains(s@),
{
    let ghost all = text::texts(v@);
    let mut i: usize = 0;
    while i < v.len()
        invariant
            i <= v@.len(),
            all == text::texts(v@),
            forall|k: int| 0 <= k < i ==> #[trigger] all[k] != s@,
        decreases v@.len() - i,
    {
        if same(&v[i], s) {
            assert(all[i as int] == s@);
            return true;
        }
        i += 1;
    }
    false
}

/// The mirrors to probe: the user's own alongside the built-in ones, so that a
/// configured mirror shows up in the table too.
pub fn candidates(configured: &Vec<String>, seeds: &Vec<String>) -> (r: Vec<String>)
    ensures
        text::texts(r@) == merged(text::texts(configured@), text::texts(seeds@)),
{
    broadcast use text::lemma_texts_push;

    let ghost more = text::texts(seeds@);
    let ghost own = text::texts(configured@);
    let mut out = copy_all(configured);
    let mut i: usize = 0;
    assert(more.take(0) =~= seq![]);
    while i < seeds.len()
        invariant
            i <= seeds@.len(),
            more == text::texts(seeds@),
            text::texts(out@) == merged(own, more.take(i as int)),
        decreases seeds@.len() - i,
    {
        assert(more.take(i + 1).drop_last() =~= more.take(i as int));
        let ghost before = text::texts(out@);
        if !listed_in(&out, &seeds[i]) {
            out.push(seeds[i].clone());
            assert(text::texts(out@) =~= before.push(more[i as int]));
        }
        i += 1;
    }
    assert(more.take(more.len() as int) =~= more);
    out
}

// -- Ranking

/// Where a mirror ranks: healthy ones first, faster ones before slower ones.
pub open spec fn rank_of(m: MirrorStatus) -> int {
    match m.outcome {
        ui::Health::Healthy { latency, results: _ } => latency as int,
        ui::Health::Unhealthy(_) => 0x1_0000_0000_0000_0000,
    }
}

/// A ranking with one more mirror in it, after those that rank alike.
pub open spec fn ranked_in(ms: Seq<MirrorStatus>, m: MirrorStatus) -> Seq<MirrorStatus>
    decreases ms.len(),
{
    if ms.len() == 0 || rank_of(ms.last()) <= rank_of(m) {
        ms.push(m)
    } else {
        ranked_in(ms.drop_last(), m).push(ms.last())
    }
}

/// Mirrors in the order of their ranks; those that rank alike stay in the order
/// they came in.
pub open spec fn ranked(ms: Seq<MirrorStatus>) -> Seq<MirrorStatus>
    decreases ms.len(),
{
    if ms.len() == 0 {
        seq![]
    } else {
        ranked_in(ranked(ms.drop_last()), ms.last())
    }
}

pub open spec fn in_order(ms: Seq<MirrorStatus>) -> bool {
    forall|i: int, j: int| 0 <= i <= j < ms.len() ==> rank_of(ms[i]) <= rank_of(ms[j])
}

proof fn lemma_ranked_in(ms: Seq<MirrorStatus>, m: MirrorStatus)
    requires
        in_order(ms),
    ensures
        in_order(ranked_in(ms, m)),
        ranked_in(ms, m).to_multiset() == ms.to_multiset().insert(m),
        forall|i: int|
            0 <= i < ranked_in(ms, m).len() ==> rank_of(#[trigger] ranked_in(ms, m)[i])
                <= rank_of(m) || (ms.len() > 0 && rank_of(ranked_in(ms, m)[i]) <= rank_of(
                ms.last(),
            )),
    decreases ms.len(),
{
    broadcast use vstd::seq_lib::group_to_multiset_ensures;

    if ms.len() == 0 || rank_of(ms.last()) <= rank_of(m) {
    } else {
        let front = ms.drop_last();
        lemma_ranked_in(front, m);
        let w = ranked_in(front, m);
        let all = ranked_in(ms, m);
        assert(ms =~= front.push(ms.last()));
        assert(front.len() > 0 ==> rank_of(front.last()) <= rank_of(ms.last()));
        assert forall|i: int, j: int| 0 <= i <= j < all.len() implies rank_of(all[i]) <= rank_of(
            all[j],
        ) by {
            if j < w.len() {
                assert(all[i] == w[i] && all[j] == w[j]);
            } else if i < w.len() {
                assert(all[i] == w[i]);
            }
        }
        assert(all.to_multiset() =~= ms.to_multiset().insert(m));
    }
}

/// A ranking is in order, and holds exactly the mirrors that were ranked.
pub proof fn lemma_ranking(ms: Seq<MirrorStatus>)
    ensures
        in_order(ranked(ms)),
        ranked(ms).to_multiset() == ms.to_multiset(),
    decreases ms.len(),
{
    broadcast use vstd::seq_lib::group_to_multiset_ensures;

    if ms.len() > 0 {
        lemma_ranking(ms.drop_last());
        lemma_ranked_in(ranked(ms.drop_last()), ms.last());
        assert(ms =~= ms.drop_last().push(ms.last()));
    } else {
        assert(ranked(ms) =~= ms);
    }
}

/// The mirrors of one rank, in the order of the list.
pub open spec fn alike(ms: Seq<MirrorStatus>, rank: int) -> Seq<MirrorStatus> {
    ms.filter(|s: MirrorStatus| rank_of(s) == rank)
}

proof fn lemma_alike_push(ms: Seq<MirrorStatus>, m: MirrorStatus, rank: int)
    ensures
        alike(ms.push(m), rank) == (if rank_of(m) == rank {
            alike(ms, rank).push(m)
        } else {
            alike(ms, rank)
        }),
{
    reveal(Seq::filter);
    assert(ms.push(m).drop_last() =~= ms);
}

proof fn lemma_alike_placed(ms: Seq<MirrorStatus>, m: MirrorStatus, rank: int)
    ensures
        alike(ranked_in(ms, m), rank) == alike(ms.push(m), rank),
    decreases ms.len(),
{
    if ms.len() > 0 && rank_of(ms.last()) > rank_of(m) {
        let front = ms.drop_last();
        lemma_alike_placed(front, m, rank);
        lemma_alike_push(ranked_in(front, m), ms.last(), rank);
        lemma_alike_push(front, m, rank);
        lemma_alike_push(front, ms.last(), rank);
        lemma_alike_push(ms, m, rank);
        assert(ms =~= front.push(ms.last()));
    }
}

/// Mirrors that rank alike stay in the order they came in.
pub proof fn lemma_ranking_is_stable(ms: Seq<MirrorStatus>, rank: int)
    ensures
        alike(ranked(ms), rank) == alike(ms, rank),
    decreases ms.len(),
{
    if ms.len() > 0 {
        let front = ms.drop_last();
        lemma_ranking_is_stable(front, rank);
        lemma_alike_placed(ranked(front), ms.last(), rank);
        lemma_alike_push(ranked(front), ms.last(), rank);
        lemma_alike_push(front, ms.last(), rank);
        assert(ms =~= front.push(ms.last()));
    } else {
        assert(ranked(ms) =~= ms);
    }
}

fn rank_number(m: &MirrorStatus) -> (r: u128)
    ensures
        r == rank_of(*m),
{
    match &m.outcome {
        ui::Health::Healthy { latency, results: _ } => *latency as u128,
        ui::Health::Unhealthy(_) => 0x1_0000_0000_0000_0000,
    }
}

/// Healthy and fastest at the top, so the table reads as a ranking.
pub fn rank(statuses: Vec<MirrorStatus>) -> (r: Vec<MirrorStatus>)
    ensures
        r@ == ranked(statuses@),
{
    let ghost all = statuses@;
    let mut left = statuses;
    let mut out: Vec<MirrorStatus> = Vec::new();
    let mut turned: Vec<MirrorStatus> = Vec::new();
    // The statuses come off the back, so they are first turned round.
    while left.len() > 0
        invariant
            left@.len() + turned@.len() == all.len(),
            left@ == all.take(left@.len() as int),
            forall|i: int|
                0 <= i < turned@.len() ==> #[trigger] turned@[i] == all[all.len() - 1 - i],
        decreases left@.len(),
    {
        let ghost n = left@.len();
        match left.pop() {
            Some(m) => {
                turned.push(m);
            },
            None => {},
        }
        assert(left@ =~= all.take(n - 1));
    }
    assert(all.take(0) =~= seq![]);
    while turned.len() > 0
        invariant
            turned@.len() <= all.len(),
            forall|i: int|
                0 <= i < turned@.len() ==> #[trigger] turned@[i] == all[all.len() - 1 - i],
            out@ == ranked(all.take(all.len() - turned@.len())),
        decreases turned@.len(),
    {
        let ghost k = all.len() - turned@.len();
        match turned.pop() {
            Some(m) => {
                assert(m == all[k]);
                assert(all.take(k + 1).drop_last() =~= all.take(k));
                place(&mut out, m);
            },
            None => {},
        }
    }
    assert(all.take(all.len() as int) =~= all);
    out
}

proof fn lemma_place(ms: Seq<MirrorStatus>, m: MirrorStatus, k: int)
    requires
        0 <= k <= ms.len(),
        forall|i: int| k <= i < ms.len() ==> rank_of(#[trigger] ms[i]) > rank_of(m),
        k > 0 ==> rank_of(ms[k - 1]) <= rank_of(m),
    ensures
        ranked_in(ms, m) == ms.insert(k, m),
    decreases ms.len(),
{
    if k == ms.len() {
        assert(ms.insert(k, m) =~= ms.push(m));
    } else {
        lemma_place(ms.drop_last(), m, k);
        assert(ms.insert(k, m) =~= ms.drop_last().insert(k, m).push(ms.last()));
    }
}

fn place(v: &mut Vec<MirrorStatus>, m: MirrorStatus)
    ensures
        final(v)@ == ranked_in(old(v)@, m),
{
    let n = rank_number(&m);
    let mut k: usize = v.len();
    while k > 0 && rank_number(&v[k - 1]) > n
        invariant
            k <= v@.len(),
            n == rank_of(m),
            v@ == old(v)@,
            forall|i: int| k <= i < v@.len() ==> rank_of(#[trigger] v@[i]) > n,
        decreases k,
    {
        k -= 1;
    }
    proof {
        lemma_place(v@, m, k as int);
    }
    v.insert(k, m);
}

pub open spec fn healthy_count(ms: Seq<MirrorStatus>) -> nat
    decreases ms.len(),
{
    if ms.len() == 0 {
        0
    } else {
        healthy_count(ms.drop_last()) + (if ms.last().healthy() {
            1nat
        } else {
            0nat
        })
    }
}

fn count_healthy(ms: &Vec<MirrorStatus>) -> (r: usize)
    ensures
        r == healthy_count(ms@),
        r <= ms@.len(),
{
    let mut n: usize = 0;
    let mut i: usize = 0;
    while i < ms.len()
        invariant
            i <= ms@.len(),
            n == healthy_count(ms@.take(i as int)),
            n <= i,
        decreases ms@.len() - i,
    {
        assert(ms@.take(i + 1).drop_last() =~= ms@.take(i as int));
        if ms[i].is_healthy() {
            n += 1;
        }
        i += 1;
    }
    assert(ms@.take(ms@.len() as int) =~= ms@);
    n
}

/// What `mirrors` says of ranked mirrors, and how it exits.
pub fn mirrors_page(statuses: &Vec<MirrorStatus>, style: &Style) -> (r: (Page, i32))
    ensures
        r.0.says(
            "\n"@,
            ui::mirror_table(statuses@, *style),
            "\n  "@ + style.dim_text(
                text::decimal(healthy_count(statuses@)) + " of "@ + text::decimal(
                    statuses@.len(),
                ) + " usable — ranked by search latency"@,
            ) + "\n\n"@,
        ),
        r.1 == (if healthy_count(statuses@) == 0 {
            1int
        } else {
            0int
        }),
{
    let healthy = count_healthy(statuses);
    let mut m = dec(healthy as u64);
    m.append(" of ");
    m.append(&dec(statuses.len() as u64));
    m.append(" usable — ranked by search latency");
    let mut after = "\n  ".to_owned();
    after.append(&style.dim(&m));
    after.append("\n\n");
    let page = Page {
        before: "\n".to_owned(),
        out: render_mirror_table(statuses, style),
        after,
    };
    (
        page,
        if healthy == 0 {
            1
        } else {
            0
        },
    )
}

// ---------------------------------------------------------------------------
// Searching
// ---------------------------------------------------------------------------

/// Whether a query is what the flags, the config and the words of a search ask
/// for. Flags beat the tags among the words, and those the config.
pub open spec fn asks(q: SearchQuery, s: args::SearchView, c: config::ConfigView) -> bool {
    let r = query::read_query(text::joined(s.terms, " "@));
    &&& q.terms@ == text::joined(r.words, " "@)
    &&& q.fields@ == s.fields + r.fields
    &&& q.topics@ == (if s.topics.len() > 0 {
        s.topics
    } else if r.topics.len() > 0 {
        r.topics
    } else {
        match c.topics {
            Some(t) => t,
            None => seq![model::Topic::Libgen, model::Topic::Fiction],
        }
    })
    &&& q.limit == settled(s.limit, c.limit, DEFAULT_LIMIT)
    &&& q.extension.deep_view() == config::either(s.extension, r.extension)
    &&& q.language.deep_view() == config::either(s.language, r.language)
}

pub const NOTHING_TO_SEARCH: &'static str = "there is nothing to search for";

/// The words a search looks for, once its tags are taken out.
pub open spec fn sought(s: args::SearchView) -> Seq<char> {
    text::joined(query::read_query(text::joined(s.terms, " "@)).words, " "@)
}

fn copy_topics(v: &Vec<model::Topic>) -> (r: Vec<model::Topic>)
    ensures
        r@ == v@,
{
    let r = v.clone();
    assert(r@ =~= v@);
    r
}

/// The query that a search makes.
pub fn search_query(search: &Search, config: &Config) -> (r: Result<SearchQuery, Error>)
    ensures
        match r {
            Ok(q) => asks(q, search@, config@) && text::trimmed(sought(search@)).len() > 0,
            Err(e) => text::trimmed(sought(search@)).len() == 0 && e.text@ == NOTHING_TO_SEARCH@,
        },
{
    let mut q = SearchQuery::new(String::new());
    let fields = search.fields.clone();
    assert(fields@ =~= search.fields@);
    q.fields = fields;
    match &config.topics {
        Some(t) => {
            q.topics = copy_topics(t);
        },
        None => {},
    }
    q.limit = match (search.limit, config.limit) {
        (Some(n), _) => n,
        (None, Some(n)) => n,
        (None, None) => DEFAULT_LIMIT,
    };
    q.extension = copy_opt(&search.extension);
    q.language = copy_opt(&search.language);
    // `author:herbert dune` works here as well as in the interface; explicit
    // flags are left alone. A tag replaces the collections of the config, so
    // those of a flag come after it.
    query::apply(&join(&search.terms, " "), &mut q);
    if search.topics.len() > 0 {
        q.topics = copy_topics(&search.topics);
    }
    let words = trim(&q.terms);
    if words.as_str().is_empty() {
        return Err(Error::new(NOTHING_TO_SEARCH.to_owned()));
    }
    Ok(q)
}

pub open spec fn searching_text(terms: Seq<char>) -> Seq<char> {
    "searching for “"@ + terms + "”"@
}

/// What the spinner says while a search runs.
pub fn searching_note(q: &SearchQuery) -> (r: String)
    ensures
        r@ == searching_text(q.terms@),
{
    let mut m = "searching for “".to_owned();
    m.append(&q.terms);
    m.append("”");
    m
}

/// What the spinner says when a mirror fails.
pub fn failed_note(host: &str) -> (r: String)
    ensures
        r@ == host@ + " failed, trying another mirror"@,
{
    let mut m = host.to_owned();
    m.append(" failed, trying another mirror");
    m
}

/// What a search does once its results are in.
#[derive(Debug, PartialEq, Eq)]
pub enum Next {
    /// Stop, with this exit code.
    Exit(i32),
    /// Ask which results to download.
    Ask,
    /// Download these results.
    Download(Vec<usize>),
}

/// Whether filters may be why a search found nothing.
pub open spec fn narrowed(s: args::SearchView, q: SearchQuery) -> bool {
    ||| query::tagged(query::read_query(text::joined(s.terms, " "@)))
    ||| q.extension is Some
    ||| q.language is Some
}

/// What is said of a search that found nothing. One that found plenty and then
/// filtered it all away looks identical to one that found nothing, and the fix
/// is different.
pub open spec fn nothing_found(terms: Seq<char>, narrowed: bool, style: Style) -> Seq<char> {
    "\n  "@ + style.yellow_text("∅"@) + " nothing found for “"@ + terms + "”.\n  "@
        + style.dim_text(
        if narrowed {
            "Try fewer words, or drop the format and language filters."@
        } else {
            "Try fewer words."@
        },
    ) + "\n\n"@
}

pub open spec fn results_heading(count: nat, host: Seq<char>, style: Style) -> Seq<char> {
    "\n  "@ + style.bold_text(text::decimal(count)) + " "@ + (if count == 1 {
        "result from"@
    } else {
        "results from"@
    }) + " "@ + style.dim_text(host) + "\n\n"@
}

/// What a search says of its results, and what it does next. `host` is the host
/// of the mirror they came from.
pub fn search_page(
    books: &Vec<Book>,
    q: &SearchQuery,
    search: &Search,
    settings: &Settings,
    style: &Style,
    width: usize,
    host: &str,
) -> (r: (Page, Next))
    ensures
        ({
            let empty = books@.len() == 0;
            &&& r.0.says(
                if settings.json {
                    seq![]
                } else if empty {
                    nothing_found(q.terms@, narrowed(search@, *q), *style)
                } else if settings.quiet {
                    seq![]
                } else {
                    results_heading(books@.len(), host@, *style)
                },
                if settings.json {
                    ui::results_json(books@)
                } else if empty {
                    seq![]
                } else {
                    ui::results_table(books@, width as int, *style)
                },
                seq![],
            )
            &&& match r.1 {
                Next::Exit(code) => (settings.json || empty || search.no_download) && code == (
                if empty {
                    1int
                } else {
                    0int
                }),
                Next::Download(picks) => !settings.json && !empty && !search.no_download
                    && search.first && picks@ == seq![0usize],
                Next::Ask => !settings.json && !empty && !search.no_download && !search.first,
            }
        }),
{
    if settings.json {
        let code = if books.len() == 0 {
            1
        } else {
            0
        };
        return (output(json_results(books)), Next::Exit(code));
    }
    if books.len() == 0 {
        let tagged = parse(&join(&search.terms, " ")).is_tagged();
        let advice = if tagged || q.extension.is_some() || q.language.is_some() {
            "Try fewer words, or drop the format and language filters."
        } else {
            "Try fewer words."
        };
        let mut m = "\n  ".to_owned();
        m.append(&style.yellow("∅"));
        m.append(" nothing found for “");
        m.append(&q.terms);
        m.append("”.\n  ");
        m.append(&style.dim(advice));
        m.append("\n\n");
        return (aside(m), Next::Exit(1));
    }
    let before = if settings.quiet {
        String::new()
    } else {
        let mut m = "\n  ".to_owned();
        m.append(&style.bold(&dec(books.len() as u64)));
        m.append(" ");
        m.append(
            if books.len() == 1 {
                "result from"
            } else {
                "results from"
            },
        );
        m.append(" ");
        m.append(&style.dim(host));
        m.append("\n\n");
        m
    };
    let page = Page { before, out: render_results(books, width, style), after: String::new() };
    assert(settings.quiet ==> page.before@ =~= seq![]);
    assert(page.after@ =~= seq![]);
    let next = if search.no_download {
        Next::Exit(0)
    } else if search.first {
        let picks: Vec<usize> = vec![0];
        assert(picks@ =~= seq![0usize]);
        Next::Download(picks)
    } else {
        Next::Ask
    };
    (page, next)
}

/// Check a choice of results. Naming an output file only makes sense for a
/// single download.
pub fn check_picks(picks: &Vec<usize>, settings: &Settings) -> (r: Result<(), Error>)
    ensures
        match r {
            Ok(_) => !(picks@.len() > 1 && settings.output is Some),
            Err(e) => picks@.len() > 1 && settings.output is Some && e.text@
                == "--output names a single file, but "@ + text::decimal(picks@.len())
                + " results were selected"@,
        },
{
    if picks.len() > 1 && settings.output.is_some() {
        let mut m = "--output names a single file, but ".to_owned();
        m.append(&dec(picks.len() as u64));
        m.append(" results were selected");
        return Err(Error::new(m));
    }
    Ok(())
}

/// How a run of downloads exits.
pub fn exit_code(failures: usize) -> (r: i32)
    ensures
        r == (if failures > 0 {
            1int
        } else {
            0int
        }),
{
    if failures > 0 {
        1
    } else {
        0
    }
}

// ---------------------------------------------------------------------------
// Downloading
// ---------------------------------------------------------------------------

/// What is said as a download begins.
pub fn starting_text(book: &Book, style: &Style) -> (r: String)
    ensures
        r@ == "  "@ + style.cyan_text("↓"@) + " "@ + style.bold_text(book.title@) + "\n"@,
{
    let mut m = "  ".to_owned();
    m.append(&style.cyan("↓"));
    m.append(" ");
    m.append(&style.bold(&book.title));
    m.append("\n");
    m
}

/// What is said of a file found by its MD5.
pub fn found_text(book: &Book, host: &str, style: &Style) -> (r: String)
    ensures
        r@ == "\n  "@ + style.bold_text(book.title@) + " "@ + style.dim_text("via "@ + host@)
            + "\n\n"@,
{
    let mut via = "via ".to_owned();
    via.append(host);
    let mut m = "\n  ".to_owned();
    m.append(&style.bold(&book.title));
    m.append(" ");
    m.append(&style.dim(&via));
    m.append("\n\n");
    m
}

/// What is said of a download that failed.
pub fn failure_text(e: &Error, style: &Style) -> (r: String)
    ensures
        r@ == "  "@ + style.red_text("✗"@) + " "@ + e.text@ + "\n\n"@,
{
    let mut m = "  ".to_owned();
    m.append(&style.red("✗"));
    m.append(" ");
    m.append(e.message());
    m.append("\n\n");
    m
}

pub open spec fn name_in(p: Seq<char>) -> Seq<char> {
    match path::name_of(p) {
        Some(n) => n,
        None => seq![],
    }
}

pub open spec fn integrity_text(verified: bool, verify: bool, style: Style) -> Seq<char> {
    if verified {
        style.green_text("MD5 verified"@)
    } else if verify {
        style.yellow_text("no MD5 on record — unverified"@)
    } else {
        style.yellow_text("verification skipped"@)
    }
}

/// How large a download was, as far as anyone knows.
pub open spec fn size_known(bytes: u64, on_record: Option<u64>) -> u64 {
    if bytes > 0 {
        bytes
    } else {
        match on_record {
            Some(n) => n,
            None => 0,
        }
    }
}

pub open spec fn report_text(
    outcome: Outcome,
    size: Option<u64>,
    dest_dir: Seq<char>,
    verify: bool,
    style: Style,
) -> Seq<char> {
    if outcome.skipped {
        "  "@ + style.yellow_text("•"@) + " "@ + name_in(outcome.path@) + "\n    "@
            + style.dim_text("already downloaded — pass --force to replace it"@) + "\n\n"@
    } else {
        "  "@ + style.green_text("✓"@) + " "@ + name_in(outcome.path@) + "\n    "@
            + style.dim_text(
            match path::parent_of(outcome.path@) {
                Some(p) => p,
                None => dest_dir,
            },
        ) + " · "@ + style.dim_text(model::bytes_text(size_known(outcome.bytes, size) as nat))
            + " · "@ + integrity_text(outcome.verified, verify, style) + "\n\n"@
    }
}

/// What is said of a download that ended. Quiet mode prints the path and nothing
/// else, so it can be piped.
pub fn report(outcome: &Outcome, book: &Book, settings: &Settings, style: &Style) -> (r: Page)
    ensures
        settings.quiet ==> r.says(seq![], outcome.path@ + "\n"@, seq![]),
        !settings.quiet ==> r.says(
            report_text(
                *outcome,
                book.size_bytes,
                settings.dest_dir@,
                settings.verify,
                *style,
            ),
            seq![],
            seq![],
        ),
{
    if settings.quiet {
        let mut out = outcome.path.clone();
        out.append("\n");
        return output(out);
    }
    let name = match path::file_name(&outcome.path) {
        Some(n) => n,
        None => String::new(),
    };
    assert(name@ =~= name_in(outcome.path@));
    let mut m = "  ".to_owned();
    if outcome.skipped {
        m.append(&style.yellow("•"));
        m.append(" ");
        m.append(&name);
        m.append("\n    ");
        m.append(&style.dim("already downloaded — pass --force to replace it"));
        m.append("\n\n");
        return aside(m);
    }
    let integrity = if outcome.verified {
        style.green("MD5 verified")
    } else if settings.verify {
        style.yellow("no MD5 on record — unverified")
    } else {
        style.yellow("verification skipped")
    };
    let size: u64 = if outcome.bytes > 0 {
        outcome.bytes
    } else {
        match book.size_bytes {
            Some(n) => n,
            None => 0,
        }
    };
    let folder = match path::parent(&outcome.path) {
        Some(p) => p,
        None => settings.dest_dir.clone(),
    };
    m.append(&style.green("✓"));
    m.append(" ");
    m.append(&name);
    m.append("\n    ");
    m.append(&style.dim(&folder));
    m.append(" · ");
    m.append(&style.dim(&human_bytes(size)));
    m.append(" · ");
    m.append(&integrity);
    m.append("\n\n");
    aside(m)
}

// ---------------------------------------------------------------------------
// Past downloads
// ---------------------------------------------------------------------------

/// What is said once the history is forgotten. Which covers were fetched says as
/// much about what someone has been reading as the download list does, so those
/// go too.
pub fn cleared_text(style: &Style) -> (r: String)
    ensures
        r@ == "  "@ + style.green_text("✓"@)
            + " download history and cached covers cleared\n\n"@,
{
    let mut m = "  ".to_owned();
    m.append(&style.green("✓"));
    m.append(" download history and cached covers cleared\n\n");
    m
}

pub open spec fn nothing_yet(recording: bool, style: Style) -> Seq<char> {
    "\n  "@ + style.dim_text("•"@) + " nothing downloaded yet.\n  "@ + style.dim_text(
        if recording {
            "Downloads are recorded here as you make them."@
        } else {
            "Recording is off — set `history = true` in the config to keep a list."@
        },
    ) + "\n\n"@
}

pub open spec fn path_lines(es: Seq<Entry>) -> Seq<char>
    decreases es.len(),
{
    if es.len() == 0 {
        seq![]
    } else {
        path_lines(es.drop_last()) + es.last().path@ + "\n"@
    }
}

/// How many downloads are no longer where they were put.
pub open spec fn gone_count(es: Seq<Entry>, disk: Disk) -> nat
    decreases es.len(),
{
    if es.len() == 0 {
        0
    } else {
        gone_count(es.drop_last(), disk) + (if disk.holds(es.last().path@) {
            0nat
        } else {
            1nat
        })
    }
}

pub open spec fn gone_text(gone: nat, style: Style) -> Seq<char> {
    if gone == 0 {
        seq![]
    } else {
        "\n  "@ + style.red_text("!"@) + " "@ + style.dim_text(
            text::decimal(gone) + " of these "@ + (if gone == 1 {
                "is"@
            } else {
                "are"@
            }) + " no longer where "@ + (if gone == 1 {
                "it was"@
            } else {
                "they were"@
            }) + " downloaded"@,
        ) + "\n"@
    }
}

pub open spec fn history_hint(style: Style) -> Seq<char> {
    "\n  "@ + style.dim_text(
        "`tomesole open 1` to read the newest, `tomesole reveal 1` to show it in the file manager"@,
    ) + "\n\n"@
}

/// The first `limit` of a list.
pub open spec fn limited(es: Seq<Entry>, limit: Option<usize>) -> Seq<Entry> {
    match limit {
        Some(n) if n < es.len() => es.take(n as int),
        _ => es,
    }
}

fn all_paths(es: &Vec<Entry>) -> (r: String)
    ensures
        r@ == path_lines(es@),
{
    let mut out = String::new();
    let mut i: usize = 0;
    assert(out@ =~= path_lines(es@.take(0)));
    while i < es.len()
        invariant
            i <= es@.len(),
            out@ == path_lines(es@.take(i as int)),
        decreases es@.len() - i,
    {
        assert(es@.take(i + 1).drop_last() =~= es@.take(i as int));
        out.append(&es[i].path);
        out.append("\n");
        i += 1;
    }
    assert(es@.take(es@.len() as int) =~= es@);
    out
}

fn count_gone(es: &Vec<Entry>, disk: &Disk) -> (r: usize)
    ensures
        r == gone_count(es@, *disk),
{
    let mut n: usize = 0;
    let mut i: usize = 0;
    while i < es.len()
        invariant
            i <= es@.len(),
            n == gone_count(es@.take(i as int), *disk),
            n <= i,
        decreases es@.len() - i,
    {
        assert(es@.take(i + 1).drop_last() =~= es@.take(i as int));
        if !es[i].present(disk) {
            n += 1;
        }
        i += 1;
    }
    assert(es@.take(es@.len() as int) =~= es@);
    n
}

/// What `history` says, and how it exits.
pub fn history_page(
    entries: Vec<Entry>,
    limit: Option<usize>,
    disk: &Disk,
    now: u64,
    width: usize,
    settings: &Settings,
    style: &Style,
) -> (r: (Page, i32))
    ensures
        ({
            let es = limited(entries@, limit);
            &&& r.0.says(
                if settings.json {
                    seq![]
                } else if es.len() == 0 {
                    nothing_yet(settings.history, *style)
                } else if settings.quiet {
                    seq![]
                } else {
                    "\n"@
                },
                if settings.json {
                    ui::history_json(es, *disk)
                } else if es.len() == 0 {
                    seq![]
                } else if settings.quiet {
                    path_lines(es)
                } else {
                    ui::history_table(es, *disk, now as nat, width as int, *style)
                },
                if settings.json || es.len() == 0 || settings.quiet {
                    seq![]
                } else {
                    gone_text(gone_count(es, *disk), *style) + history_hint(*style)
                },
            )
            &&& r.1 == (if settings.json && es.len() == 0 {
                1int
            } else {
                0int
            })
        }),
{
    let mut es = entries;
    match limit {
        Some(n) => {
            if n < es.len() {
                es.truncate(n);
                assert(es@ =~= entries@.take(n as int));
            }
        },
        None => {},
    }
    if settings.json {
        let code = if es.len() == 0 {
            1
        } else {
            0
        };
        return (output(json_history(&es, disk)), code);
    }
    if es.len() == 0 {
        let mut m = "\n  ".to_owned();
        m.append(&style.dim("•"));
        m.append(" nothing downloaded yet.\n  ");
        m.append(
            &style.dim(
                if settings.history {
                    "Downloads are recorded here as you make them."
                } else {
                    "Recording is off — set `history = true` in the config to keep a list."
                },
            ),
        );
        m.append("\n\n");
        return (aside(m), 0);
    }
    if settings.quiet {
        return (output(all_paths(&es)), 0);
    }
    let gone = count_gone(&es, disk);
    let mut after = String::new();
    if gone > 0 {
        let mut m = dec(gone as u64);
        m.append(" of these ");
        m.append(
            if gone == 1 {
                "is"
            } else {
                "are"
            },
        );
        m.append(" no longer where ");
        m.append(
            if gone == 1 {
                "it was"
            } else {
                "they were"
            },
        );
        m.append(" downloaded");
        let mut line = "\n  ".to_owned();
        line.append(&style.red("!"));
        line.append(" ");
        line.append(&style.dim(&m));
        line.append("\n");
        after = line;
    }
    assert(after@ =~= gone_text(gone as nat, *style));
    let mut hint = "\n  ".to_owned();
    hint.append(
        &style.dim(
            "`tomesole open 1` to read the newest, `tomesole reveal 1` to show it in the file manager",
        ),
    );
    hint.append("\n\n");
    after.append(&hint);
    let page = Page {
        before: "\n".to_owned(),
        out: render_history(&es, disk, now, width, style),
        after,
    };
    (page, 0)
}

pub const NOTHING_TO_OPEN: &'static str = "nothing has been downloaded yet, so there is nothing to open";

/// The past downloads that a selector names.
pub fn open_choice<'a>(es: &'a Vec<Entry>, selector: &str) -> (r: Result<Vec<&'a Entry>, Error>)
    ensures
        es@.len() == 0 ==> r is Err && r->Err_0.text@ == NOTHING_TO_OPEN@,
        es@.len() > 0 ==> match r {
            Ok(v) => match history::selected(es@, selector@) {
                Ok(ix) => v@.len() == ix.len() && forall|k: int|
                    0 <= k < ix.len() ==> *(#[trigger] v@[k]) == es@[ix[k]],
                Err(_) => false,
            },
            Err(e) => history::selected(es@, selector@) == Err::<Seq<int>, Seq<char>>(e.text@),
        },
{
    if es.len() == 0 {
        return Err(Error::new(NOTHING_TO_OPEN.to_owned()));
    }
    select(es, selector)
}

/// What is said when several downloads answer to a name.
pub fn ambiguous_page(
    list: &Vec<Entry>,
    selector: &str,
    disk: &Disk,
    now: u64,
    width: usize,
    style: &Style,
) -> (r: Page)
    ensures
        r.says(
            "\n  "@ + style.bold_text(text::decimal(list@.len()) + " downloads"@) + " match “"@
                + selector@ + "”\n\n"@,
            ui::history_table(list@, *disk, now as nat, width as int, *style),
            seq![],
        ),
{
    let mut count = dec(list.len() as u64);
    count.append(" downloads");
    let mut m = "\n  ".to_owned();
    m.append(&style.bold(&count));
    m.append(" match “");
    m.append(selector);
    m.append("”\n\n");
    let r = Page {
        before: m,
        out: render_history(list, disk, now, width, style),
        after: String::new(),
    };
    assert(r.after@ =~= seq![]);
    r
}

/// What to open a download with: what the command named, or the settings.
pub fn reader_for(with: &Option<String>, settings: &Settings) -> (r: Option<String>)
    ensures
        r.deep_view() == config::either(with.deep_view(), settings.reader.deep_view()),
{
    if with.is_some() {
        copy_opt(with)
    } else {
        copy_opt(&settings.reader)
    }
}

/// What is said of a download that was opened or shown.
pub fn opened_text(entry: &Entry, shown: bool, style: &Style) -> (r: String)
    ensures
        r@ == "\n  "@ + style.green_text("✓"@) + " "@ + (if shown {
            "showing"@
        } else {
            "opening"@
        }) + " "@ + style.bold_text(entry.filename_text()) + "\n    "@ + style.dim_text(entry.path@)
            + "\n\n"@,
{
    let mut m = "\n  ".to_owned();
    m.append(&style.green("✓"));
    m.append(" ");
    m.append(
        if shown {
            "showing"
        } else {
            "opening"
        },
    );
    m.append(" ");
    m.append(&style.bold(&entry.filename()));
    m.append("\n    ");
    m.append(&style.dim(&entry.path));
    m.append("\n\n");
    m
}

// ---------------------------------------------------------------------------
// The config file
// ---------------------------------------------------------------------------

/// What is said once the config template is written, or was not because there is
/// a config already.
pub fn init_text(file: &str, existed: bool, style: &Style) -> (r: String)
    ensures
        r@ == (if existed {
            "  "@ + style.yellow_text("•"@) + " "@ + file@
                + " already exists — leaving it alone\n\n"@
        } else {
            "  "@ + style.green_text("✓"@) + " wrote "@ + file@ + "\n\n"@
        }),
{
    let mut m = "  ".to_owned();
    if existed {
        m.append(&style.yellow("•"));
        m.append(" ");
        m.append(file);
        m.append(" already exists — leaving it alone\n\n");
    } else {
        m.append(&style.green("✓"));
        m.append(" wrote ");
        m.append(file);
        m.append("\n\n");
    }
    m
}

/// What `config` shows of the config file.
pub fn config_page(file: &str, contents: &Option<String>, style: &Style) -> (r: Page)
    ensures
        match contents {
            Some(t) => r.says("  "@ + style.dim_text(file@) + "\n\n"@, t@, seq![]),
            None => r.says(
                "  "@ + style.dim_text("•"@) + " no config yet at "@ + file@ + "\n  "@
                    + style.dim_text("run `tomesole config --init` to create one"@) + "\n\n"@,
                seq![],
                seq![],
            ),
        },
{
    let mut m = "  ".to_owned();
    match contents {
        Some(t) => {
            m.append(&style.dim(file));
            m.append("\n\n");
            let r = Page { before: m, out: t.clone(), after: String::new() };
            assert(r.after@ =~= seq![]);
            r
        },
        None => {
            m.append(&style.dim("•"));
            m.append(" no config yet at ");
            m.append(file);
            m.append("\n  ");
            m.append(&style.dim("run `tomesole config --init` to create one"));
            m.append("\n\n");
            aside(m)
        },
    }
}

// ---------------------------------------------------------------------------
// The doctor
// ---------------------------------------------------------------------------

/// What was found of the setup.
#[derive(Debug)]
pub struct Findings {
    pub config_exists: bool,
    pub writable: bool,
    /// How many downloads are on record.
    pub recorded: usize,
    pub protocol: Protocol,
    /// How many covers are cached, and how large they are together.
    pub covers: usize,
    pub cover_bytes: u64,
}

pub open spec fn doctor_row(label: Seq<char>, value: Seq<char>, style: Style) -> Seq<char> {
    "  "@ + style.dim_text(term::padded(label, 16)) + "  "@ + value + "\n"@
}

fn row(label: &str, value: &str, style: &Style) -> (r: String)
    ensures
        r@ == doctor_row(label@, value@, *style),
{
    let mut m = "  ".to_owned();
    m.append(&style.dim(&pad(label, 16)));
    m.append("  ");
    m.append(value);
    m.append("\n");
    m
}

pub open spec fn config_value(env: Env, exists: bool, style: Style) -> Seq<char> {
    let file = env.config_path_text();
    if exists {
        file
    } else {
        file + " "@ + style.dim_text("(none yet)"@)
    }
}

pub open spec fn writable_value(writable: bool, style: Style) -> Seq<char> {
    if writable {
        style.green_text("yes"@)
    } else {
        style.red_text("no — downloads will fail"@)
    }
}

pub open spec fn history_value(env: Env, on: bool, recorded: nat, style: Style) -> Seq<char> {
    if on {
        path::joined(env.data_path_text(), "history.tsv"@) + " "@ + style.dim_text(
            "("@ + text::decimal(recorded) + " entries)"@,
        )
    } else {
        style.yellow_text("off"@)
    }
}

pub open spec fn reader_value(reader: Option<Seq<char>>, style: Style) -> Seq<char> {
    match reader {
        Some(app) => app,
        None => style.dim_text("system default"@),
    }
}

pub open spec fn art_value(on: bool, protocol: Protocol, style: Style) -> Seq<char> {
    if !on {
        style.dim_text("off"@)
    } else {
        match protocol {
            Protocol::Kitty => style.green_text("on"@) + " (kitty graphics)"@,
            Protocol::ITerm2 => style.green_text("on"@) + " (iTerm2 inline)"@,
            Protocol::Blocks => style.green_text("on"@)
                + " (colour blocks — no image protocol)"@,
            Protocol::Nothing => style.yellow_text("no colour support in this terminal"@),
        }
    }
}

pub open spec fn covers_row(covers: nat, bytes: nat, style: Style) -> Seq<char> {
    if covers > 0 {
        doctor_row(
            "covers cached"@,
            style.dim_text(text::decimal(covers) + " files, "@ + model::bytes_text(bytes)),
            style,
        )
    } else {
        seq![]
    }
}

pub open spec fn verify_value(on: bool, style: Style) -> Seq<char> {
    if on {
        style.green_text("on"@)
    } else {
        style.red_text("off — not recommended"@)
    }
}

pub open spec fn allowed_value(allowed: bool, style: Style) -> Seq<char> {
    if allowed {
        style.yellow_text("allowed"@)
    } else {
        style.green_text("refused"@)
    }
}

/// The first part of what `doctor` says: the setup, row by row.
pub open spec fn doctor_rows(
    s: Settings,
    f: Findings,
    env: Env,
    style: Style,
) -> Seq<char> {
    "\n  "@ + style.bold_text("tomesole doctor"@) + "\n\n"@ + doctor_row(
        "version"@,
        VERSION@,
        style,
    ) + doctor_row("config"@, config_value(env, f.config_exists, style), style) + doctor_row(
        "cache"@,
        path::joined(env.cache_path_text(), "mirrors.tsv"@),
        style,
    ) + doctor_row("downloads"@, s.dest_dir@, style) + doctor_row(
        "writable"@,
        writable_value(f.writable, style),
        style,
    ) + doctor_row(
        "history"@,
        history_value(env, s.history, f.recorded as nat, style),
        style,
    ) + doctor_row("reader"@, reader_value(s.reader.deep_view(), style), style) + doctor_row(
        "cover art"@,
        art_value(s.covers, f.protocol, style),
        style,
    ) + covers_row(f.covers as nat, f.cover_bytes as nat, style) + doctor_row(
        "max size"@,
        model::bytes_text(s.max_bytes as nat),
        style,
    ) + doctor_row("verify md5"@, verify_value(s.verify, style), style) + doctor_row(
        "cleartext http"@,
        allowed_value(s.policy.allow_http, style),
        style,
    ) + doctor_row("private hosts"@, allowed_value(s.policy.allow_private_hosts, style), style)
        + "\n  "@ + style.bold_text("mirrors"@) + "\n\n"@
}

fn say_config(env: &Env, exists: bool, style: &Style) -> (r: String)
    ensures
        r@ == config_value(*env, exists, *style),
{
    let mut m = config::config_path(env);
    if !exists {
        m.append(" ");
        m.append(&style.dim("(none yet)"));
    }
    m
}

fn say_history(env: &Env, on: bool, recorded: usize, style: &Style) -> (r: String)
    ensures
        r@ == history_value(*env, on, recorded as nat, *style),
{
    if !on {
        return style.yellow("off");
    }
    let mut count = "(".to_owned();
    count.append(&dec(recorded as u64));
    count.append(" entries)");
    let mut m = config::history_path(env);
    m.append(" ");
    m.append(&style.dim(&count));
    m
}

fn say_art(on: bool, protocol: Protocol, style: &Style) -> (r: String)
    ensures
        r@ == art_value(on, protocol, *style),
{
    if !on {
        return style.dim("off");
    }
    match protocol {
        Protocol::Nothing => style.yellow("no colour support in this terminal"),
        Protocol::Kitty => {
            let mut m = style.green("on");
            m.append(" (kitty graphics)");
            m
        },
        Protocol::ITerm2 => {
            let mut m = style.green("on");
            m.append(" (iTerm2 inline)");
            m
        },
        Protocol::Blocks => {
            let mut m = style.green("on");
            m.append(" (colour blocks — no image protocol)");
            m
        },
    }
}

fn say_covers(covers: usize, bytes: u64, style: &Style) -> (r: String)
    ensures
        r@ == covers_row(covers as nat, bytes as nat, *style),
{
    if covers == 0 {
        let r = String::new();
        assert(r@ =~= seq![]);
        return r;
    }
    let mut m = dec(covers as u64);
    m.append(" files, ");
    m.append(&human_bytes(bytes));
    row("covers cached", &style.dim(&m), style)
}

/// The first part of what `doctor` says: the setup, row by row.
pub fn doctor_setup(settings: &Settings, found: &Findings, env: &Env, style: &Style) -> (r: String)
    ensures
        r@ == doctor_rows(*settings, *found, *env, *style),
{
    let mut m = "\n  ".to_owned();
    m.append(&style.bold("tomesole doctor"));
    m.append("\n\n");
    m.append(&row("version", VERSION, style));
    m.append(&row("config", &say_config(env, found.config_exists, style), style));
    m.append(&row("cache", &config::mirror_cache_path(env), style));
    m.append(&row("downloads", &settings.dest_dir, style));
    let writable = if found.writable {
        style.green("yes")
    } else {
        style.red("no — downloads will fail")
    };
    m.append(&row("writable", &writable, style));
    m.append(
        &row("history", &say_history(env, settings.history, found.recorded, style), style),
    );
    let reader = match &settings.reader {
        Some(app) => app.clone(),
        None => style.dim("system default"),
    };
    m.append(&row("reader", &reader, style));
    m.append(&row("cover art", &say_art(settings.covers, found.protocol, style), style));
    m.append(&say_covers(found.covers, found.cover_bytes, style));
    m.append(&row("max size", &human_bytes(settings.max_bytes), style));
    let verify = if settings.verify {
        style.green("on")
    } else {
        style.red("off — not recommended")
    };
    m.append(&row("verify md5", &verify, style));
    let http = if settings.policy.allow_http {
        style.yellow("allowed")
    } else {
        style.green("refused")
    };
    m.append(&row("cleartext http", &http, style));
    let private = if settings.policy.allow_private_hosts {
        style.yellow("allowed")
    } else {
        style.green("refused")
    };
    m.append(&row("private hosts", &private, style));
    m.append("\n  ");
    m.append(&style.bold("mirrors"));
    m.append("\n\n");
    m
}

/// The second part of what `doctor` says, of ranked mirrors, and how it exits.
pub fn doctor_mirrors(statuses: &Vec<MirrorStatus>, style: &Style) -> (r: (Page, i32))
    ensures
        r.0.says(
            seq![],
            ui::mirror_table(statuses@, *style),
            if healthy_count(statuses@) == 0 {
                "\n  "@ + style.red_text("✗"@)
                    + " no mirror is reachable. Check your connection, or pass `--mirror <url>` if you know a current one.\n\n"@
            } else {
                "\n  "@ + style.green_text("✓"@) + " "@ + text::decimal(
                    healthy_count(statuses@),
                ) + " mirror(s) usable\n\n"@
            },
        ),
        r.1 == (if healthy_count(statuses@) == 0 {
            1int
        } else {
            0int
        }),
{
    let healthy = count_healthy(statuses);
    let mut after = "\n  ".to_owned();
    let code = if healthy == 0 {
        after.append(&style.red("✗"));
        after.append(
            " no mirror is reachable. Check your connection, or pass `--mirror <url>` if you know a current one.\n\n",
        );
        1
    } else {
        after.append(&style.green("✓"));
        after.append(" ");
        after.append(&dec(healthy as u64));
        after.append(" mirror(s) usable\n\n");
        0
    };
    let page = Page { before: String::new(), out: render_mirror_table(statuses, style), after };
    assert(page.before@ =~= seq![]);
    (page, code)
}

/// Whether downloads can be written to a directory: one that exists and is not
/// read-only, or one that could be created because its parent is. `readonly` and
/// `parent` say what is known of the directory and of the one it stands in.
pub fn is_writable(exists: bool, readonly: bool, parent: Option<(bool, bool)>) -> (r: bool)
    ensures
        r == (if exists {
            !readonly
        } else {
            match parent {
                Some((there, fixed)) => there && !fixed,
                None => false,
            }
        }),
{
    if exists {
        return !readonly;
    }
    match parent {
        Some((there, fixed)) => there && !fixed,
        None => false,
    }
}

/// Whether a word of the command line asks for text without colour.
pub open spec fn asks_for_plain(word: Seq<char>) -> bool {
    word == "--no-color"@ || word == "--no-colour"@ || word == "--plain"@
}

/// Whether a command line asks for text without colour. The error path needs to
/// know before anything is parsed, since parsing is one of the things that can
/// fail.
pub fn wants_plain(argv: &Vec<String>) -> (r: bool)
    ensures
        r == exists|i: int| 0 <= i < argv@.len() && asks_for_plain(#[trigger] argv@[i]@),
{
    let mut i: usize = 0;
    while i < argv.len()
        invariant
            i <= argv@.len(),
            forall|k: int| 0 <= k < i ==> !asks_for_plain(#[trigger] argv@[k]@),
        decreases argv@.len() - i,
    {
        let a = argv[i].as_str();
        if same(a, "--no-color") || same(a, "--no-colour") || same(a, "--plain") {
            assert(asks_for_plain(argv@[i as int]@));
            return true;
        }
        i += 1;
    }
    false
}

/// What is said of a failure that ends the program.
pub fn error_text(e: &Error, style: &Style) -> (r: String)
    ensures
        r@ == "\n  "@ + style.red_text("error:"@) + " "@ + e.text@ + "\n\n"@,
{
    let mut m = "\n  ".to_owned();
    m.append(&style.red("error:"));
    m.append(" ");
    m.append(e.message());
    m.append("\n\n");
    m
}

/// What `--version` says.
pub fn version_text() -> (r: String)
    ensures
        r@ == "tomesole "@ + VERSION@ + "\n"@,
{
    let mut m = "tomesole ".to_owned();
    m.append(VERSION);
    m.append("\n");
    m
}

} // verus!
