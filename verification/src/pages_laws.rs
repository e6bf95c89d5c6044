//! What holds of what the commands say, and of the pictures on the screen.

use vstd::prelude::*;

use crate::args;
use crate::commands;
use crate::commands::{Findings, Settings};
use crate::config::Env;
use crate::cover;
use crate::cover::CoverView;
use crate::graphics;
use crate::graphics::Protocol;
use crate::history;
use crate::history::{Disk, Entry, Outcome};
use crate::jpeg;
use crate::jpeg::Bits;
use crate::model;
use crate::model::Book;
use crate::path;
use crate::screen::Rect;
use crate::term;
use crate::term::Style;
use crate::text;
use crate::tui;
use crate::tui::{AppView, SlotView};
use crate::view;

verus! {

/// Whether one text stands somewhere in another.
#[verifier::opaque]
pub open spec fn says(whole: Seq<char>, part: Seq<char>) -> bool {
    exists|a: Seq<char>, b: Seq<char>| whole == #[trigger] (a + part + b)
}

/// A text says what it ends with.
pub proof fn lemma_says_at_the_end(a: Seq<char>, part: Seq<char>)
    ensures
        says(a + part, part),
{
    reveal(says);
    let none = Seq::<char>::empty();
    assert(a + part =~= a + part + none);
}

/// What stands behind a text says what it said.
pub proof fn lemma_says_behind(before: Seq<char>, whole: Seq<char>, part: Seq<char>)
    requires
        says(whole, part),
    ensures
        says(before + whole, part),
{
    reveal(says);
    let (a, b) = choose|a: Seq<char>, b: Seq<char>| whole == #[trigger] (a + part + b);
    assert(before + whole =~= (before + a) + part + b);
}

/// A text that goes on says what it said.
pub proof fn lemma_says_more(whole: Seq<char>, part: Seq<char>, more: Seq<char>)
    requires
        says(whole, part),
    ensures
        says(whole + more, part),
{
    reveal(says);
    let (a, b) = choose|a: Seq<char>, b: Seq<char>| whole == #[trigger] (a + part + b);
    assert(whole + more =~= a + part + (b + more));
}

// ---------------------------------------------------------------------------
// The doctor
// ---------------------------------------------------------------------------

/// A row of what the doctor says: a name, and what goes with it.
pub open spec fn row(label: Seq<char>, value: Seq<char>, style: Style) -> Seq<char> {
    "  "@ + style.dim_text(term::padded(label, 16)) + "  "@ + value + "\n"@
}

/// What the doctor says: under each name what was set or found, and of what was
/// found to be wrong that it is.
#[verifier::spinoff_prover]
pub proof fn lemma_what_the_doctor_says(s: Settings, f: Findings, env: Env, style: Style)
    ensures
        says(
            commands::doctor_rows(s, f, env, style),
            row(
                "version"@,
                args::VERSION@,
                style,
            ),
        ),
        says(
            commands::doctor_rows(s, f, env, style),
            row(
                "config"@,
                (if f.config_exists {
                env.config_path_text()
            } else {
                env.config_path_text() + " "@ + style.dim_text("(none yet)"@)
            }),
                style,
            ),
        ),
        says(
            commands::doctor_rows(s, f, env, style),
            row(
                "cache"@,
                path::joined(env.cache_path_text(), "mirrors.tsv"@),
                style,
            ),
        ),
        says(
            commands::doctor_rows(s, f, env, style),
            row(
                "downloads"@,
                s.dest_dir@,
                style,
            ),
        ),
        says(
            commands::doctor_rows(s, f, env, style),
            row(
                "writable"@,
                (if f.writable {
                style.green_text("yes"@)
            } else {
                style.red_text("no — downloads will fail"@)
            }),
                style,
            ),
        ),
        says(
            commands::doctor_rows(s, f, env, style),
            row(
                "history"@,
                (if s.history {
                path::joined(env.data_path_text(), "history.tsv"@) + " "@ + style.dim_text(
                    "("@ + text::decimal(f.recorded as nat) + " entries)"@,
                )
            } else {
                style.yellow_text("off"@)
            }),
                style,
            ),
        ),
        says(
            commands::doctor_rows(s, f, env, style),
            row(
                "reader"@,
                (match s.reader {
                Some(app) => app@,
                None => style.dim_text("system default"@),
            }),
                style,
            ),
        ),
        says(
            commands::doctor_rows(s, f, env, style),
            row(
                "max size"@,
                model::bytes_text(s.max_bytes as nat),
                style,
            ),
        ),
        says(
            commands::doctor_rows(s, f, env, style),
            row(
                "verify md5"@,
                (if s.verify {
                style.green_text("on"@)
            } else {
                style.red_text("off — not recommended"@)
            }),
                style,
            ),
        ),
        says(
            commands::doctor_rows(s, f, env, style),
            row(
                "cleartext http"@,
                (if s.policy.allow_http {
                style.yellow_text("allowed"@)
            } else {
                style.green_text("refused"@)
            }),
                style,
            ),
        ),
        says(
            commands::doctor_rows(s, f, env, style),
            row(
                "private hosts"@,
                (if s.policy.allow_private_hosts {
                style.yellow_text("allowed"@)
            } else {
                style.green_text("refused"@)
            }),
                style,
            ),
        ),
        !s.covers ==> says(
            commands::doctor_rows(s, f, env, style),
            row("cover art"@, style.dim_text("off"@), style),
        ),
        s.covers && f.protocol == Protocol::Kitty ==> says(
            commands::doctor_rows(s, f, env, style),
            row("cover art"@, style.green_text("on"@) + " (kitty graphics)"@, style),
        ),
        s.covers && f.protocol == Protocol::Nothing ==> says(
            commands::doctor_rows(s, f, env, style),
            row("cover art"@, style.yellow_text("no colour support in this terminal"@), style),
        ),
{
    let p0 = "\n  "@ + style.bold_text("tomesole doctor"@) + "\n\n"@;
    let r1 = commands::doctor_row("version"@, args::VERSION@, style);
    let p1 = p0 + r1;
    let r2 = commands::doctor_row("config"@, commands::config_value(env, f.config_exists, style), style);
    let p2 = p1 + r2;
    let r3 = commands::doctor_row("cache"@, path::joined(env.cache_path_text(), "mirrors.tsv"@), style);
    let p3 = p2 + r3;
    let r4 = commands::doctor_row("downloads"@, s.dest_dir@, style);
    let p4 = p3 + r4;
    let r5 = commands::doctor_row("writable"@, commands::writable_value(f.writable, style), style);
    let p5 = p4 + r5;
    let r6 = commands::doctor_row("history"@, commands::history_value(env, s.history, f.recorded as nat, style), style);
    let p6 = p5 + r6;
    let r7 = commands::doctor_row("reader"@, commands::reader_value(s.reader.deep_view(), style), style);
    let p7 = p6 + r7;
    let r8 = commands::doctor_row("cover art"@, commands::art_value(s.covers, f.protocol, style), style);
    let p8 = p7 + r8;
    let r9 = commands::covers_row(f.covers as nat, f.cover_bytes as nat, style);
    let p9 = p8 + r9;
    let r10 = commands::doctor_row("max size"@, model::bytes_text(s.max_bytes as nat), style);
    let p10 = p9 + r10;
    let r11 = commands::doctor_row("verify md5"@, commands::verify_value(s.verify, style), style);
    let p11 = p10 + r11;
    let r12 = commands::doctor_row("cleartext http"@, commands::allowed_value(s.policy.allow_http, style), style);
    let p12 = p11 + r12;
    let r13 = commands::doctor_row("private hosts"@, commands::allowed_value(s.policy.allow_private_hosts, style), style);
    let p13 = p12 + r13;
    let q1 = p13 + "\n  "@;
    let q2 = q1 + style.bold_text("mirrors"@);
    let q3 = q2 + "\n\n"@;
    lemma_says_at_the_end(p0, r1);
    lemma_says_more(p1, r1, r2);
    lemma_says_more(p2, r1, r3);
    lemma_says_more(p3, r1, r4);
    lemma_says_more(p4, r1, r5);
    lemma_says_more(p5, r1, r6);
    lemma_says_more(p6, r1, r7);
    lemma_says_more(p7, r1, r8);
    lemma_says_more(p8, r1, r9);
    lemma_says_more(p9, r1, r10);
    lemma_says_more(p10, r1, r11);
    lemma_says_more(p11, r1, r12);
    lemma_says_more(p12, r1, r13);
    lemma_says_more(p13, r1, "\n  "@);
    lemma_says_more(q1, r1, style.bold_text("mirrors"@));
    lemma_says_more(q2, r1, "\n\n"@);
    lemma_says_at_the_end(p1, r2);
    lemma_says_more(p2, r2, r3);
    lemma_says_more(p3, r2, r4);
    lemma_says_more(p4, r2, r5);
    lemma_says_more(p5, r2, r6);
    lemma_says_more(p6, r2, r7);
    lemma_says_more(p7, r2, r8);
    lemma_says_more(p8, r2, r9);
    lemma_says_more(p9, r2, r10);
    lemma_says_more(p10, r2, r11);
    lemma_says_more(p11, r2, r12);
    lemma_says_more(p12, r2, r13);
    lemma_says_more(p13, r2, "\n  "@);
    lemma_says_more(q1, r2, style.bold_text("mirrors"@));
    lemma_says_more(q2, r2, "\n\n"@);
    lemma_says_at_the_end(p2, r3);
    lemma_says_more(p3, r3, r4);
    lemma_says_more(p4, r3, r5);
    lemma_says_more(p5, r3, r6);
    lemma_says_more(p6, r3, r7);
    lemma_says_more(p7, r3, r8);
    lemma_says_more(p8, r3, r9);
    lemma_says_more(p9, r3, r10);
    lemma_says_more(p10, r3, r11);
    lemma_says_more(p11, r3, r12);
    lemma_says_more(p12, r3, r13);
    lemma_says_more(p13, r3, "\n  "@);
    lemma_says_more(q1, r3, style.bold_text("mirrors"@));
    lemma_says_more(q2, r3, "\n\n"@);
    lemma_says_at_the_end(p3, r4);
    lemma_says_more(p4, r4, r5);
    lemma_says_more(p5, r4, r6);
    lemma_says_more(p6, r4, r7);
    lemma_says_more(p7, r4, r8);
    lemma_says_more(p8, r4, r9);
    lemma_says_more(p9, r4, r10);
    lemma_says_more(p10, r4, r11);
    lemma_says_more(p11, r4, r12);
    lemma_says_more(p12, r4, r13);
    lemma_says_more(p13, r4, "\n  "@);
    lemma_says_more(q1, r4, style.bold_text("mirrors"@));
    lemma_says_more(q2, r4, "\n\n"@);
    lemma_says_at_the_end(p4, r5);
    lemma_says_more(p5, r5, r6);
    lemma_says_more(p6, r5, r7);
    lemma_says_more(p7, r5, r8);
    lemma_says_more(p8, r5, r9);
    lemma_says_more(p9, r5, r10);
    lemma_says_more(p10, r5, r11);
    lemma_says_more(p11, r5, r12);
    lemma_says_more(p12, r5, r13);
    lemma_says_more(p13, r5, "\n  "@);
    lemma_says_more(q1, r5, style.bold_text("mirrors"@));
    lemma_says_more(q2, r5, "\n\n"@);
    lemma_says_at_the_end(p5, r6);
    lemma_says_more(p6, r6, r7);
    lemma_says_more(p7, r6, r8);
    lemma_says_more(p8, r6, r9);
    lemma_says_more(p9, r6, r10);
    lemma_says_more(p10, r6, r11);
    lemma_says_more(p11, r6, r12);
    lemma_says_more(p12, r6, r13);
    lemma_says_more(p13, r6, "\n  "@);
    lemma_says_more(q1, r6, style.bold_text("mirrors"@));
    lemma_says_more(q2, r6, "\n\n"@);
    lemma_says_at_the_end(p6, r7);
    lemma_says_more(p7, r7, r8);
    lemma_says_more(p8, r7, r9);
    lemma_says_more(p9, r7, r10);
    lemma_says_more(p10, r7, r11);
    lemma_says_more(p11, r7, r12);
    lemma_says_more(p12, r7, r13);
    lemma_says_more(p13, r7, "\n  "@);
    lemma_says_more(q1, r7, style.bold_text("mirrors"@));
    lemma_says_more(q2, r7, "\n\n"@);
    lemma_says_at_the_end(p7, r8);
    lemma_says_more(p8, r8, r9);
    lemma_says_more(p9, r8, r10);
    lemma_says_more(p10, r8, r11);
    lemma_says_more(p11, r8, r12);
    lemma_says_more(p12, r8, r13);
    lemma_says_more(p13, r8, "\n  "@);
    lemma_says_more(q1, r8, style.bold_text("mirrors"@));
    lemma_says_more(q2, r8, "\n\n"@);
    lemma_says_at_the_end(p9, r10);
    lemma_says_more(p10, r10, r11);
    lemma_says_more(p11, r10, r12);
    lemma_says_more(p12, r10, r13);
    lemma_says_more(p13, r10, "\n  "@);
    lemma_says_more(q1, r10, style.bold_text("mirrors"@));
    lemma_says_more(q2, r10, "\n\n"@);
    lemma_says_at_the_end(p10, r11);
    lemma_says_more(p11, r11, r12);
    lemma_says_more(p12, r11, r13);
    lemma_says_more(p13, r11, "\n  "@);
    lemma_says_more(q1, r11, style.bold_text("mirrors"@));
    lemma_says_more(q2, r11, "\n\n"@);
    lemma_says_at_the_end(p11, r12);
    lemma_says_more(p12, r12, r13);
    lemma_says_more(p13, r12, "\n  "@);
    lemma_says_more(q1, r12, style.bold_text("mirrors"@));
    lemma_says_more(q2, r12, "\n\n"@);
    lemma_says_at_the_end(p12, r13);
    lemma_says_more(p13, r13, "\n  "@);
    lemma_says_more(q1, r13, style.bold_text("mirrors"@));
    lemma_says_more(q2, r13, "\n\n"@);
}

// ---------------------------------------------------------------------------
// Downloads
// ---------------------------------------------------------------------------

/// A download that ended is reported by the name of its file, where it is, how
/// large it is, and whether it was verified; one that was there already says so.
pub proof fn lemma_a_download_is_reported(
    outcome: Outcome,
    size: Option<u64>,
    dest_dir: Seq<char>,
    verify: bool,
    name: Seq<char>,
    folder: Seq<char>,
)
    requires
        path::name_of(outcome.path@) == Some(name),
        path::parent_of(outcome.path@) == Some(folder),
    ensures
        ({
            let plain = Style { enabled: false };
            let said = commands::report_text(outcome, size, dest_dir, verify, plain);
            let bytes = if outcome.bytes > 0 {
                outcome.bytes as nat
            } else if size is Some {
                size->0 as nat
            } else {
                0
            };
            &&& outcome.skipped ==> said == "  "@ + "•"@ + " "@ + name + "\n    "@
                + "already downloaded — pass --force to replace it"@ + "\n\n"@
            &&& !outcome.skipped && outcome.verified ==> said == "  "@ + "✓"@ + " "@ + name
                + "\n    "@ + folder + " · "@ + model::bytes_text(bytes) + " · "@ + "MD5 verified"@
                + "\n\n"@
            &&& !outcome.skipped && !outcome.verified && verify ==> said == "  "@ + "✓"@ + " "@
                + name + "\n    "@ + folder + " · "@ + model::bytes_text(bytes) + " · "@
                + "no MD5 on record — unverified"@ + "\n\n"@
            &&& !outcome.skipped && !outcome.verified && !verify ==> said == "  "@ + "✓"@ + " "@
                + name + "\n    "@ + folder + " · "@ + model::bytes_text(bytes) + " · "@
                + "verification skipped"@ + "\n\n"@
        }),
{
}

/// A list that is limited is its beginning.
pub proof fn lemma_a_limit_keeps_the_beginning(es: Seq<Entry>, n: usize)
    ensures
        n < es.len() ==> commands::limited(es, Some(n)) == es.take(n as int),
        n >= es.len() ==> commands::limited(es, Some(n)) == es,
        commands::limited(es, None) == es,
{
}

/// Downloads that are gone are those whose file is no longer there.
pub proof fn lemma_what_is_gone(es: Seq<Entry>, e: Entry, disk: Disk)
    ensures
        commands::gone_count(seq![], disk) == 0,
        disk.holds(e.path@) ==> commands::gone_count(es.push(e), disk) == commands::gone_count(
            es,
            disk,
        ),
        !disk.holds(e.path@) ==> commands::gone_count(es.push(e), disk) == commands::gone_count(
            es,
            disk,
        ) + 1,
{
    assert(es.push(e).drop_last() =~= es);
}

/// A list of paths is one to a line, in order.
pub proof fn lemma_paths_by_line(es: Seq<Entry>, e: Entry)
    ensures
        commands::path_lines(es.push(e)) == commands::path_lines(es) + e.path@ + "\n"@,
        commands::path_lines(seq![]) == Seq::<char>::empty(),
{
    assert(es.push(e).drop_last() =~= es);
}

// ---------------------------------------------------------------------------
// Times
// ---------------------------------------------------------------------------

/// How long ago a download was, in the unit that suits it.
pub proof fn lemma_how_long_ago(at: nat, n: nat, rest: nat)
    requires
        at > 0,
    ensures
        rest <= 90 ==> history::when_text(at, at + rest) == "just now"@,
        history::when_text(at + rest, at) == "just now"@,
        2 <= n < 90 && rest < 60 ==> history::when_text(at, at + 60 * n + rest) == text::decimal(
            n,
        ) + " min ago"@,
        2 <= n < 24 && rest < 3600 ==> history::when_text(at, at + 3600 * n + rest)
            == text::decimal(n) + "h ago"@,
        rest < 86400 ==> history::when_text(at, at + 86400 + rest) == "yesterday"@,
        2 <= n < 7 && rest < 86400 ==> history::when_text(at, at + 86400 * n + rest)
            == text::decimal(n) + "d ago"@,
        7 <= n ==> history::when_text(at, at + 86400 * n + rest) == history::date_text(at),
        history::when_text(0, at) == Seq::<char>::empty(),
{
}

proof fn lemma_parts_of_a_day(day: nat, h: nat, m: nat, s: nat)
    requires
        h < 24,
        m < 60,
        s < 60,
    ensures
        ({
            let at = 86400 * day + 3600 * h + 60 * m + s;
            &&& at / 86400 == day
            &&& (at % 86400) / 3600 == h
            &&& ((at % 86400) % 3600) / 60 == m
            &&& (86400 * day) / 86400 == day
        }),
{
    let at = 86400 * day + 3600 * h + 60 * m + s;
    let rest = 3600 * h + 60 * m + s;
    assert(at == 86400 * day + rest && rest < 86400);
    assert(at / 86400 == day && at % 86400 == rest);
}

/// Two times of one day have one date.
pub proof fn lemma_a_day_has_one_date(a: nat, b: nat)
    requires
        a / 86400 == b / 86400,
    ensures
        history::date_text(a) == history::date_text(b),
{
    assert(a as int / 86400 == b as int / 86400);
}

/// A time is the date of its day, the hour and the minute.
#[verifier::spinoff_prover]
pub proof fn lemma_a_time_of_day(day: nat, h: nat, m: nat, s: nat)
    requires
        h < 24,
        m < 60,
        s < 60,
    ensures
        history::timestamp_text(86400 * day + 3600 * h + 60 * m + s) == history::date_text(
            86400 * day,
        ) + " "@ + text::zero_padded(h, 2) + ":"@ + text::zero_padded(m, 2),
{
    let at = 86400 * day + 3600 * h + 60 * m + s;
    lemma_parts_of_a_day(day, h, m, s);
    let start = 86400 * day;
    assert(history::date_text(at) == history::date_text(start)) by {
        lemma_a_day_has_one_date(at, start);
    }
}

// ---------------------------------------------------------------------------
// Widths
// ---------------------------------------------------------------------------

/// Letters take one cell, ideographs two, and what combines or controls none.
pub proof fn lemma_widths_of_characters(c: char)
    ensures
        ' ' <= c <= '~' ==> term::cell_width(c) == 1,
        0x4E00 <= c as u32 <= 0x9FFF ==> term::cell_width(c) == 2,
        0xAC00 <= c as u32 <= 0xD7A3 ==> term::cell_width(c) == 2,
        0x3041 <= c as u32 <= 0x33FF ==> term::cell_width(c) == 2,
        0x1F300 <= c as u32 <= 0x1F64F ==> term::cell_width(c) == 2,
        0x0300 <= c as u32 <= 0x036F ==> term::cell_width(c) == 0,
        (c as u32) < 0x20 ==> term::cell_width(c) == 0,
        0x00A1 <= c as u32 <= 0x02FF ==> term::cell_width(c) == 1,
{
}

/// A text that fits stays whole; one that does not is cut at the end, where an
/// ellipsis says so.
pub proof fn lemma_a_cut_text_begins_as_it_did(s: Seq<char>, width: int)
    ensures
        term::cells(s) <= width ==> term::truncated(s, width) == s,
        term::cells(s) > width > 0 ==> {
            let t = term::truncated(s, width);
            &&& t.len() > 0
            &&& t.last() == '…'
            &&& t.drop_last() == s.take(t.len() - 1)
            &&& t.len() - 1 <= s.len()
        },
{
    if term::cells(s) > width && width > 0 {
        term::lemma_fitting_range(s, width - 1);
        let k = term::fitting(s, width - 1, 0, 0);
        let t = s.take(k).push('…');
        assert(t.drop_last() =~= s.take(k));
    }
}

/// Padding goes behind a text, or before it where that is asked for.
pub proof fn lemma_where_padding_goes(s: Seq<char>, width: int)
    requires
        term::cells(s) <= width,
    ensures
        term::padded(s, width).take(s.len() as int) == s,
        forall|i: int|
            s.len() <= i < term::padded(s, width).len() ==> (#[trigger] term::padded(s, width)[i])
                == ' ',
        ({
            let t = term::padded_left(s, width);
            &&& t.skip(t.len() - s.len()) == s
            &&& forall|i: int| 0 <= i < t.len() - s.len() ==> (#[trigger] t[i]) == ' '
        }),
{
    let p = term::padded(s, width);
    let t = term::padded_left(s, width);
    assert(p.take(s.len() as int) =~= s);
    assert(t.skip(t.len() - s.len()) =~= s);
}

// ---------------------------------------------------------------------------
// Links
// ---------------------------------------------------------------------------

proof fn lemma_hex_end(s: Seq<char>, i: int, e: int)
    requires
        0 <= i <= e <= s.len(),
        forall|k: int| i <= k < e ==> text::is_hex(#[trigger] s[k]),
        e == s.len() || !text::is_hex(s[e]),
    ensures
        args::hex_end(s, i) == e,
    decreases e - i,
{
    if i < e {
        assert(text::is_hex(s[i]));
        lemma_hex_end(s, i + 1, e);
    }
}

/// The MD5 in a link is what follows the first `md5=` in it, in lower case.
pub proof fn lemma_the_md5_in_a_link(a: Seq<char>, m: Seq<char>, b: Seq<char>)
    requires
        model::md5_shaped(m),
        b.len() == 0 || !text::is_hex(b[0]),
        text::trimmed(a + "md5="@ + m + b) == a + "md5="@ + m + b,
        text::find_from(a + "md5="@ + m + b, "md5="@, 0) == Some(a.len() as int),
        !model::md5_shaped(a + "md5="@ + m + b),
    ensures
        args::md5_in(a + "md5="@ + m + b) == Some(text::ascii_lower(m)),
{
    reveal_strlit("md5=");
    let s = a + "md5="@ + m + b;
    let from = a.len() + 4;
    let e = from + m.len();
    assert("md5="@.len() == 4);
    assert forall|k: int| from <= k < e implies text::is_hex(#[trigger] s[k]) by {
        assert(s[k] == m[k - from]);
        assert(text::is_hex(m[k - from]));
    }
    if b.len() > 0 {
        assert(s[e as int] == b[0]);
    }
    lemma_hex_end(s, from as int, e as int);
    assert(s.subrange(from as int, e as int) =~= m);
}

// ---------------------------------------------------------------------------
// Covers on the screen
// ---------------------------------------------------------------------------

/// What a terminal keeps of a cover: iTerm2 the file, kitty the file and the
/// pixels, half blocks the pixels, and one that can draw nothing nothing.
pub proof fn lemma_what_a_terminal_keeps_of_a_cover(c: CoverView)
    ensures
        tui::slot_for(Protocol::ITerm2, Some(c)) is Ready,
        tui::slot_for(Protocol::ITerm2, Some(c))->Ready_0.encoded == c.encoded,
        tui::slot_for(Protocol::Kitty, Some(c)) is Ready,
        tui::slot_for(Protocol::Kitty, Some(c))->Ready_0.encoded == c.encoded,
        tui::slot_for(Protocol::Kitty, Some(c))->Ready_0.pixels == cover::pixels_of(c),
        tui::slot_for(Protocol::Blocks, Some(c)) is Ready <==> cover::pixels_of(c) is Some,
        cover::pixels_of(c) is Some ==> tui::slot_for(Protocol::Blocks, Some(c))->Ready_0.pixels
            == cover::pixels_of(c),
        tui::slot_for(Protocol::Nothing, Some(c)) == SlotView::Nothing,
        tui::slot_for(Protocol::Kitty, None) == SlotView::Nothing,
{
}

/// A cover is placed where the frame left room for it, counting rows and columns
/// from one, and in the size of that room; on iTerm2 the file itself is sent.
pub proof fn lemma_a_cover_is_placed_where_there_is_room(a: AppView, md5: Seq<char>, rect: Rect)
    requires
        a.protocol == Protocol::ITerm2,
        a.painted is None,
        a.cover_area == Some(rect),
        a.focus() == Some(md5),
        a.covers.contains_key(md5),
        a.covers[md5] is Ready,
    ensures
        a.escape() == Some(
            "\x1b["@ + text::decimal((rect.y + 1) as nat) + ";"@ + text::decimal(
                (rect.x + 1) as nat,
            ) + "H"@ + graphics::iterm_text(
                a.covers[md5]->Ready_0.encoded,
                rect.width as nat,
                rect.height as nat,
            ),
        ),
        a.painted_now().painted == Some((md5, rect)),
{
    reveal_strlit("\x1b[");
    reveal_strlit("H");
    let all = Seq::<char>::empty() + a.placement(a.covers[md5]->Ready_0, rect);
    assert(all =~= a.placement(a.covers[md5]->Ready_0, rect));
    assert(all.len() > 0);
}

/// A cover that should no longer show is taken off, and nothing is put in its
/// place.
pub proof fn lemma_a_cover_that_is_gone_is_taken_off(a: AppView)
    requires
        a.protocol == Protocol::Kitty,
        a.painted is Some,
        a.cover_area is None,
    ensures
        a.escape() == Some(graphics::kitty_delete_text(tui::COVER_ID as nat)),
        a.painted_now().painted is None,
{
    reveal_strlit("\x1b_Ga=d,d=I,i=");
}

/// On a terminal without pixels nothing is written over the screen.
pub proof fn lemma_no_pixels_no_escapes(a: AppView)
    requires
        a.protocol == Protocol::Blocks || a.protocol == Protocol::Nothing,
    ensures
        a.escape() is None,
{
}

// ---------------------------------------------------------------------------
// Panels
// ---------------------------------------------------------------------------

/// The panel beside the library tells of a download under the name of each fact.
pub proof fn lemma_the_panel_tells_of_a_download(a: AppView, e: Entry, present: bool)
    ensures
        ({
            let l = a.entry_panel_lines(e, present);
            &&& l.len() == 12
            &&& l[0][0].text == e.title@
            &&& l[1][0].text == model::or_empty(e.authors)
            &&& l[3][0].text == term::left_aligned("format"@, 9)
            &&& l[3][1] == view::format_span(e.ext_text())
            &&& l[4][0].text == term::left_aligned("size"@, 9)
            &&& l[4][1].text == model::bytes_text(e.size as nat)
            &&& l[5][0].text == term::left_aligned("added"@, 9)
            &&& l[5][1].text == history::timestamp_text(e.at as nat)
            &&& l[6][0].text == term::left_aligned("checksum"@, 9)
            &&& l[6][1].text == (if e.verified {
                "✓ MD5 verified"@
            } else {
                "unverified"@
            })
            &&& l[9][0].text == e.path@
            &&& a.error is None && present ==> l[11][0].text == "⏎ open"@
            &&& a.error is None && !present ==> l[11][0].text
                == "⚠ the file is no longer there — d to forget it"@
        }),
{
}

/// Whether a list of facts has one under a name.
pub open spec fn tells(l: Seq<Seq<crate::screen::SpanView>>, label: Seq<char>, value: Seq<char>) -> bool {
    exists|i: int|
        0 <= i < l.len() && (#[trigger] l[i]).len() == 2 && l[i][0].text == term::left_aligned(
            label,
            10,
        ) && l[i][1].text == value
}

/// The panel beside the results tells of a book under the name of each fact that is
/// known of it.
#[verifier::spinoff_prover]
pub proof fn lemma_the_panel_tells_of_a_book(b: Book)
    ensures
        model::or_empty(b.publisher).len() > 0 ==> tells(
            view::fact_lines(b),
            "publisher"@,
            model::or_empty(b.publisher),
        ),
        model::or_empty(b.year).len() > 0 ==> tells(
            view::fact_lines(b),
            "year"@,
            model::or_empty(b.year),
        ),
        model::or_empty(b.language).len() > 0 ==> tells(
            view::fact_lines(b),
            "language"@,
            model::or_empty(b.language),
        ),
        model::or_empty(b.pages).len() > 0 && model::or_empty(b.pages) != "0"@ ==> tells(
            view::fact_lines(b),
            "pages"@,
            model::or_empty(b.pages),
        ),
        b.size_text().len() > 0 ==> tells(view::fact_lines(b), "size"@, b.size_text()),
{
    let all = view::fact_lines(b);
    let n1 = if view::told(b.publisher) {
        1int
    } else {
        0
    };
    let n2 = n1 + if view::told(b.year) {
        1int
    } else {
        0
    };
    let n3 = n2 + if view::told(b.language) {
        1int
    } else {
        0
    };
    let n4 = n3 + if view::pages_told(b.pages) {
        1int
    } else {
        0
    };
    if view::told(b.publisher) {
        assert(all[0][0].text == term::left_aligned("publisher"@, 10));
    }
    if view::told(b.year) {
        assert(all[n1][0].text == term::left_aligned("year"@, 10));
    }
    if view::told(b.language) {
        assert(all[n2][0].text == term::left_aligned("language"@, 10));
    }
    if view::pages_told(b.pages) {
        assert(all[n3][0].text == term::left_aligned("pages"@, 10));
    }
    if b.size_text().len() > 0 {
        assert(all[n4][0].text == term::left_aligned("size"@, 10));
    }
}

/// The panel beside the results begins with the title and the authors of the book,
/// and ends with its MD5 and how its download stands.
pub proof fn lemma_the_panel_of_a_book(a: AppView, b: Book, width: u16)
    ensures
        ({
            let l = a.panel_lines(b, width);
            let n = l.len() as int;
            &&& n >= 7
            &&& l[0][0].text == b.title@
            &&& l[1][0].text == b.authors_text()
            &&& l[n - 3][0].text == b.md5@
            &&& a.error is Some ==> l[n - 1][0].text == a.error->0
            &&& a.error is None && !a.jobs.contains_key(b.md5@) ==> l[n - 1][1].text
                == a.settings.dest_dir@
        }),
{
}

// ---------------------------------------------------------------------------
// Restarts
// ---------------------------------------------------------------------------

proof fn lemma_restart_found(data: Seq<u8>, i: int, p: int)
    requires
        0 <= i <= p,
        p + 1 < data.len(),
        data[p] == 0xFF,
        0xD0 <= data[p + 1] <= 0xD7,
        forall|k: int| i <= k < p ==> (#[trigger] data[k]) != 0xFF,
    ensures
        jpeg::restart_at(data, i) == Some(p),
    decreases p - i,
{
    if i < p {
        assert(data[i] != 0xFF);
        lemma_restart_found(data, i + 1, p);
    }
}

/// After a restart marker reading goes on at the byte behind it, from its first
/// bit.
pub proof fn lemma_a_restart_begins_afresh(data: Seq<u8>, s: Bits, p: int)
    requires
        0 <= s.pos <= p,
        p + 1 < data.len(),
        data[p] == 0xFF,
        0xD0 <= data[p + 1] <= 0xD7,
        forall|k: int| s.pos <= k < p ==> (#[trigger] data[k]) != 0xFF,
    ensures
        jpeg::restarted(data, s).pos == p + 2,
        jpeg::restarted(data, s).remaining == 0,
        !jpeg::restarted(data, s).finished,
{
    lemma_restart_found(data, s.pos, p);
}

} // verus!
