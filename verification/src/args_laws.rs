//! What holds of the command line: what each option and each command, written
//! out, asks for.

use vstd::prelude::*;

use crate::args;
use crate::args::{CliView, CommandView, DraftView, Flag, GlobalView, SearchView, Step};
use crate::config;
use crate::model;
use crate::model::{Field, Topic};
use crate::text;

verus! {

// ---------------------------------------------------------------------------
// The names of the options
// ---------------------------------------------------------------------------

/// Whether a text can be an option without a value behind an equals sign.
spec fn dashed(s: Seq<char>) -> bool {
    &&& s.len() > 1
    &&& s[0] == '-'
    &&& s.len() > 2 || s[1] != '-'
    &&& text::free_of(s, '=')
}

#[verifier::spinoff_prover]
proof fn lemma_spelled_a()
    ensures
        "-h"@.len() == 2,
        "-h"@[0] == '-',
        "-h"@[1] == 'h',
        "--help"@.len() == 6,
        "--help"@[0] == '-',
        "--help"@[1] == '-',
        "--help"@[2] == 'h',
        "--help"@[3] == 'e',
        "--help"@[4] == 'l',
        "--help"@[5] == 'p',
        "-V"@.len() == 2,
        "-V"@[0] == '-',
        "-V"@[1] == 'V',
        "--version"@.len() == 9,
        "--version"@[0] == '-',
        "--version"@[1] == '-',
        "--version"@[2] == 'v',
        "--version"@[3] == 'e',
        "--version"@[4] == 'r',
        "--version"@[5] == 's',
        "--version"@[6] == 'i',
        "--version"@[7] == 'o',
        "--version"@[8] == 'n',
        "-a"@.len() == 2,
        "-a"@[0] == '-',
        "-a"@[1] == 'a',
        "--author"@.len() == 8,
        "--author"@[0] == '-',
        "--author"@[1] == '-',
        "--author"@[2] == 'a',
        "--author"@[3] == 'u',
        "--author"@[4] == 't',
        "--author"@[5] == 'h',
        "--author"@[6] == 'o',
        "--author"@[7] == 'r',
        "-t"@.len() == 2,
        "-t"@[0] == '-',
        "-t"@[1] == 't',
        "--title"@.len() == 7,
        "--title"@[0] == '-',
        "--title"@[1] == '-',
        "--title"@[2] == 't',
        "--title"@[3] == 'i',
        "--title"@[4] == 't',
        "--title"@[5] == 'l',
        "--title"@[6] == 'e',
        "--isbn"@.len() == 6,
        "--isbn"@[0] == '-',
        "--isbn"@[1] == '-',
        "--isbn"@[2] == 'i',
        "--isbn"@[3] == 's',
        "--isbn"@[4] == 'b',
        "--isbn"@[5] == 'n',
        "--publisher"@.len() == 11,
        "--publisher"@[0] == '-',
        "--publisher"@[1] == '-',
        "--publisher"@[2] == 'p',
        "--publisher"@[3] == 'u',
        "--publisher"@[4] == 'b',
        "--publisher"@[5] == 'l',
        "--publisher"@[6] == 'i',
        "--publisher"@[7] == 's',
        "--publisher"@[8] == 'h',
        "--publisher"@[9] == 'e',
        "--publisher"@[10] == 'r',
        "-s"@.len() == 2,
        "-s"@[0] == '-',
        "-s"@[1] == 's',
        "--series"@.len() == 8,
        "--series"@[0] == '-',
        "--series"@[1] == '-',
        "--series"@[2] == 's',
        "--series"@[3] == 'e',
        "--series"@[4] == 'r',
        "--series"@[5] == 'i',
        "--series"@[6] == 'e',
        "--series"@[7] == 's',
        "--year"@.len() == 6,
        "--year"@[0] == '-',
        "--year"@[1] == '-',
        "--year"@[2] == 'y',
        "--year"@[3] == 'e',
        "--year"@[4] == 'a',
        "--year"@[5] == 'r',
        "-n"@.len() == 2,
        "-n"@[0] == '-',
        "-n"@[1] == 'n',
        "--limit"@.len() == 7,
        "--limit"@[0] == '-',
        "--limit"@[1] == '-',
        "--limit"@[2] == 'l',
        "--limit"@[3] == 'i',
        "--limit"@[4] == 'm',
        "--limit"@[5] == 'i',
        "--limit"@[6] == 't',
        "-e"@.len() == 2,
        "-e"@[0] == '-',
        "-e"@[1] == 'e',
{
    reveal_strlit("-h");
    reveal_strlit("--help");
    reveal_strlit("-V");
    reveal_strlit("--version");
    reveal_strlit("-a");
    reveal_strlit("--author");
    reveal_strlit("-t");
    reveal_strlit("--title");
    reveal_strlit("--isbn");
    reveal_strlit("--publisher");
    reveal_strlit("-s");
    reveal_strlit("--series");
    reveal_strlit("--year");
    reveal_strlit("-n");
    reveal_strlit("--limit");
    reveal_strlit("-e");
}

#[verifier::spinoff_prover]
proof fn lemma_spelled_b()
    ensures
        "--ext"@.len() == 5,
        "--ext"@[0] == '-',
        "--ext"@[1] == '-',
        "--ext"@[2] == 'e',
        "--ext"@[3] == 'x',
        "--ext"@[4] == 't',
        "--extension"@.len() == 11,
        "--extension"@[0] == '-',
        "--extension"@[1] == '-',
        "--extension"@[2] == 'e',
        "--extension"@[3] == 'x',
        "--extension"@[4] == 't',
        "--extension"@[5] == 'e',
        "--extension"@[6] == 'n',
        "--extension"@[7] == 's',
        "--extension"@[8] == 'i',
        "--extension"@[9] == 'o',
        "--extension"@[10] == 'n',
        "-l"@.len() == 2,
        "-l"@[0] == '-',
        "-l"@[1] == 'l',
        "--lang"@.len() == 6,
        "--lang"@[0] == '-',
        "--lang"@[1] == '-',
        "--lang"@[2] == 'l',
        "--lang"@[3] == 'a',
        "--lang"@[4] == 'n',
        "--lang"@[5] == 'g',
        "--language"@.len() == 10,
        "--language"@[0] == '-',
        "--language"@[1] == '-',
        "--language"@[2] == 'l',
        "--language"@[3] == 'a',
        "--language"@[4] == 'n',
        "--language"@[5] == 'g',
        "--language"@[6] == 'u',
        "--language"@[7] == 'a',
        "--language"@[8] == 'g',
        "--language"@[9] == 'e',
        "--topic"@.len() == 7,
        "--topic"@[0] == '-',
        "--topic"@[1] == '-',
        "--topic"@[2] == 't',
        "--topic"@[3] == 'o',
        "--topic"@[4] == 'p',
        "--topic"@[5] == 'i',
        "--topic"@[6] == 'c',
        "-y"@.len() == 2,
        "-y"@[0] == '-',
        "-y"@[1] == 'y',
        "--first"@.len() == 7,
        "--first"@[0] == '-',
        "--first"@[1] == '-',
        "--first"@[2] == 'f',
        "--first"@[3] == 'i',
        "--first"@[4] == 'r',
        "--first"@[5] == 's',
        "--first"@[6] == 't',
        "--yes"@.len() == 5,
        "--yes"@[0] == '-',
        "--yes"@[1] == '-',
        "--yes"@[2] == 'y',
        "--yes"@[3] == 'e',
        "--yes"@[4] == 's',
        "--no-download"@.len() == 13,
        "--no-download"@[0] == '-',
        "--no-download"@[1] == '-',
        "--no-download"@[2] == 'n',
        "--no-download"@[3] == 'o',
        "--no-download"@[4] == '-',
        "--no-download"@[5] == 'd',
        "--no-download"@[6] == 'o',
        "--no-download"@[7] == 'w',
        "--no-download"@[8] == 'n',
        "--no-download"@[9] == 'l',
        "--no-download"@[10] == 'o',
        "--no-download"@[11] == 'a',
        "--no-download"@[12] == 'd',
        "--search-only"@.len() == 13,
        "--search-only"@[0] == '-',
        "--search-only"@[1] == '-',
        "--search-only"@[2] == 's',
        "--search-only"@[3] == 'e',
        "--search-only"@[4] == 'a',
        "--search-only"@[5] == 'r',
        "--search-only"@[6] == 'c',
        "--search-only"@[7] == 'h',
        "--search-only"@[8] == '-',
        "--search-only"@[9] == 'o',
        "--search-only"@[10] == 'n',
        "--search-only"@[11] == 'l',
        "--search-only"@[12] == 'y',
        "-d"@.len() == 2,
        "-d"@[0] == '-',
        "-d"@[1] == 'd',
        "--dir"@.len() == 5,
        "--dir"@[0] == '-',
        "--dir"@[1] == '-',
        "--dir"@[2] == 'd',
        "--dir"@[3] == 'i',
        "--dir"@[4] == 'r',
        "-o"@.len() == 2,
        "-o"@[0] == '-',
        "-o"@[1] == 'o',
        "--output"@.len() == 8,
        "--output"@[0] == '-',
        "--output"@[1] == '-',
        "--output"@[2] == 'o',
        "--output"@[3] == 'u',
        "--output"@[4] == 't',
        "--output"@[5] == 'p',
        "--output"@[6] == 'u',
        "--output"@[7] == 't',
        "--json"@.len() == 6,
        "--json"@[0] == '-',
        "--json"@[1] == '-',
        "--json"@[2] == 'j',
        "--json"@[3] == 's',
        "--json"@[4] == 'o',
        "--json"@[5] == 'n',
{
    reveal_strlit("--ext");
    reveal_strlit("--extension");
    reveal_strlit("-l");
    reveal_strlit("--lang");
    reveal_strlit("--language");
    reveal_strlit("--topic");
    reveal_strlit("-y");
    reveal_strlit("--first");
    reveal_strlit("--yes");
    reveal_strlit("--no-download");
    reveal_strlit("--search-only");
    reveal_strlit("-d");
    reveal_strlit("--dir");
    reveal_strlit("-o");
    reveal_strlit("--output");
    reveal_strlit("--json");
}

#[verifier::spinoff_prover]
proof fn lemma_spelled_c()
    ensures
        "-m"@.len() == 2,
        "-m"@[0] == '-',
        "-m"@[1] == 'm',
        "--mirror"@.len() == 8,
        "--mirror"@[0] == '-',
        "--mirror"@[1] == '-',
        "--mirror"@[2] == 'm',
        "--mirror"@[3] == 'i',
        "--mirror"@[4] == 'r',
        "--mirror"@[5] == 'r',
        "--mirror"@[6] == 'o',
        "--mirror"@[7] == 'r',
        "--refresh"@.len() == 9,
        "--refresh"@[0] == '-',
        "--refresh"@[1] == '-',
        "--refresh"@[2] == 'r',
        "--refresh"@[3] == 'e',
        "--refresh"@[4] == 'f',
        "--refresh"@[5] == 'r',
        "--refresh"@[6] == 'e',
        "--refresh"@[7] == 's',
        "--refresh"@[8] == 'h',
        "--refresh-mirrors"@.len() == 17,
        "--refresh-mirrors"@[0] == '-',
        "--refresh-mirrors"@[1] == '-',
        "--refresh-mirrors"@[2] == 'r',
        "--refresh-mirrors"@[3] == 'e',
        "--refresh-mirrors"@[4] == 'f',
        "--refresh-mirrors"@[5] == 'r',
        "--refresh-mirrors"@[6] == 'e',
        "--refresh-mirrors"@[7] == 's',
        "--refresh-mirrors"@[8] == 'h',
        "--refresh-mirrors"@[9] == '-',
        "--refresh-mirrors"@[10] == 'm',
        "--refresh-mirrors"@[11] == 'i',
        "--refresh-mirrors"@[12] == 'r',
        "--refresh-mirrors"@[13] == 'r',
        "--refresh-mirrors"@[14] == 'o',
        "--refresh-mirrors"@[15] == 'r',
        "--refresh-mirrors"@[16] == 's',
        "--max-size"@.len() == 10,
        "--max-size"@[0] == '-',
        "--max-size"@[1] == '-',
        "--max-size"@[2] == 'm',
        "--max-size"@[3] == 'a',
        "--max-size"@[4] == 'x',
        "--max-size"@[5] == '-',
        "--max-size"@[6] == 's',
        "--max-size"@[7] == 'i',
        "--max-size"@[8] == 'z',
        "--max-size"@[9] == 'e',
        "--no-verify"@.len() == 11,
        "--no-verify"@[0] == '-',
        "--no-verify"@[1] == '-',
        "--no-verify"@[2] == 'n',
        "--no-verify"@[3] == 'o',
        "--no-verify"@[4] == '-',
        "--no-verify"@[5] == 'v',
        "--no-verify"@[6] == 'e',
        "--no-verify"@[7] == 'r',
        "--no-verify"@[8] == 'i',
        "--no-verify"@[9] == 'f',
        "--no-verify"@[10] == 'y',
        "-f"@.len() == 2,
        "-f"@[0] == '-',
        "-f"@[1] == 'f',
        "--force"@.len() == 7,
        "--force"@[0] == '-',
        "--force"@[1] == '-',
        "--force"@[2] == 'f',
        "--force"@[3] == 'o',
        "--force"@[4] == 'r',
        "--force"@[5] == 'c',
        "--force"@[6] == 'e',
        "--no-resume"@.len() == 11,
        "--no-resume"@[0] == '-',
        "--no-resume"@[1] == '-',
        "--no-resume"@[2] == 'n',
        "--no-resume"@[3] == 'o',
        "--no-resume"@[4] == '-',
        "--no-resume"@[5] == 'r',
        "--no-resume"@[6] == 'e',
        "--no-resume"@[7] == 's',
        "--no-resume"@[8] == 'u',
        "--no-resume"@[9] == 'm',
        "--no-resume"@[10] == 'e',
        "--allow-http"@.len() == 12,
        "--allow-http"@[0] == '-',
        "--allow-http"@[1] == '-',
        "--allow-http"@[2] == 'a',
        "--allow-http"@[3] == 'l',
        "--allow-http"@[4] == 'l',
        "--allow-http"@[5] == 'o',
        "--allow-http"@[6] == 'w',
        "--allow-http"@[7] == '-',
        "--allow-http"@[8] == 'h',
        "--allow-http"@[9] == 't',
        "--allow-http"@[10] == 't',
        "--allow-http"@[11] == 'p',
        "--allow-private-hosts"@.len() == 21,
        "--allow-private-hosts"@[0] == '-',
        "--allow-private-hosts"@[1] == '-',
        "--allow-private-hosts"@[2] == 'a',
        "--allow-private-hosts"@[3] == 'l',
        "--allow-private-hosts"@[4] == 'l',
        "--allow-private-hosts"@[5] == 'o',
        "--allow-private-hosts"@[6] == 'w',
        "--allow-private-hosts"@[7] == '-',
        "--allow-private-hosts"@[8] == 'p',
        "--allow-private-hosts"@[9] == 'r',
        "--allow-private-hosts"@[10] == 'i',
        "--allow-private-hosts"@[11] == 'v',
        "--allow-private-hosts"@[12] == 'a',
        "--allow-private-hosts"@[13] == 't',
        "--allow-private-hosts"@[14] == 'e',
        "--allow-private-hosts"@[15] == '-',
        "--allow-private-hosts"@[16] == 'h',
        "--allow-private-hosts"@[17] == 'o',
        "--allow-private-hosts"@[18] == 's',
        "--allow-private-hosts"@[19] == 't',
        "--allow-private-hosts"@[20] == 's',
        "--no-color"@.len() == 10,
        "--no-color"@[0] == '-',
        "--no-color"@[1] == '-',
        "--no-color"@[2] == 'n',
        "--no-color"@[3] == 'o',
        "--no-color"@[4] == '-',
        "--no-color"@[5] == 'c',
        "--no-color"@[6] == 'o',
        "--no-color"@[7] == 'l',
        "--no-color"@[8] == 'o',
        "--no-color"@[9] == 'r',
        "--no-colour"@.len() == 11,
        "--no-colour"@[0] == '-',
        "--no-colour"@[1] == '-',
        "--no-colour"@[2] == 'n',
        "--no-colour"@[3] == 'o',
        "--no-colour"@[4] == '-',
        "--no-colour"@[5] == 'c',
        "--no-colour"@[6] == 'o',
        "--no-colour"@[7] == 'l',
        "--no-colour"@[8] == 'o',
        "--no-colour"@[9] == 'u',
        "--no-colour"@[10] == 'r',
        "--plain"@.len() == 7,
        "--plain"@[0] == '-',
        "--plain"@[1] == '-',
        "--plain"@[2] == 'p',
        "--plain"@[3] == 'l',
        "--plain"@[4] == 'a',
        "--plain"@[5] == 'i',
        "--plain"@[6] == 'n',
        "-q"@.len() == 2,
        "-q"@[0] == '-',
        "-q"@[1] == 'q',
        "--quiet"@.len() == 7,
        "--quiet"@[0] == '-',
        "--quiet"@[1] == '-',
        "--quiet"@[2] == 'q',
        "--quiet"@[3] == 'u',
        "--quiet"@[4] == 'i',
        "--quiet"@[5] == 'e',
        "--quiet"@[6] == 't',
{
    reveal_strlit("-m");
    reveal_strlit("--mirror");
    reveal_strlit("--refresh");
    reveal_strlit("--refresh-mirrors");
    reveal_strlit("--max-size");
    reveal_strlit("--no-verify");
    reveal_strlit("-f");
    reveal_strlit("--force");
    reveal_strlit("--no-resume");
    reveal_strlit("--allow-http");
    reveal_strlit("--allow-private-hosts");
    reveal_strlit("--no-color");
    reveal_strlit("--no-colour");
    reveal_strlit("--plain");
    reveal_strlit("-q");
    reveal_strlit("--quiet");
}

#[verifier::spinoff_prover]
proof fn lemma_spelled_d()
    ensures
        "--no-covers"@.len() == 11,
        "--no-covers"@[0] == '-',
        "--no-covers"@[1] == '-',
        "--no-covers"@[2] == 'n',
        "--no-covers"@[3] == 'o',
        "--no-covers"@[4] == '-',
        "--no-covers"@[5] == 'c',
        "--no-covers"@[6] == 'o',
        "--no-covers"@[7] == 'v',
        "--no-covers"@[8] == 'e',
        "--no-covers"@[9] == 'r',
        "--no-covers"@[10] == 's',
        "--with"@.len() == 6,
        "--with"@[0] == '-',
        "--with"@[1] == '-',
        "--with"@[2] == 'w',
        "--with"@[3] == 'i',
        "--with"@[4] == 't',
        "--with"@[5] == 'h',
        "--find"@.len() == 6,
        "--find"@[0] == '-',
        "--find"@[1] == '-',
        "--find"@[2] == 'f',
        "--find"@[3] == 'i',
        "--find"@[4] == 'n',
        "--find"@[5] == 'd',
        "--clear"@.len() == 7,
        "--clear"@[0] == '-',
        "--clear"@[1] == '-',
        "--clear"@[2] == 'c',
        "--clear"@[3] == 'l',
        "--clear"@[4] == 'e',
        "--clear"@[5] == 'a',
        "--clear"@[6] == 'r',
        "--init"@.len() == 6,
        "--init"@[0] == '-',
        "--init"@[1] == '-',
        "--init"@[2] == 'i',
        "--init"@[3] == 'n',
        "--init"@[4] == 'i',
        "--init"@[5] == 't',
        "--path"@.len() == 6,
        "--path"@[0] == '-',
        "--path"@[1] == '-',
        "--path"@[2] == 'p',
        "--path"@[3] == 'a',
        "--path"@[4] == 't',
        "--path"@[5] == 'h',
{
    reveal_strlit("--no-covers");
    reveal_strlit("--with");
    reveal_strlit("--find");
    reveal_strlit("--clear");
    reveal_strlit("--init");
    reveal_strlit("--path");
}

#[verifier::spinoff_prover]
proof fn lemma_names_a()
    ensures
        args::flag_named("-h"@) == Some(Flag::Help) && dashed("-h"@),
        args::flag_named("--help"@) == Some(Flag::Help) && dashed("--help"@),
        args::flag_named("-V"@) == Some(Flag::Version) && dashed("-V"@),
        args::flag_named("--version"@) == Some(Flag::Version) && dashed("--version"@),
        args::flag_named("-a"@) == Some(Flag::Column(Field::Author)) && dashed("-a"@),
        args::flag_named("--author"@) == Some(Flag::Column(Field::Author)) && dashed("--author"@),
        args::flag_named("-t"@) == Some(Flag::Column(Field::Title)) && dashed("-t"@),
        args::flag_named("--title"@) == Some(Flag::Column(Field::Title)) && dashed("--title"@),
        args::flag_named("--isbn"@) == Some(Flag::Column(Field::Isbn)) && dashed("--isbn"@),
        args::flag_named("--publisher"@) == Some(Flag::Column(Field::Publisher)) && dashed("--publisher"@),
{
    lemma_spelled_a();
}

#[verifier::spinoff_prover]
proof fn lemma_names_b()
    ensures
        args::flag_named("-s"@) == Some(Flag::Column(Field::Series)) && dashed("-s"@),
        args::flag_named("--series"@) == Some(Flag::Column(Field::Series)) && dashed("--series"@),
        args::flag_named("--year"@) == Some(Flag::Column(Field::Year)) && dashed("--year"@),
        args::flag_named("-n"@) == Some(Flag::Limit) && dashed("-n"@),
        args::flag_named("--limit"@) == Some(Flag::Limit) && dashed("--limit"@),
        args::flag_named("-e"@) == Some(Flag::Ext) && dashed("-e"@),
        args::flag_named("--ext"@) == Some(Flag::Ext) && dashed("--ext"@),
        args::flag_named("--extension"@) == Some(Flag::Ext) && dashed("--extension"@),
        args::flag_named("-l"@) == Some(Flag::Lang) && dashed("-l"@),
        args::flag_named("--lang"@) == Some(Flag::Lang) && dashed("--lang"@),
        args::flag_named("--language"@) == Some(Flag::Lang) && dashed("--language"@),
        args::flag_named("--topic"@) == Some(Flag::Topics) && dashed("--topic"@),
{
    lemma_spelled_a();
    lemma_spelled_b();
}

#[verifier::spinoff_prover]
proof fn lemma_names_c()
    ensures
        args::flag_named("-y"@) == Some(Flag::First) && dashed("-y"@),
        args::flag_named("--first"@) == Some(Flag::First) && dashed("--first"@),
        args::flag_named("--yes"@) == Some(Flag::First) && dashed("--yes"@),
        args::flag_named("--no-download"@) == Some(Flag::NoDownload) && dashed("--no-download"@),
        args::flag_named("--search-only"@) == Some(Flag::NoDownload) && dashed("--search-only"@),
        args::flag_named("-d"@) == Some(Flag::Dir) && dashed("-d"@),
        args::flag_named("--dir"@) == Some(Flag::Dir) && dashed("--dir"@),
        args::flag_named("-o"@) == Some(Flag::Output) && dashed("-o"@),
        args::flag_named("--output"@) == Some(Flag::Output) && dashed("--output"@),
        args::flag_named("--json"@) == Some(Flag::Json) && dashed("--json"@),
        args::flag_named("-m"@) == Some(Flag::Mirror) && dashed("-m"@),
        args::flag_named("--mirror"@) == Some(Flag::Mirror) && dashed("--mirror"@),
{
    lemma_spelled_a();
    lemma_spelled_b();
    lemma_spelled_c();
}

#[verifier::spinoff_prover]
proof fn lemma_names_d()
    ensures
        args::flag_named("--refresh"@) == Some(Flag::Refresh) && dashed("--refresh"@),
        args::flag_named("--refresh-mirrors"@) == Some(Flag::Refresh) && dashed("--refresh-mirrors"@),
        args::flag_named("--max-size"@) == Some(Flag::MaxSize) && dashed("--max-size"@),
        args::flag_named("--no-verify"@) == Some(Flag::NoVerify) && dashed("--no-verify"@),
        args::flag_named("-f"@) == Some(Flag::Force) && dashed("-f"@),
        args::flag_named("--force"@) == Some(Flag::Force) && dashed("--force"@),
        args::flag_named("--no-resume"@) == Some(Flag::NoResume) && dashed("--no-resume"@),
        args::flag_named("--allow-http"@) == Some(Flag::AllowHttp) && dashed("--allow-http"@),
{
    lemma_spelled_a();
    lemma_spelled_b();
    lemma_spelled_c();
}

#[verifier::spinoff_prover]
proof fn lemma_names_e()
    ensures
        args::flag_named("--allow-private-hosts"@) == Some(Flag::AllowPrivateHosts) && dashed("--allow-private-hosts"@),
        args::flag_named("--no-color"@) == Some(Flag::NoColor) && dashed("--no-color"@),
        args::flag_named("--no-colour"@) == Some(Flag::NoColor) && dashed("--no-colour"@),
        args::flag_named("--plain"@) == Some(Flag::NoColor) && dashed("--plain"@),
        args::flag_named("-q"@) == Some(Flag::Quiet) && dashed("-q"@),
        args::flag_named("--quiet"@) == Some(Flag::Quiet) && dashed("--quiet"@),
        args::flag_named("--no-covers"@) == Some(Flag::NoCovers) && dashed("--no-covers"@),
        args::flag_named("--with"@) == Some(Flag::With) && dashed("--with"@),
        args::flag_named("--find"@) == Some(Flag::Find) && dashed("--find"@),
{
    lemma_spelled_a();
    lemma_spelled_b();
    lemma_spelled_c();
    lemma_spelled_d();
}

#[verifier::spinoff_prover]
proof fn lemma_names_f()
    ensures
        args::flag_named("--clear"@) == Some(Flag::Clear) && dashed("--clear"@),
        args::flag_named("--init"@) == Some(Flag::Init) && dashed("--init"@),
        args::flag_named("--path"@) == Some(Flag::Path) && dashed("--path"@),
{
    lemma_spelled_a();
    lemma_spelled_b();
    lemma_spelled_c();
    lemma_spelled_d();
}

// ---------------------------------------------------------------------------
// Reading an option among words
// ---------------------------------------------------------------------------

/// Whether texts are all words: none begins with a dash, but for a dash alone.
pub open spec fn words(ws: Seq<Seq<char>>) -> bool {
    forall|k: int| 0 <= k < ws.len() ==> (#[trigger] ws[k]).len() == 0 || ws[k][0] != '-' || ws[k]
        == "-"@
}

/// Whether a text can stand as the value of an option in an argument of its own.
pub open spec fn plain(v: Seq<char>) -> bool {
    v.len() <= 1 || v[0] != '-'
}

/// Whether words are what a search is made of: the first is not the name of a
/// command, and they are not a single MD5.
pub open spec fn sought(first: Seq<Seq<char>>, all: Seq<Seq<char>>) -> bool {
    &&& first.len() > 0 ==> !args::is_subcommand(first[0])
    &&& all.len() > 0
    &&& all.len() > 1 || !model::md5_shaped(all[0])
}

/// A search for words and nothing else.
pub open spec fn search_for(terms: Seq<Seq<char>>) -> SearchView {
    SearchView {
        terms,
        fields: seq![],
        topics: seq![],
        limit: None,
        extension: None,
        language: None,
        first: false,
        no_download: false,
    }
}

/// The shared options when none was given.
pub open spec fn untouched() -> GlobalView {
    GlobalView {
        mirrors: seq![],
        refresh_mirrors: false,
        dest_dir: None,
        output: None,
        max_size: None,
        verify: None,
        force: false,
        no_resume: false,
        allow_http: false,
        allow_private_hosts: false,
        no_color: false,
        quiet: false,
        json: false,
        reader: None,
        no_covers: false,
    }
}

/// A command line that asks for a search.
pub open spec fn searching(s: SearchView, g: GlobalView) -> Result<CliView, Seq<char>> {
    Ok(CliView { command: CommandView::Search(s), global: g })
}

/// Whether a command line asks for this search with these shared options.
pub open spec fn asks(
    argv: Seq<Seq<char>>,
    home: Seq<char>,
    s: SearchView,
    g: GlobalView,
) -> bool {
    args::parsed(argv, home) == searching(s, g)
}

proof fn lemma_words(a: Seq<Seq<char>>, i: int, j: int, d: DraftView, home: Seq<char>)
    requires
        0 <= i <= j <= a.len(),
        words(a.subrange(i, j)),
    ensures
        args::scan(a, i, d, false, home) == args::scan(
            a,
            j,
            DraftView { positionals: d.positionals + a.subrange(i, j), ..d },
            false,
            home,
        ),
    decreases j - i,
{
    if i < j {
        assert(a.subrange(i, j)[0] == a[i]);
        let d2 = DraftView { positionals: d.positionals.push(a[i]), ..d };
        assert forall|k: int| 0 <= k < a.subrange(i + 1, j).len() implies {
            let s = #[trigger] a.subrange(i + 1, j)[k];
            s.len() == 0 || s[0] != '-' || s == "-"@
        } by {
            assert(a.subrange(i + 1, j)[k] == a.subrange(i, j)[k + 1]);
        }
        lemma_words(a, i + 1, j, d2, home);
        assert(d2.positionals + a.subrange(i + 1, j) =~= d.positionals + a.subrange(i, j));
    } else {
        assert(d.positionals + a.subrange(i, j) =~= d.positionals);
    }
}

/// One step in the middle of words decides what the whole line is read as.
proof fn lemma_around(
    before: Seq<Seq<char>>,
    mid: Seq<Seq<char>>,
    after: Seq<Seq<char>>,
    d2: DraftView,
    home: Seq<char>,
)
    requires
        words(before),
        words(after),
        mid.len() > 0,
        ({
            let a = before + mid + after;
            args::step(
                a,
                before.len() as int,
                DraftView { positionals: before, ..args::blank_draft() },
                false,
                home,
            ) == Step::On((before.len() + mid.len()) as int, d2, false)
        }),
    ensures
        args::scan(before + mid + after, 0, args::blank_draft(), false, home) == Step::On(
            (before.len() + mid.len() + after.len()) as int,
            DraftView { positionals: d2.positionals + after, ..d2 },
            false,
        ),
{
    let a = before + mid + after;
    let n = before.len() as int;
    let m = (before.len() + mid.len()) as int;
    assert(a.subrange(0, n) =~= before);
    assert(a.subrange(m, a.len() as int) =~= after);
    lemma_words(a, 0, n, args::blank_draft(), home);
    assert(args::blank_draft().positionals + before =~= before);
    lemma_words(a, m, a.len() as int, d2, home);
}

/// The same where the step fails or settles everything.
proof fn lemma_stopped(
    before: Seq<Seq<char>>,
    mid: Seq<Seq<char>>,
    after: Seq<Seq<char>>,
    home: Seq<char>,
)
    requires
        words(before),
        mid.len() > 0,
        args::step(
            before + mid + after,
            before.len() as int,
            DraftView { positionals: before, ..args::blank_draft() },
            false,
            home,
        ) !is On,
    ensures
        args::scan(before + mid + after, 0, args::blank_draft(), false, home) == args::step(
            before + mid + after,
            before.len() as int,
            DraftView { positionals: before, ..args::blank_draft() },
            false,
            home,
        ),
{
    let a = before + mid + after;
    let n = before.len() as int;
    assert(a.subrange(0, n) =~= before);
    lemma_words(a, 0, n, args::blank_draft(), home);
    assert(args::blank_draft().positionals + before =~= before);
}

proof fn lemma_no_command(before: Seq<Seq<char>>, opt: Seq<char>, rest: Seq<Seq<char>>)
    requires
        before.len() > 0 ==> !args::is_subcommand(before[0]),
        dashed(opt),
    ensures
        !args::is_subcommand((before + (seq![opt] + rest))[0]),
{
    let a = before + (seq![opt] + rest);
    if before.len() == 0 {
        assert(a[0] == opt);
        args::lemma_no_dashed_subcommand(opt);
    } else {
        assert(a[0] == before[0]);
    }
}

proof fn lemma_uncut(opt: Seq<char>)
    requires
        dashed(opt),
    ensures
        args::flag_parts(opt) == (opt, None::<Seq<char>>),
        !args::positional(opt, false),
        opt != "--"@,
{
    text::lemma_first_at(opt, '=', 0);
    reveal_strlit("-");
    reveal_strlit("--");
}

/// An option that takes a value, among words.
proof fn lemma_valued(
    before: Seq<Seq<char>>,
    opt: Seq<char>,
    f: Flag,
    v: Seq<char>,
    after: Seq<Seq<char>>,
    home: Seq<char>,
)
    requires
        words(before),
        words(after),
        before.len() > 0 ==> !args::is_subcommand(before[0]),
        dashed(opt),
        args::flag_named(opt) == Some(f),
        args::takes_value(f),
        plain(v),
    ensures
        ({
            let d = DraftView { positionals: before, ..args::blank_draft() };
            match args::valued(d, f, v, home) {
                Err(e) => args::parsed(before + seq![opt, v] + after, home) == Err::<
                    CliView,
                    Seq<char>,
                >(e),
                Ok(d2) => args::parsed(before + seq![opt, v] + after, home) == Ok::<
                    CliView,
                    Seq<char>,
                >(
                    CliView {
                        command: args::bare(
                            DraftView { positionals: d2.positionals + after, ..d2 },
                            d2.positionals + after,
                        ),
                        global: d2.global,
                    },
                ),
            }
        }),
{
    let a = before + seq![opt, v] + after;
    let n = before.len() as int;
    let d = DraftView { positionals: before, ..args::blank_draft() };
    lemma_uncut(opt);
    lemma_no_command(before, opt, seq![v] + after);
    assert(a =~= before + (seq![opt] + (seq![v] + after)));
    assert(a[n] == opt);
    assert(a[n + 1] == v);
    match args::valued(d, f, v, home) {
        Err(e) => {
            lemma_stopped(before, seq![opt, v], after, home);
        },
        Ok(d2) => {
            lemma_around(before, seq![opt, v], after, d2, home);
        },
    }
}

/// An option that takes no value, among words.
proof fn lemma_switched(
    before: Seq<Seq<char>>,
    opt: Seq<char>,
    f: Flag,
    after: Seq<Seq<char>>,
    home: Seq<char>,
)
    requires
        words(before),
        words(after),
        before.len() > 0 ==> !args::is_subcommand(before[0]),
        dashed(opt),
        args::flag_named(opt) == Some(f),
        !args::takes_value(f),
        f != Flag::Help,
        f != Flag::Version,
    ensures
        ({
            let d = args::switched(DraftView { positionals: before, ..args::blank_draft() }, f);
            args::parsed(before + seq![opt] + after, home) == Ok::<CliView, Seq<char>>(
                CliView {
                    command: args::bare(
                        DraftView { positionals: before + after, ..d },
                        before + after,
                    ),
                    global: d.global,
                },
            )
        }),
{
    let a = before + seq![opt] + after;
    let n = before.len() as int;
    let d = DraftView { positionals: before, ..args::blank_draft() };
    lemma_uncut(opt);
    lemma_no_command(before, opt, after);
    assert(a =~= before + (seq![opt] + after));
    assert(a[n] == opt);
    lemma_around(before, seq![opt], after, args::switched(d, f), home);
}

// ---------------------------------------------------------------------------
// What each option asks for
// ---------------------------------------------------------------------------

proof fn lemma_column(
    before: Seq<Seq<char>>,
    opt: Seq<char>,
    c: Field,
    v: Seq<char>,
    after: Seq<Seq<char>>,
    home: Seq<char>,
)
    requires
        words(before),
        words(after),
        plain(v),
        sought(before, before + seq![v] + after),
        dashed(opt),
        args::flag_named(opt) == Some(Flag::Column(c)),
    ensures
        asks(
            before + seq![opt, v] + after,
            home,
            (SearchView { fields: seq![c], ..search_for(before + seq![v] + after) }),
            untouched(),
        ),
{
    lemma_valued(before, opt, Flag::Column(c), v, after, home);
    assert(before.push(v) + after =~= before + seq![v] + after);
    assert(Seq::<Field>::empty().push(c) =~= seq![c]);
}

/// An option that names a column searches that column, and no other, and its
/// value is a term like the words around it.
pub proof fn lemma_column_options(
    before: Seq<Seq<char>>,
    v: Seq<char>,
    after: Seq<Seq<char>>,
    home: Seq<char>,
)
    requires
        words(before),
        words(after),
        plain(v),
        sought(before, before + seq![v] + after),
    ensures
        asks(
            before + seq!["-a"@, v] + after,
            home,
            (SearchView { fields: seq![Field::Author], ..search_for(before + seq![v] + after) }),
            untouched(),
        ),
        asks(
            before + seq!["--author"@, v] + after,
            home,
            (SearchView { fields: seq![Field::Author], ..search_for(before + seq![v] + after) }),
            untouched(),
        ),
        asks(
            before + seq!["-t"@, v] + after,
            home,
            (SearchView { fields: seq![Field::Title], ..search_for(before + seq![v] + after) }),
            untouched(),
        ),
        asks(
            before + seq!["--title"@, v] + after,
            home,
            (SearchView { fields: seq![Field::Title], ..search_for(before + seq![v] + after) }),
            untouched(),
        ),
        asks(
            before + seq!["--isbn"@, v] + after,
            home,
            (SearchView { fields: seq![Field::Isbn], ..search_for(before + seq![v] + after) }),
            untouched(),
        ),
        asks(
            before + seq!["--publisher"@, v] + after,
            home,
            (SearchView { fields: seq![Field::Publisher], ..search_for(before + seq![v] + after) }),
            untouched(),
        ),
        asks(
            before + seq!["-s"@, v] + after,
            home,
            (SearchView { fields: seq![Field::Series], ..search_for(before + seq![v] + after) }),
            untouched(),
        ),
        asks(
            before + seq!["--series"@, v] + after,
            home,
            (SearchView { fields: seq![Field::Series], ..search_for(before + seq![v] + after) }),
            untouched(),
        ),
        asks(
            before + seq!["--year"@, v] + after,
            home,
            (SearchView { fields: seq![Field::Year], ..search_for(before + seq![v] + after) }),
            untouched(),
        ),
{
    lemma_names_a();
    lemma_names_b();
    lemma_column(before, "-a"@, Field::Author, v, after, home);
    lemma_column(before, "--author"@, Field::Author, v, after, home);
    lemma_column(before, "-t"@, Field::Title, v, after, home);
    lemma_column(before, "--title"@, Field::Title, v, after, home);
    lemma_column(before, "--isbn"@, Field::Isbn, v, after, home);
    lemma_column(before, "--publisher"@, Field::Publisher, v, after, home);
    lemma_column(before, "-s"@, Field::Series, v, after, home);
    lemma_column(before, "--series"@, Field::Series, v, after, home);
    lemma_column(before, "--year"@, Field::Year, v, after, home);
}

proof fn lemma_column_alone(opt: Seq<char>, c: Field, v: Seq<char>, home: Seq<char>)
    requires
        plain(v),
        !model::md5_shaped(v),
        dashed(opt),
        args::flag_named(opt) == Some(Flag::Column(c)),
    ensures
        args::parsed(seq![opt, v], home) == searching(
            SearchView { fields: seq![c], ..search_for(seq![v]) },
            untouched(),
        ),
{
    let none = Seq::<Seq<char>>::empty();
    assert(none + seq![v] + none =~= seq![v]);
    assert(none + seq![opt, v] + none =~= seq![opt, v]);
    lemma_column(none, opt, c, v, none, home);
}

/// With an option and its value alone, the value is the one term that is sought
/// and its column the one that is searched.
pub proof fn lemma_column_option_alone(v: Seq<char>, home: Seq<char>)
    requires
        plain(v),
        !model::md5_shaped(v),
    ensures
        asks(
            seq!["-a"@, v],
            home,
            (SearchView { fields: seq![Field::Author], ..search_for(seq![v]) }),
            untouched(),
        ),
        asks(
            seq!["--author"@, v],
            home,
            (SearchView { fields: seq![Field::Author], ..search_for(seq![v]) }),
            untouched(),
        ),
        asks(
            seq!["-t"@, v],
            home,
            (SearchView { fields: seq![Field::Title], ..search_for(seq![v]) }),
            untouched(),
        ),
        asks(
            seq!["--title"@, v],
            home,
            (SearchView { fields: seq![Field::Title], ..search_for(seq![v]) }),
            untouched(),
        ),
        asks(
            seq!["--isbn"@, v],
            home,
            (SearchView { fields: seq![Field::Isbn], ..search_for(seq![v]) }),
            untouched(),
        ),
        asks(
            seq!["--publisher"@, v],
            home,
            (SearchView { fields: seq![Field::Publisher], ..search_for(seq![v]) }),
            untouched(),
        ),
        asks(
            seq!["-s"@, v],
            home,
            (SearchView { fields: seq![Field::Series], ..search_for(seq![v]) }),
            untouched(),
        ),
        asks(
            seq!["--series"@, v],
            home,
            (SearchView { fields: seq![Field::Series], ..search_for(seq![v]) }),
            untouched(),
        ),
        asks(
            seq!["--year"@, v],
            home,
            (SearchView { fields: seq![Field::Year], ..search_for(seq![v]) }),
            untouched(),
        ),
{
    lemma_names_a();
    lemma_names_b();
    lemma_column_alone("-a"@, Field::Author, v, home);
    lemma_column_alone("--author"@, Field::Author, v, home);
    lemma_column_alone("-t"@, Field::Title, v, home);
    lemma_column_alone("--title"@, Field::Title, v, home);
    lemma_column_alone("--isbn"@, Field::Isbn, v, home);
    lemma_column_alone("--publisher"@, Field::Publisher, v, home);
    lemma_column_alone("-s"@, Field::Series, v, home);
    lemma_column_alone("--series"@, Field::Series, v, home);
    lemma_column_alone("--year"@, Field::Year, v, home);
}

proof fn lemma_switch_first(
    before: Seq<Seq<char>>,
    opt: Seq<char>,
    after: Seq<Seq<char>>,
    home: Seq<char>,
)
    requires
        words(before),
        words(after),
        sought(before, before + after),
        dashed(opt),
        args::flag_named(opt) == Some(Flag::First),
    ensures
        asks(
            before + seq![opt] + after,
            home,
            (SearchView { first: true, ..search_for(before + after) }),
            untouched(),
        ),
{
    lemma_switched(before, opt, Flag::First, after, home);
}

proof fn lemma_switch_nodownload(
    before: Seq<Seq<char>>,
    opt: Seq<char>,
    after: Seq<Seq<char>>,
    home: Seq<char>,
)
    requires
        words(before),
        words(after),
        sought(before, before + after),
        dashed(opt),
        args::flag_named(opt) == Some(Flag::NoDownload),
    ensures
        asks(
            before + seq![opt] + after,
            home,
            (SearchView { no_download: true, ..search_for(before + after) }),
            untouched(),
        ),
{
    lemma_switched(before, opt, Flag::NoDownload, after, home);
}

proof fn lemma_switch_json(
    before: Seq<Seq<char>>,
    opt: Seq<char>,
    after: Seq<Seq<char>>,
    home: Seq<char>,
)
    requires
        words(before),
        words(after),
        sought(before, before + after),
        dashed(opt),
        args::flag_named(opt) == Some(Flag::Json),
    ensures
        asks(
            before + seq![opt] + after,
            home,
            search_for(before + after),
            (GlobalView { json: true, ..untouched() }),
        ),
{
    lemma_switched(before, opt, Flag::Json, after, home);
}

proof fn lemma_switch_refresh(
    before: Seq<Seq<char>>,
    opt: Seq<char>,
    after: Seq<Seq<char>>,
    home: Seq<char>,
)
    requires
        words(before),
        words(after),
        sought(before, before + after),
        dashed(opt),
        args::flag_named(opt) == Some(Flag::Refresh),
    ensures
        asks(
            before + seq![opt] + after,
            home,
            search_for(before + after),
            (GlobalView { refresh_mirrors: true, ..untouched() }),
        ),
{
    lemma_switched(before, opt, Flag::Refresh, after, home);
}

proof fn lemma_switch_noverify(
    before: Seq<Seq<char>>,
    opt: Seq<char>,
    after: Seq<Seq<char>>,
    home: Seq<char>,
)
    requires
        words(before),
        words(after),
        sought(before, before + after),
        dashed(opt),
        args::flag_named(opt) == Some(Flag::NoVerify),
    ensures
        asks(
            before + seq![opt] + after,
            home,
            search_for(before + after),
            (GlobalView { verify: Some(false), ..untouched() }),
        ),
{
    lemma_switched(before, opt, Flag::NoVerify, after, home);
}

proof fn lemma_switch_force(
    before: Seq<Seq<char>>,
    opt: Seq<char>,
    after: Seq<Seq<char>>,
    home: Seq<char>,
)
    requires
        words(before),
        words(after),
        sought(before, before + after),
        dashed(opt),
        args::flag_named(opt) == Some(Flag::Force),
    ensures
        asks(
            before + seq![opt] + after,
            home,
            search_for(before + after),
            (GlobalView { force: true, ..untouched() }),
        ),
{
    lemma_switched(before, opt, Flag::Force, after, home);
}

proof fn lemma_switch_noresume(
    before: Seq<Seq<char>>,
    opt: Seq<char>,
    after: Seq<Seq<char>>,
    home: Seq<char>,
)
    requires
        words(before),
        words(after),
        sought(before, before + after),
        dashed(opt),
        args::flag_named(opt) == Some(Flag::NoResume),
    ensures
        asks(
            before + seq![opt] + after,
            home,
            search_for(before + after),
            (GlobalView { no_resume: true, ..untouched() }),
        ),
{
    lemma_switched(before, opt, Flag::NoResume, after, home);
}

proof fn lemma_switch_allowhttp(
    before: Seq<Seq<char>>,
    opt: Seq<char>,
    after: Seq<Seq<char>>,
    home: Seq<char>,
)
    requires
        words(before),
        words(after),
        sought(before, before + after),
        dashed(opt),
        args::flag_named(opt) == Some(Flag::AllowHttp),
    ensures
        asks(
            before + seq![opt] + after,
            home,
            search_for(before + after),
            (GlobalView { allow_http: true, ..untouched() }),
        ),
{
    lemma_switched(before, opt, Flag::AllowHttp, after, home);
}

proof fn lemma_switch_allowprivatehosts(
    before: Seq<Seq<char>>,
    opt: Seq<char>,
    after: Seq<Seq<char>>,
    home: Seq<char>,
)
    requires
        words(before),
        words(after),
        sought(before, before + after),
        dashed(opt),
        args::flag_named(opt) == Some(Flag::AllowPrivateHosts),
    ensures
        asks(
            before + seq![opt] + after,
            home,
            search_for(before + after),
            (GlobalView { allow_private_hosts: true, ..untouched() }),
        ),
{
    lemma_switched(before, opt, Flag::AllowPrivateHosts, after, home);
}

proof fn lemma_switch_nocolor(
    before: Seq<Seq<char>>,
    opt: Seq<char>,
    after: Seq<Seq<char>>,
    home: Seq<char>,
)
    requires
        words(before),
        words(after),
        sought(before, before + after),
        dashed(opt),
        args::flag_named(opt) == Some(Flag::NoColor),
    ensures
        asks(
            before + seq![opt] + after,
            home,
            search_for(before + after),
            (GlobalView { no_color: true, ..untouched() }),
        ),
{
    lemma_switched(before, opt, Flag::NoColor, after, home);
}

proof fn lemma_switch_quiet(
    before: Seq<Seq<char>>,
    opt: Seq<char>,
    after: Seq<Seq<char>>,
    home: Seq<char>,
)
    requires
        words(before),
        words(after),
        sought(before, before + after),
        dashed(opt),
        args::flag_named(opt) == Some(Flag::Quiet),
    ensures
        asks(
            before + seq![opt] + after,
            home,
            search_for(before + after),
            (GlobalView { quiet: true, ..untouched() }),
        ),
{
    lemma_switched(before, opt, Flag::Quiet, after, home);
}

proof fn lemma_switch_nocovers(
    before: Seq<Seq<char>>,
    opt: Seq<char>,
    after: Seq<Seq<char>>,
    home: Seq<char>,
)
    requires
        words(before),
        words(after),
        sought(before, before + after),
        dashed(opt),
        args::flag_named(opt) == Some(Flag::NoCovers),
    ensures
        asks(
            before + seq![opt] + after,
            home,
            search_for(before + after),
            (GlobalView { no_covers: true, ..untouched() }),
        ),
{
    lemma_switched(before, opt, Flag::NoCovers, after, home);
}

/// What the switches of a search turn on, and that they turn on nothing else.
pub proof fn lemma_search_switches(before: Seq<Seq<char>>, after: Seq<Seq<char>>, home: Seq<char>)
    requires
        words(before),
        words(after),
        sought(before, before + after),
    ensures
        asks(
            before + seq!["-y"@] + after,
            home,
            (SearchView { first: true, ..search_for(before + after) }),
            untouched(),
        ),
        asks(
            before + seq!["--first"@] + after,
            home,
            (SearchView { first: true, ..search_for(before + after) }),
            untouched(),
        ),
        asks(
            before + seq!["--yes"@] + after,
            home,
            (SearchView { first: true, ..search_for(before + after) }),
            untouched(),
        ),
        asks(
            before + seq!["--no-download"@] + after,
            home,
            (SearchView { no_download: true, ..search_for(before + after) }),
            untouched(),
        ),
        asks(
            before + seq!["--search-only"@] + after,
            home,
            (SearchView { no_download: true, ..search_for(before + after) }),
            untouched(),
        ),
{
    lemma_names_c();
    lemma_switch_first(before, "-y"@, after, home);
    lemma_switch_first(before, "--first"@, after, home);
    lemma_switch_first(before, "--yes"@, after, home);
    lemma_switch_nodownload(before, "--no-download"@, after, home);
    lemma_switch_nodownload(before, "--search-only"@, after, home);
}

/// What the switches that every command shares turn on, and that each turns on
/// nothing else.
pub proof fn lemma_switches(before: Seq<Seq<char>>, after: Seq<Seq<char>>, home: Seq<char>)
    requires
        words(before),
        words(after),
        sought(before, before + after),
    ensures
        asks(
            before + seq!["--json"@] + after,
            home,
            search_for(before + after),
            (GlobalView { json: true, ..untouched() }),
        ),
        asks(
            before + seq!["--refresh"@] + after,
            home,
            search_for(before + after),
            (GlobalView { refresh_mirrors: true, ..untouched() }),
        ),
        asks(
            before + seq!["--refresh-mirrors"@] + after,
            home,
            search_for(before + after),
            (GlobalView { refresh_mirrors: true, ..untouched() }),
        ),
        asks(
            before + seq!["--no-verify"@] + after,
            home,
            search_for(before + after),
            (GlobalView { verify: Some(false), ..untouched() }),
        ),
        asks(
            before + seq!["-f"@] + after,
            home,
            search_for(before + after),
            (GlobalView { force: true, ..untouched() }),
        ),
        asks(
            before + seq!["--force"@] + after,
            home,
            search_for(before + after),
            (GlobalView { force: true, ..untouched() }),
        ),
        asks(
            before + seq!["--no-resume"@] + after,
            home,
            search_for(before + after),
            (GlobalView { no_resume: true, ..untouched() }),
        ),
{
    lemma_names_c();
    lemma_names_d();
    lemma_switch_json(before, "--json"@, after, home);
    lemma_switch_refresh(before, "--refresh"@, after, home);
    lemma_switch_refresh(before, "--refresh-mirrors"@, after, home);
    lemma_switch_noverify(before, "--no-verify"@, after, home);
    lemma_switch_force(before, "-f"@, after, home);
    lemma_switch_force(before, "--force"@, after, home);
    lemma_switch_noresume(before, "--no-resume"@, after, home);
}

/// What the other shared switches turn on, and that each turns on nothing else.
pub proof fn lemma_more_switches(before: Seq<Seq<char>>, after: Seq<Seq<char>>, home: Seq<char>)
    requires
        words(before),
        words(after),
        sought(before, before + after),
    ensures
        asks(
            before + seq!["--allow-http"@] + after,
            home,
            search_for(before + after),
            (GlobalView { allow_http: true, ..untouched() }),
        ),
        asks(
            before + seq!["--allow-private-hosts"@] + after,
            home,
            search_for(before + after),
            (GlobalView { allow_private_hosts: true, ..untouched() }),
        ),
        asks(
            before + seq!["--no-color"@] + after,
            home,
            search_for(before + after),
            (GlobalView { no_color: true, ..untouched() }),
        ),
        asks(
            before + seq!["--no-colour"@] + after,
            home,
            search_for(before + after),
            (GlobalView { no_color: true, ..untouched() }),
        ),
        asks(
            before + seq!["--plain"@] + after,
            home,
            search_for(before + after),
            (GlobalView { no_color: true, ..untouched() }),
        ),
        asks(
            before + seq!["-q"@] + after,
            home,
            search_for(before + after),
            (GlobalView { quiet: true, ..untouched() }),
        ),
        asks(
            before + seq!["--quiet"@] + after,
            home,
            search_for(before + after),
            (GlobalView { quiet: true, ..untouched() }),
        ),
        asks(
            before + seq!["--no-covers"@] + after,
            home,
            search_for(before + after),
            (GlobalView { no_covers: true, ..untouched() }),
        ),
{
    lemma_names_d();
    lemma_names_e();
    lemma_switch_allowhttp(before, "--allow-http"@, after, home);
    lemma_switch_allowprivatehosts(before, "--allow-private-hosts"@, after, home);
    lemma_switch_nocolor(before, "--no-color"@, after, home);
    lemma_switch_nocolor(before, "--no-colour"@, after, home);
    lemma_switch_nocolor(before, "--plain"@, after, home);
    lemma_switch_quiet(before, "-q"@, after, home);
    lemma_switch_quiet(before, "--quiet"@, after, home);
    lemma_switch_nocovers(before, "--no-covers"@, after, home);
}

/// The options whose value is kept as it was given.
pub proof fn lemma_text_options(
    before: Seq<Seq<char>>,
    v: Seq<char>,
    after: Seq<Seq<char>>,
    home: Seq<char>,
)
    requires
        words(before),
        words(after),
        plain(v),
        sought(before, before + after),
    ensures
        args::parsed(before + seq!["-l"@, v] + after, home) == searching(
            SearchView { language: Some(v), ..search_for(before + after) },
            untouched(),
        ),
        args::parsed(before + seq!["--lang"@, v] + after, home) == searching(
            SearchView { language: Some(v), ..search_for(before + after) },
            untouched(),
        ),
        args::parsed(before + seq!["--language"@, v] + after, home) == searching(
            SearchView { language: Some(v), ..search_for(before + after) },
            untouched(),
        ),
        args::parsed(before + seq!["-o"@, v] + after, home) == searching(
            search_for(before + after),
            GlobalView { output: Some(v), ..untouched() },
        ),
        args::parsed(before + seq!["--output"@, v] + after, home) == searching(
            search_for(before + after),
            GlobalView { output: Some(v), ..untouched() },
        ),
        args::parsed(before + seq!["--with"@, v] + after, home) == searching(
            search_for(before + after),
            GlobalView { reader: Some(v), ..untouched() },
        ),
{
    lemma_names_b();
    lemma_names_c();
    lemma_names_e();
    lemma_valued(before, "-l"@, Flag::Lang, v, after, home);
    lemma_valued(before, "--lang"@, Flag::Lang, v, after, home);
    lemma_valued(before, "--language"@, Flag::Lang, v, after, home);
    lemma_valued(before, "-o"@, Flag::Output, v, after, home);
    lemma_valued(before, "--output"@, Flag::Output, v, after, home);
    lemma_valued(before, "--with"@, Flag::With, v, after, home);
}

/// The limit is the number that was given, though never more than a hundred;
/// none at all is refused.
pub proof fn lemma_limit_option(
    before: Seq<Seq<char>>,
    v: Seq<char>,
    after: Seq<Seq<char>>,
    home: Seq<char>,
    n: nat,
)
    requires
        words(before),
        words(after),
        plain(v),
        sought(before, before + after),
        text::number(v) == Some(n),
    ensures
        1 <= n <= usize::MAX ==> args::parsed(before + seq!["-n"@, v] + after, home) == searching(
            SearchView {
                limit: Some(
                    if n <= 100 {
                        n as usize
                    } else {
                        100usize
                    },
                ),
                ..search_for(before + after)
            },
            untouched(),
        ),
        n == 0 || n > usize::MAX ==> args::parsed(before + seq!["-n"@, v] + after, home) is Err,
        1 <= n <= usize::MAX ==> args::parsed(before + seq!["--limit"@, v] + after, home) == searching(
            SearchView {
                limit: Some(
                    if n <= 100 {
                        n as usize
                    } else {
                        100usize
                    },
                ),
                ..search_for(before + after)
            },
            untouched(),
        ),
        n == 0 || n > usize::MAX ==> args::parsed(before + seq!["--limit"@, v] + after, home) is Err,
{
    lemma_names_b();
    lemma_valued(before, "-n"@, Flag::Limit, v, after, home);
    lemma_valued(before, "--limit"@, Flag::Limit, v, after, home);
}

/// A limit that is no number is refused.
pub proof fn lemma_limit_is_a_number(
    before: Seq<Seq<char>>,
    v: Seq<char>,
    after: Seq<Seq<char>>,
    home: Seq<char>,
)
    requires
        words(before),
        words(after),
        plain(v),
        sought(before, before + after),
        text::number(v) is None,
    ensures
        args::parsed(before + seq!["-n"@, v] + after, home) is Err,
        args::parsed(before + seq!["--limit"@, v] + after, home) is Err,
{
    lemma_names_b();
    lemma_valued(before, "-n"@, Flag::Limit, v, after, home);
    lemma_valued(before, "--limit"@, Flag::Limit, v, after, home);
}

proof fn lemma_run_end_skips(v: Seq<char>, c: char, i: int)
    requires
        1 <= i <= v.len(),
    ensures
        text::run_end(v, c, i) == text::run_end(v.skip(1), c, i - 1) + 1,
        i <= text::run_end(v, c, i) <= v.len(),
    decreases v.len() - i,
{
    if i < v.len() {
        assert(v.skip(1)[i - 1] == v[i]);
        lemma_run_end_skips(v, c, i + 1);
    }
}

/// The format is kept in lower case, and a dot before it does not matter.
pub proof fn lemma_format_option(
    before: Seq<Seq<char>>,
    v: Seq<char>,
    after: Seq<Seq<char>>,
    home: Seq<char>,
)
    requires
        words(before),
        words(after),
        plain(v),
        sought(before, before + after),
    ensures
        v.len() == 0 || v[0] != '.' ==> args::parsed(before + seq!["-e"@, v] + after, home) == searching(
            SearchView {
                extension: Some(text::ascii_lower(v)),
                ..search_for(before + after)
            },
            untouched(),
        ),
        v.len() > 0 && v[0] == '.' ==> args::parsed(before + seq!["-e"@, v] + after, home) == args::parsed(
            before + seq!["-e"@, v.skip(1)] + after,
            home,
        ) || !plain(v.skip(1)),
        v.len() == 0 || v[0] != '.' ==> args::parsed(before + seq!["--ext"@, v] + after, home) == searching(
            SearchView {
                extension: Some(text::ascii_lower(v)),
                ..search_for(before + after)
            },
            untouched(),
        ),
        v.len() > 0 && v[0] == '.' ==> args::parsed(before + seq!["--ext"@, v] + after, home) == args::parsed(
            before + seq!["--ext"@, v.skip(1)] + after,
            home,
        ) || !plain(v.skip(1)),
        v.len() == 0 || v[0] != '.' ==> args::parsed(before + seq!["--extension"@, v] + after, home) == searching(
            SearchView {
                extension: Some(text::ascii_lower(v)),
                ..search_for(before + after)
            },
            untouched(),
        ),
        v.len() > 0 && v[0] == '.' ==> args::parsed(before + seq!["--extension"@, v] + after, home) == args::parsed(
            before + seq!["--extension"@, v.skip(1)] + after,
            home,
        ) || !plain(v.skip(1)),
{
    lemma_names_b();
    lemma_valued(before, "-e"@, Flag::Ext, v, after, home);
    if plain(v.skip(1)) {
        lemma_valued(before, "-e"@, Flag::Ext, v.skip(1), after, home);
    }
    lemma_valued(before, "--ext"@, Flag::Ext, v, after, home);
    if plain(v.skip(1)) {
        lemma_valued(before, "--ext"@, Flag::Ext, v.skip(1), after, home);
    }
    lemma_valued(before, "--extension"@, Flag::Ext, v, after, home);
    if plain(v.skip(1)) {
        lemma_valued(before, "--extension"@, Flag::Ext, v.skip(1), after, home);
    }
    if v.len() == 0 || v[0] != '.' {
        assert(text::stripped_start(v, '.') =~= v);
    } else {
        lemma_run_end_skips(v, '.', 1);
        assert(text::stripped_start(v, '.') =~= text::stripped_start(v.skip(1), '.'));
    }
}

/// The directory is the one that was given, a leading `~` standing for home.
pub proof fn lemma_directory_option(
    before: Seq<Seq<char>>,
    v: Seq<char>,
    after: Seq<Seq<char>>,
    home: Seq<char>,
)
    requires
        words(before),
        words(after),
        plain(v),
        sought(before, before + after),
    ensures
        args::parsed(before + seq!["-d"@, v] + after, home) == searching(
            search_for(before + after),
            GlobalView { dest_dir: Some(config::expanded(v, home)), ..untouched() },
        ),
        args::parsed(before + seq!["--dir"@, v] + after, home) == searching(
            search_for(before + after),
            GlobalView { dest_dir: Some(config::expanded(v, home)), ..untouched() },
        ),
{
    lemma_names_c();
    lemma_valued(before, "-d"@, Flag::Dir, v, after, home);
    lemma_valued(before, "--dir"@, Flag::Dir, v, after, home);
}

/// The mirrors are those on the list that was given.
pub proof fn lemma_mirror_option(
    before: Seq<Seq<char>>,
    v: Seq<char>,
    after: Seq<Seq<char>>,
    home: Seq<char>,
)
    requires
        words(before),
        words(after),
        plain(v),
        sought(before, before + after),
    ensures
        args::parsed(before + seq!["-m"@, v] + after, home) == searching(
            search_for(before + after),
            GlobalView { mirrors: text::list_items(v), ..untouched() },
        ),
        args::parsed(before + seq!["--mirror"@, v] + after, home) == searching(
            search_for(before + after),
            GlobalView { mirrors: text::list_items(v), ..untouched() },
        ),
{
    lemma_names_c();
    lemma_valued(before, "-m"@, Flag::Mirror, v, after, home);
    lemma_valued(before, "--mirror"@, Flag::Mirror, v, after, home);
    assert(Seq::<Seq<char>>::empty() + text::list_items(v) =~= text::list_items(v));
}

/// The largest size is the size that was given; what is no size is refused.
pub proof fn lemma_max_size_option(
    before: Seq<Seq<char>>,
    v: Seq<char>,
    after: Seq<Seq<char>>,
    home: Seq<char>,
)
    requires
        words(before),
        words(after),
        plain(v),
        sought(before, before + after),
    ensures
        model::size_of_text(v) is Some && model::size_of_text(v)->0 <= u64::MAX ==> args::parsed(before + seq!["--max-size"@, v] + after, home) == searching(
            search_for(before + after),
            GlobalView { max_size: Some(model::size_of_text(v)->0 as u64), ..untouched() },
        ),
        model::size_of_text(v) is None || model::size_of_text(v)->0 > u64::MAX ==> args::parsed(before + seq!["--max-size"@, v] + after, home) is Err,
{
    lemma_names_d();
    lemma_valued(before, "--max-size"@, Flag::MaxSize, v, after, home);
}

#[verifier::spinoff_prover]
proof fn lemma_topics_spelled()
    ensures
        "libgen"@.len() == 6,
        "libgen"@[0] == 'l',
        "libgen"@[1] == 'i',
        "libgen"@[2] == 'b',
        "libgen"@[3] == 'g',
        "libgen"@[4] == 'e',
        "libgen"@[5] == 'n',
        "fiction"@.len() == 7,
        "fiction"@[0] == 'f',
        "fiction"@[1] == 'i',
        "fiction"@[2] == 'c',
        "fiction"@[3] == 't',
        "fiction"@[4] == 'i',
        "fiction"@[5] == 'o',
        "fiction"@[6] == 'n',
        "comics"@.len() == 6,
        "comics"@[0] == 'c',
        "comics"@[1] == 'o',
        "comics"@[2] == 'm',
        "comics"@[3] == 'i',
        "comics"@[4] == 'c',
        "comics"@[5] == 's',
        "magazines"@.len() == 9,
        "magazines"@[0] == 'm',
        "magazines"@[1] == 'a',
        "magazines"@[2] == 'g',
        "magazines"@[3] == 'a',
        "magazines"@[4] == 'z',
        "magazines"@[5] == 'i',
        "magazines"@[6] == 'n',
        "magazines"@[7] == 'e',
        "magazines"@[8] == 's',
        "standards"@.len() == 9,
        "standards"@[0] == 's',
        "standards"@[1] == 't',
        "standards"@[2] == 'a',
        "standards"@[3] == 'n',
        "standards"@[4] == 'd',
        "standards"@[5] == 'a',
        "standards"@[6] == 'r',
        "standards"@[7] == 'd',
        "standards"@[8] == 's',
        "russian"@.len() == 7,
        "russian"@[0] == 'r',
        "russian"@[1] == 'u',
        "russian"@[2] == 's',
        "russian"@[3] == 's',
        "russian"@[4] == 'i',
        "russian"@[5] == 'a',
        "russian"@[6] == 'n',
{
    reveal_strlit("libgen");
    reveal_strlit("fiction");
    reveal_strlit("comics");
    reveal_strlit("magazines");
    reveal_strlit("standards");
    reveal_strlit("russian");
}

proof fn lemma_topic_names()
    ensures
        model::topic_named("libgen"@) == Some(Topic::Libgen),
        text::list_items("libgen"@) == seq!["libgen"@],
        model::topic_named("fiction"@) == Some(Topic::Fiction),
        text::list_items("fiction"@) == seq!["fiction"@],
        model::topic_named("comics"@) == Some(Topic::Comics),
        text::list_items("comics"@) == seq!["comics"@],
        model::topic_named("magazines"@) == Some(Topic::Magazines),
        text::list_items("magazines"@) == seq!["magazines"@],
        model::topic_named("standards"@) == Some(Topic::Standards),
        text::list_items("standards"@) == seq!["standards"@],
        model::topic_named("russian"@) == Some(Topic::Russian),
        text::list_items("russian"@) == seq!["russian"@],
{
    lemma_topics_spelled();
    lemma_plain_item("libgen"@);
    lemma_plain_item("fiction"@);
    lemma_plain_item("comics"@);
    lemma_plain_item("magazines"@);
    lemma_plain_item("standards"@);
    lemma_plain_item("russian"@);
}

proof fn lemma_plain_item(s: Seq<char>)
    requires
        s.len() > 0,
        forall|i: int| 0 <= i < s.len() ==> 'a' <= #[trigger] s[i] <= 'z',
    ensures
        text::list_items(s) == seq![s],
        text::ascii_lower(text::trimmed(s)) == s,
{
    text::lemma_trimmed_is(s, 0, s.len() as int);
    assert(s.subrange(0, s.len() as int) =~= s);
    assert(text::ascii_lower(s) =~= s);
    let one = text::joined(seq![s], seq![',']);
    text::lemma_pieces_of_joined(seq![s], ',');
    reveal_with_fuel(text::listed, 3);
    assert(text::pieces(s, ',', 0) == seq![s]);
    assert(seq![s].drop_last() =~= seq![]);
    assert(text::listed(seq![s]) =~= seq![s]);
}

/// A topic that is named is the one that is searched.
pub proof fn lemma_topic_option(before: Seq<Seq<char>>, after: Seq<Seq<char>>, home: Seq<char>)
    requires
        words(before),
        words(after),
        sought(before, before + after),
    ensures
        args::parsed(before + seq!["--topic"@, "libgen"@] + after, home) == searching(
            SearchView { topics: seq![Topic::Libgen], ..search_for(before + after) },
            untouched(),
        ),
        args::parsed(before + seq!["--topic"@, "fiction"@] + after, home) == searching(
            SearchView { topics: seq![Topic::Fiction], ..search_for(before + after) },
            untouched(),
        ),
        args::parsed(before + seq!["--topic"@, "comics"@] + after, home) == searching(
            SearchView { topics: seq![Topic::Comics], ..search_for(before + after) },
            untouched(),
        ),
        args::parsed(before + seq!["--topic"@, "magazines"@] + after, home) == searching(
            SearchView { topics: seq![Topic::Magazines], ..search_for(before + after) },
            untouched(),
        ),
        args::parsed(before + seq!["--topic"@, "standards"@] + after, home) == searching(
            SearchView { topics: seq![Topic::Standards], ..search_for(before + after) },
            untouched(),
        ),
        args::parsed(before + seq!["--topic"@, "russian"@] + after, home) == searching(
            SearchView { topics: seq![Topic::Russian], ..search_for(before + after) },
            untouched(),
        ),
{
    lemma_names_b();
    lemma_topic_names();
    lemma_topics_spelled();
    lemma_one_topic(before, "libgen"@, after, home, Topic::Libgen);
    lemma_one_topic(before, "fiction"@, after, home, Topic::Fiction);
    lemma_one_topic(before, "comics"@, after, home, Topic::Comics);
    lemma_one_topic(before, "magazines"@, after, home, Topic::Magazines);
    lemma_one_topic(before, "standards"@, after, home, Topic::Standards);
    lemma_one_topic(before, "russian"@, after, home, Topic::Russian);
}

proof fn lemma_one_topic(
    before: Seq<Seq<char>>,
    v: Seq<char>,
    after: Seq<Seq<char>>,
    home: Seq<char>,
    t: Topic,
)
    requires
        words(before),
        words(after),
        plain(v),
        sought(before, before + after),
        text::list_items(v) == seq![v],
        model::topic_named(v) == Some(t),
    ensures
        args::parsed(before + seq!["--topic"@, v] + after, home) == searching(
            SearchView { topics: seq![t], ..search_for(before + after) },
            untouched(),
        ),
{
    lemma_names_b();
    lemma_valued(before, "--topic"@, Flag::Topics, v, after, home);
    reveal_with_fuel(model::topics_named, 2);
    reveal_with_fuel(model::first_unknown_topic, 2);
    assert(seq![v].drop_last() =~= seq![]);
    assert(Seq::<Topic>::empty() + Seq::<Topic>::empty().push(t) =~= seq![t]);
    assert(model::topics_named(seq![v]) == Some(Seq::<Topic>::empty().push(t)));
}

// ---------------------------------------------------------------------------
// What each command asks for
// ---------------------------------------------------------------------------

#[verifier::spinoff_prover]
proof fn lemma_commands_spelled()
    ensures
        "search"@.len() == 6,
        "search"@[0] == 's',
        "search"@[1] == 'e',
        "search"@[2] == 'a',
        "search"@[3] == 'r',
        "search"@[4] == 'c',
        "search"@[5] == 'h',
        "get"@.len() == 3,
        "get"@[0] == 'g',
        "get"@[1] == 'e',
        "get"@[2] == 't',
        "mirrors"@.len() == 7,
        "mirrors"@[0] == 'm',
        "mirrors"@[1] == 'i',
        "mirrors"@[2] == 'r',
        "mirrors"@[3] == 'r',
        "mirrors"@[4] == 'o',
        "mirrors"@[5] == 'r',
        "mirrors"@[6] == 's',
        "history"@.len() == 7,
        "history"@[0] == 'h',
        "history"@[1] == 'i',
        "history"@[2] == 's',
        "history"@[3] == 't',
        "history"@[4] == 'o',
        "history"@[5] == 'r',
        "history"@[6] == 'y',
        "open"@.len() == 4,
        "open"@[0] == 'o',
        "open"@[1] == 'p',
        "open"@[2] == 'e',
        "open"@[3] == 'n',
        "reveal"@.len() == 6,
        "reveal"@[0] == 'r',
        "reveal"@[1] == 'e',
        "reveal"@[2] == 'v',
        "reveal"@[3] == 'e',
        "reveal"@[4] == 'a',
        "reveal"@[5] == 'l',
        "config"@.len() == 6,
        "config"@[0] == 'c',
        "config"@[1] == 'o',
        "config"@[2] == 'n',
        "config"@[3] == 'f',
        "config"@[4] == 'i',
        "config"@[5] == 'g',
        "doctor"@.len() == 6,
        "doctor"@[0] == 'd',
        "doctor"@[1] == 'o',
        "doctor"@[2] == 'c',
        "doctor"@[3] == 't',
        "doctor"@[4] == 'o',
        "doctor"@[5] == 'r',
        "help"@.len() == 4,
        "help"@[0] == 'h',
        "help"@[1] == 'e',
        "help"@[2] == 'l',
        "help"@[3] == 'p',
        "version"@.len() == 7,
        "version"@[0] == 'v',
        "version"@[1] == 'e',
        "version"@[2] == 'r',
        "version"@[3] == 's',
        "version"@[4] == 'i',
        "version"@[5] == 'o',
        "version"@[6] == 'n',
        "tui"@.len() == 3,
        "tui"@[0] == 't',
        "tui"@[1] == 'u',
        "tui"@[2] == 'i',
{
    reveal_strlit("search");
    reveal_strlit("get");
    reveal_strlit("mirrors");
    reveal_strlit("history");
    reveal_strlit("open");
    reveal_strlit("reveal");
    reveal_strlit("config");
    reveal_strlit("doctor");
    reveal_strlit("help");
    reveal_strlit("version");
    reveal_strlit("tui");
}

proof fn lemma_command_read(name: Seq<char>, ws: Seq<Seq<char>>, home: Seq<char>)
    requires
        args::is_subcommand(name),
        words(ws),
    ensures
        args::parsed(seq![name] + ws, home) == (match args::concluded(
            Some(name),
            DraftView { positionals: ws, ..args::blank_draft() },
        ) {
            Err(e) => Err::<CliView, Seq<char>>(e),
            Ok(command) => Ok(CliView { command, global: untouched() }),
        }),
{
    let a = seq![name] + ws;
    let none = Seq::<Seq<char>>::empty();
    assert(a.subrange(1, a.len() as int) =~= ws);
    assert(ws.subrange(0, ws.len() as int) =~= ws);
    lemma_words(ws, 0, ws.len() as int, args::blank_draft(), home);
    assert(none + ws =~= ws);
}

proof fn lemma_command_switched(name: Seq<char>, opt: Seq<char>, f: Flag, home: Seq<char>)
    requires
        args::is_subcommand(name),
        dashed(opt),
        args::flag_named(opt) == Some(f),
        !args::takes_value(f),
        f != Flag::Help,
        f != Flag::Version,
    ensures
        args::parsed(seq![name, opt], home) == (match args::concluded(
            Some(name),
            args::switched(args::blank_draft(), f),
        ) {
            Err(e) => Err::<CliView, Seq<char>>(e),
            Ok(command) => Ok(
                CliView { command, global: args::switched(args::blank_draft(), f).global },
            ),
        }),
{
    let a = seq![name, opt];
    let none = Seq::<Seq<char>>::empty();
    lemma_uncut(opt);
    assert(a.subrange(1, 2) =~= none + seq![opt] + none);
    assert(args::blank_draft().positionals =~= none);
    assert((none + seq![opt] + none)[0] == opt);
    lemma_around(none, seq![opt], none, args::switched(args::blank_draft(), f), home);
    assert(none + none =~= none);
}

proof fn lemma_command_valued(
    name: Seq<char>,
    opt: Seq<char>,
    f: Flag,
    v: Seq<char>,
    home: Seq<char>,
)
    requires
        args::is_subcommand(name),
        dashed(opt),
        args::flag_named(opt) == Some(f),
        args::takes_value(f),
        plain(v),
        args::valued(args::blank_draft(), f, v, home) is Ok,
        f !is Column,
    ensures
        ({
            let d = args::valued(args::blank_draft(), f, v, home)->Ok_0;
            args::parsed(seq![name, opt, v], home) == (match args::concluded(Some(name), d) {
                Err(e) => Err::<CliView, Seq<char>>(e),
                Ok(command) => Ok(CliView { command, global: d.global }),
            })
        }),
{
    let a = seq![name, opt, v];
    let none = Seq::<Seq<char>>::empty();
    lemma_uncut(opt);
    assert(a.subrange(1, 3) =~= none + seq![opt, v] + none);
    assert(args::blank_draft().positionals =~= none);
    assert((none + seq![opt, v] + none)[0] == opt);
    assert((none + seq![opt, v] + none)[1] == v);
    let d = args::valued(args::blank_draft(), f, v, home)->Ok_0;
    lemma_around(none, seq![opt, v], none, d, home);
    assert(none + none =~= none);
    assert(d.positionals + none =~= d.positionals);
}

/// A command line that asks for a command and nothing else.
pub open spec fn only(command: CommandView) -> Result<CliView, Seq<char>> {
    Ok(CliView { command, global: untouched() })
}

/// What `help` asks for.
pub proof fn lemma_help_command(ws: Seq<Seq<char>>, home: Seq<char>)
    requires
        words(ws),
    ensures
        args::parsed(seq!["help"@] + ws, home) == only(CommandView::Help),
{
    lemma_commands_spelled();
    lemma_command_read("help"@, ws, home);
}

/// What `version` asks for.
pub proof fn lemma_version_command(ws: Seq<Seq<char>>, home: Seq<char>)
    requires
        words(ws),
    ensures
        args::parsed(seq!["version"@] + ws, home) == only(CommandView::Version),
{
    lemma_commands_spelled();
    lemma_command_read("version"@, ws, home);
}

/// What `doctor` asks for.
pub proof fn lemma_doctor_command(ws: Seq<Seq<char>>, home: Seq<char>)
    requires
        words(ws),
    ensures
        args::parsed(seq!["doctor"@] + ws, home) == only(CommandView::Doctor),
{
    lemma_commands_spelled();
    lemma_command_read("doctor"@, ws, home);
}

/// What `mirrors` asks for.
pub proof fn lemma_mirrors_command(ws: Seq<Seq<char>>, home: Seq<char>)
    requires
        words(ws),
    ensures
        args::parsed(seq!["mirrors"@] + ws, home) == only(CommandView::Mirrors { refresh: false }),
{
    lemma_commands_spelled();
    lemma_command_read("mirrors"@, ws, home);
}

/// What `config` asks for.
pub proof fn lemma_config_command(ws: Seq<Seq<char>>, home: Seq<char>)
    requires
        words(ws),
    ensures
        args::parsed(seq!["config"@] + ws, home) == only(CommandView::Config { init: false, path: false }),
{
    lemma_commands_spelled();
    lemma_command_read("config"@, ws, home);
}

/// `history` alone lists the past downloads.
pub proof fn lemma_history_command(ws: Seq<Seq<char>>, home: Seq<char>)
    requires
        words(ws),
    ensures
        ws.len() == 0 ==> args::parsed(seq!["history"@] + ws, home) == only(
            CommandView::History { limit: None, clear: false },
        ),
{
    lemma_commands_spelled();
    lemma_command_read("history"@, ws, home);
}

/// `open` alone opens the latest download.
pub proof fn lemma_open_command(ws: Seq<Seq<char>>, home: Seq<char>)
    requires
        words(ws),
    ensures
        ws.len() == 0 ==> args::parsed(seq!["open"@] + ws, home) == only(
            CommandView::Open { selector: seq![], reveal: false, with: None },
        ),
{
    lemma_commands_spelled();
    lemma_command_read("open"@, ws, home);
}

/// `reveal` alone shows the latest download.
pub proof fn lemma_reveal_command(ws: Seq<Seq<char>>, home: Seq<char>)
    requires
        words(ws),
    ensures
        ws.len() == 0 ==> args::parsed(seq!["reveal"@] + ws, home) == only(
            CommandView::Open { selector: seq![], reveal: true, with: None },
        ),
{
    lemma_commands_spelled();
    lemma_command_read("reveal"@, ws, home);
}

/// `get` needs to be told what to get.
pub proof fn lemma_get_command(ws: Seq<Seq<char>>, home: Seq<char>)
    requires
        words(ws),
    ensures
        ws.len() == 0 ==> args::parsed(seq!["get"@] + ws, home) is Err,
{
    lemma_commands_spelled();
    lemma_command_read("get"@, ws, home);
}

/// `tui` opens the interface, with the words after it in the search box.
pub proof fn lemma_tui_command(ws: Seq<Seq<char>>, home: Seq<char>)
    requires
        words(ws),
    ensures
        ws.len() == 0 ==> args::parsed(seq!["tui"@] + ws, home) == only(CommandView::Tui(None)),
        ws.len() > 0 ==> args::parsed(seq!["tui"@] + ws, home) == only(
            CommandView::Tui(Some(text::joined(ws, " "@))),
        ),
{
    lemma_commands_spelled();
    lemma_command_read("tui"@, ws, home);
}

/// `search` searches for the words after it, which may be a command's name.
pub proof fn lemma_search_command(ws: Seq<Seq<char>>, home: Seq<char>)
    requires
        words(ws),
    ensures
        ws.len() == 0 ==> args::parsed(seq!["search"@] + ws, home) == only(CommandView::Tui(None)),
        ws.len() > 1 || ws.len() == 1 && !model::md5_shaped(ws[0]) ==> args::parsed(seq!["search"@] + ws, home) == only(CommandView::Search(search_for(ws))),
{
    lemma_commands_spelled();
    lemma_command_read("search"@, ws, home);
}

/// `open` and `reveal` with a number or an MD5 name that past download, and only
/// `reveal` shows it in the file manager.
pub proof fn lemma_open_names_a_download(w: Seq<char>, home: Seq<char>)
    requires
        words(seq![w]),
        (text::number(w) is Some && text::number(w)->0 <= usize::MAX) || model::md5_shaped(w),
    ensures
        args::parsed(seq!["open"@, w], home) == only(
            CommandView::Open { selector: w, reveal: false, with: None },
        ),
        args::parsed(seq!["reveal"@, w], home) == only(
            CommandView::Open { selector: w, reveal: true, with: None },
        ),
{
    lemma_commands_spelled();
    lemma_command_read("open"@, seq![w], home);
    lemma_command_read("reveal"@, seq![w], home);
    assert(seq!["open"@] + seq![w] =~= seq!["open"@, w]);
    assert(seq!["reveal"@] + seq![w] =~= seq!["reveal"@, w]);
}

/// `get` with an MD5 asks for that MD5, in lower case.
pub proof fn lemma_get_asks_for_the_md5(m: Seq<char>, home: Seq<char>)
    requires
        words(seq![m]),
        text::trimmed(m) == m,
        model::md5_shaped(m),
    ensures
        args::parsed(seq!["get"@, m], home) == only(CommandView::Get(text::ascii_lower(m))),
{
    lemma_commands_spelled();
    lemma_command_read("get"@, seq![m], home);
    assert(seq!["get"@] + seq![m] =~= seq!["get"@, m]);
}

/// The switches that only one command has.
pub proof fn lemma_command_switches(home: Seq<char>)
    ensures
        args::parsed(seq!["history"@, "--clear"@], home) == only(
            CommandView::History { limit: None, clear: true },
        ),
        args::parsed(seq!["config"@, "--init"@], home) == only(
            CommandView::Config { init: true, path: false },
        ),
        args::parsed(seq!["config"@, "--path"@], home) == only(
            CommandView::Config { init: false, path: true },
        ),
        args::parsed(seq!["mirrors"@, "--refresh"@], home) == Ok::<CliView, Seq<char>>(
            CliView {
                command: CommandView::Mirrors { refresh: true },
                global: GlobalView { refresh_mirrors: true, ..untouched() },
            },
        ),
{
    lemma_commands_spelled();
    lemma_names_f();
    lemma_names_d();
    lemma_command_switched("history"@, "--clear"@, Flag::Clear, home);
    lemma_command_switched("config"@, "--init"@, Flag::Init, home);
    lemma_command_switched("config"@, "--path"@, Flag::Path, home);
    lemma_command_switched("mirrors"@, "--refresh"@, Flag::Refresh, home);
}

/// The values that go with a command: how much of the history, which download
/// to open, and what to open it with.
pub proof fn lemma_command_values(v: Seq<char>, n: nat, home: Seq<char>)
    requires
        plain(v),
    ensures
        text::number(v) == Some(n) && 1 <= n <= 100 ==> args::parsed(
            seq!["history"@, "--limit"@, v],
            home,
        ) == only(CommandView::History { limit: Some(n as usize), clear: false }),
        args::parsed(seq!["open"@, "--find"@, v], home) == only(
            CommandView::Open { selector: v, reveal: false, with: None },
        ),
        args::parsed(seq!["reveal"@, "--find"@, v], home) == only(
            CommandView::Open { selector: v, reveal: true, with: None },
        ),
        args::parsed(seq!["open"@, "--with"@, v], home) == Ok::<CliView, Seq<char>>(
            CliView {
                command: CommandView::Open { selector: seq![], reveal: false, with: Some(v) },
                global: GlobalView { reader: Some(v), ..untouched() },
            },
        ),
{
    lemma_commands_spelled();
    lemma_names_b();
    lemma_names_e();
    if text::number(v) == Some(n) && 1 <= n <= 100 {
        lemma_command_valued("history"@, "--limit"@, Flag::Limit, v, home);
    }
    lemma_command_valued("open"@, "--find"@, Flag::Find, v, home);
    lemma_command_valued("reveal"@, "--find"@, Flag::Find, v, home);
    lemma_command_valued("open"@, "--with"@, Flag::With, v, home);
}

/// Asking for help or for the version settles the matter, whatever else there is.
pub proof fn lemma_help_settles(before: Seq<Seq<char>>, after: Seq<Seq<char>>, home: Seq<char>)
    requires
        words(before),
        before.len() > 0 ==> !args::is_subcommand(before[0]),
    ensures
        args::parsed(before + seq!["-h"@] + after, home) == only(CommandView::Help),
        args::parsed(before + seq!["--help"@] + after, home) == only(CommandView::Help),
        args::parsed(before + seq!["-V"@] + after, home) == only(CommandView::Version),
        args::parsed(before + seq!["--version"@] + after, home) == only(CommandView::Version),
{
    lemma_names_a();
    lemma_settled(before, "-h"@, after, home);
    lemma_settled(before, "--help"@, after, home);
    lemma_settled(before, "-V"@, after, home);
    lemma_settled(before, "--version"@, after, home);
}

proof fn lemma_settled(before: Seq<Seq<char>>, opt: Seq<char>, after: Seq<Seq<char>>, home: Seq<char>)
    requires
        words(before),
        before.len() > 0 ==> !args::is_subcommand(before[0]),
        dashed(opt),
        args::flag_named(opt) == Some(Flag::Help) || args::flag_named(opt) == Some(Flag::Version),
    ensures
        args::parsed(before + seq![opt] + after, home) == only(
            if args::flag_named(opt) == Some(Flag::Help) {
                CommandView::Help
            } else {
                CommandView::Version
            },
        ),
{
    let a = before + seq![opt] + after;
    lemma_uncut(opt);
    lemma_no_command(before, opt, after);
    assert(a =~= before + (seq![opt] + after));
    assert(a[before.len() as int] == opt);
    lemma_stopped(before, seq![opt], after, home);
}

} // verus!
