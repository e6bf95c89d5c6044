use tomesole::args::{parse, Command, Global, Search};
use tomesole::commands::{
    ambiguous_page, candidates, check_picks, cleared_text, config_page, doctor_mirrors,
    doctor_setup, error_text, exit_code, failed_note, failure_text, found_text, history_page,
    init_text, is_writable, mirrors_page, open_choice, opened_text, prefer, rank, reader_for,
    report, search_page, search_query, searching_note, settings, starting_text, version_text,
    wants_plain, Findings, Next, Settings,
};
use tomesole::config::{Config, Env};
use tomesole::error::Error;
use tomesole::graphics::Protocol;
use tomesole::history::{Disk, Entry, Outcome};
use tomesole::model::{Book, Field, SearchQuery, Topic};
use tomesole::term::Style;
use tomesole::ui::{Health, MirrorStatus};

fn env() -> Env {
    Env {
        home: Some("/home/reader".to_string()),
        config_home: None,
        cache_home: None,
        data_home: None,
    }
}

fn words(v: &[&str]) -> Vec<String> {
    v.iter().map(|s| s.to_string()).collect()
}

fn flags(args: &[&str]) -> Global {
    parse(&words(args), &env()).unwrap().global
}

fn search(args: &[&str]) -> Search {
    match parse(&words(args), &env()).unwrap().command {
        Command::Search(s) => s,
        other => panic!("expected a search, got {other:?}"),
    }
}

fn config(text: &str) -> Config {
    Config::parse(text, &env()).unwrap()
}

fn merged(args: &[&str], text: &str) -> Settings {
    settings(&flags(args), &config(text), &env(), true)
}

fn book() -> Book {
    Book {
        md5: "1b9159991f7fb1b3910c0be9ebf7e595".into(),
        title: "Dune".into(),
        size_bytes: Some(2048),
        ..Default::default()
    }
}

fn entry(name: &str) -> Entry {
    Entry {
        at: 1_700_000_000,
        md5: "1b9159991f7fb1b3910c0be9ebf7e595".into(),
        path: format!("/books/{name}.epub"),
        size: 1024,
        verified: true,
        title: name.to_string(),
        authors: None,
        extension: Some("epub".into()),
    }
}

fn up(base: &str, latency: u64) -> MirrorStatus {
    MirrorStatus {
        base: base.to_string(),
        outcome: Health::Healthy {
            latency,
            results: 25,
        },
    }
}

fn down(base: &str) -> MirrorStatus {
    MirrorStatus {
        base: base.to_string(),
        outcome: Health::Unhealthy("HTTP 500".to_string()),
    }
}

fn nowhere() -> Disk {
    Disk { files: Vec::new() }
}

#[test]
fn flags_come_before_the_config_and_that_before_the_defaults() {
    let s = merged(&["dune"], "");
    assert_eq!(s.dest_dir, "/home/reader/Downloads");
    assert!(s.verify && s.resume && s.history && s.covers);
    assert!(!s.policy.allow_http);

    let s = merged(&["dune"], "download_dir = /books\nverify = no\nallow_http = yes\ncovers = no");
    assert_eq!(s.dest_dir, "/books");
    assert!(!s.verify);
    assert!(s.policy.allow_http);
    assert!(!s.covers);

    let s = merged(&["dune", "-d", "/here", "-m", "https://a.example"], "download_dir = /books");
    assert_eq!(s.dest_dir, "/here");
    assert_eq!(s.mirrors, ["https://a.example"]);
}

#[test]
fn a_search_is_made_of_its_words_and_tags() {
    let q = search_query(&search(&["dune", "author:herbert", "ext:epub"]), &config("")).unwrap();
    assert_eq!(q.terms, "dune herbert");
    assert_eq!(q.fields, [Field::Author]);
    assert_eq!(q.extension.as_deref(), Some("epub"));
    let q = search_query(&search(&["dune"]), &config("limit = 7\ntopics = fiction")).unwrap();
    assert_eq!(q.limit, 7);
    assert_eq!(q.topics, [Topic::Fiction]);
    assert!(search_query(&search(&["ext:epub"]), &config("")).is_err());
}

#[test]
fn notes_name_what_they_are_about() {
    let q = SearchQuery::new("dune".to_string());
    assert_eq!(searching_note(&q), "searching for “dune”");
    assert_eq!(
        failed_note("libgen.li"),
        "libgen.li failed, trying another mirror"
    );
}

#[test]
fn results_lead_to_a_question_unless_told_otherwise() {
    let q = SearchQuery::new("dune".to_string());
    let s = merged(&["dune"], "");
    let style = Style::plain();
    let one = vec![book()];
    let (page, next) = search_page(&one, &q, &search(&["dune"]), &s, &style, 90, "libgen.li");
    assert_eq!(page.before, "\n  1 result from libgen.li\n\n");
    assert_eq!(next, Next::Ask);
    let (_, next) = search_page(
        &one,
        &q,
        &search(&["dune", "--first"]),
        &s,
        &style,
        90,
        "libgen.li",
    );
    assert_eq!(next, Next::Download(vec![0]));
    let (_, next) = search_page(
        &one,
        &q,
        &search(&["dune", "--no-download"]),
        &s,
        &style,
        90,
        "libgen.li",
    );
    assert_eq!(next, Next::Exit(0));
    let (page, next) = search_page(
        &Vec::new(),
        &q,
        &search(&["dune"]),
        &s,
        &style,
        90,
        "libgen.li",
    );
    assert!(page.before.contains("nothing found for “dune”"), "{page:?}");
    assert!(matches!(next, Next::Exit(_)));
}

#[test]
fn one_name_is_not_enough_for_several_files() {
    let s = merged(&["dune", "-o", "dune.epub"], "");
    assert!(check_picks(&vec![0], &s).is_ok());
    assert_eq!(
        check_picks(&vec![0, 1], &s).unwrap_err().message(),
        "--output names a single file, but 2 results were selected"
    );
    assert_eq!(exit_code(0), 0);
    assert_eq!(exit_code(3), 1);
}

#[test]
fn the_mirror_that_answered_is_preferred() {
    let pool = words(&["a", "b", "c"]);
    assert_eq!(prefer(&pool, "b"), ["b", "a", "c"]);
    assert_eq!(prefer(&pool, "z"), ["z", "a", "b", "c"]);
}

#[test]
fn candidates_are_not_repeated() {
    assert_eq!(
        candidates(&words(&["b", "x"]), &words(&["a", "b", "c"])),
        ["b", "x", "a", "c"]
    );
}

#[test]
fn mirrors_are_ranked_by_how_fast_they_answer() {
    let ranked = rank(vec![down("d"), up("slow", 100_900_000), up("fast", 100_100_000)]);
    let order: Vec<&str> = ranked.iter().map(|m| m.base.as_str()).collect();
    assert_eq!(order, ["fast", "slow", "d"]);
    // Those that rank alike keep their order.
    let ranked = rank(vec![down("b"), up("y", 7), down("a"), up("x", 7)]);
    let order: Vec<&str> = ranked.iter().map(|m| m.base.as_str()).collect();
    assert_eq!(order, ["y", "x", "b", "a"]);
}

#[test]
fn mirrors_are_counted_below_their_table() {
    let style = Style::plain();
    let (page, code) = mirrors_page(&vec![up("https://a.example", 100_900_000), down("https://b.example")], &style);
    assert!(page.after.contains("1 of 2 usable"), "{page:?}");
    assert!(page.out.contains("a.example"), "{page:?}");
    assert!(page.out.contains("100 ms, "), "{page:?}");
    assert_eq!(code, 0);
    assert_eq!(mirrors_page(&vec![down("https://b.example")], &style).1, 1);
    let (page, code) = doctor_mirrors(&vec![down("https://b.example")], &style);
    assert!(page.after.contains("no mirror is reachable"), "{page:?}");
    assert_eq!(code, 1);
}

#[test]
fn a_download_is_announced_and_reported() {
    let style = Style::plain();
    assert_eq!(starting_text(&book(), &style), "  ↓ Dune\n");
    assert_eq!(
        found_text(&book(), "libgen.li", &style),
        "\n  Dune via libgen.li\n\n"
    );
    let outcome = Outcome {
        path: "/books/Dune.epub".into(),
        bytes: 1024,
        verified: true,
        skipped: false,
    };
    let page = report(&outcome, &book(), &merged(&["dune"], ""), &style);
    assert_eq!(
        page.before,
        "  ✓ Dune.epub\n    /books · 1.00 KB · MD5 verified\n\n"
    );
    let page = report(&outcome, &book(), &merged(&["dune", "-q"], ""), &style);
    assert_eq!(page.out, "/books/Dune.epub\n");
    assert_eq!(page.before, "");
    let e = Error::new("it broke".to_string());
    assert_eq!(failure_text(&e, &style), "  ✗ it broke\n\n");
    assert_eq!(error_text(&e, &style), "\n  error: it broke\n\n");
}

#[test]
fn the_history_is_listed_and_cleared() {
    let style = Style::plain();
    let s = merged(&["history"], "");
    let (page, code) = history_page(
        vec![entry("Dune"), entry("Emma")],
        Some(1),
        &nowhere(),
        1_700_000_000,
        90,
        &s,
        &style,
    );
    assert!(page.out.contains("Dune") && !page.out.contains("Emma"), "{page:?}");
    assert_eq!(code, 0);
    let (page, _) = history_page(Vec::new(), None, &nowhere(), 0, 90, &s, &style);
    assert!(page.before.contains("nothing downloaded yet"), "{page:?}");
    assert_eq!(
        cleared_text(&style),
        "  ✓ download history and cached covers cleared\n\n"
    );
}

#[test]
fn what_to_open_may_be_one_several_or_none() {
    let style = Style::plain();
    let all = vec![entry("Dune"), entry("Dune Messiah")];
    assert_eq!(open_choice(&all, "messiah").unwrap().len(), 1);
    assert_eq!(open_choice(&all, "dune").unwrap().len(), 2);
    assert!(open_choice(&Vec::new(), "dune").is_err());
    let page = ambiguous_page(&all, "dune", &nowhere(), 0, 90, &style);
    assert!(page.before.contains("2 downloads match “dune”"), "{page:?}");
    assert_eq!(
        opened_text(&all[0], false, &style),
        "\n  ✓ opening Dune.epub\n    /books/Dune.epub\n\n"
    );
}

#[test]
fn a_reader_named_on_the_command_line_wins() {
    let s = merged(&["dune"], "reader = zathura");
    assert_eq!(reader_for(&None, &s).as_deref(), Some("zathura"));
    assert_eq!(
        reader_for(&Some("Preview".to_string()), &s).as_deref(),
        Some("Preview")
    );
}

#[test]
fn the_config_is_shown_or_started() {
    let style = Style::plain();
    assert_eq!(init_text("/c", false, &style), "  ✓ wrote /c\n\n");
    assert!(init_text("/c", true, &style).contains("already exists"));
    let page = config_page("/c", &Some("limit = 5\n".to_string()), &style);
    assert_eq!((page.before.as_str(), page.out.as_str()), ("  /c\n\n", "limit = 5\n"));
    assert!(config_page("/c", &None, &style).before.contains("no config yet at /c"));
}

#[test]
fn the_doctor_says_where_things_are() {
    let found = Findings {
        config_exists: false,
        writable: true,
        recorded: 3,
        protocol: Protocol::Kitty,
        covers: 2,
        cover_bytes: 2048,
    };
    let said = doctor_setup(&merged(&["doctor"], ""), &found, &env(), &Style::plain());
    assert!(said.contains("tomesole doctor"), "{said}");
    assert!(said.contains("/home/reader/Downloads"), "{said}");
    assert!(said.contains("yes"), "{said}");
}

#[test]
fn a_directory_can_be_written_to_or_made() {
    assert!(is_writable(true, false, None));
    assert!(!is_writable(true, true, None));
    assert!(is_writable(false, false, Some((true, false))));
    assert!(!is_writable(false, false, Some((true, true))));
    assert!(!is_writable(false, false, None));
}

#[test]
fn plain_text_can_be_asked_for_by_three_names() {
    for flag in ["--no-color", "--no-colour", "--plain"] {
        assert!(wants_plain(&words(&["dune", flag])));
    }
    assert!(!wants_plain(&words(&["dune", "--json"])));
    assert_eq!(version_text(), "tomesole 0.1.0\n");
}

#[test]
fn a_flag_that_names_collections_beats_a_tag_and_a_tag_beats_the_config() {
    let topics = |args: &[&str], text: &str| search_query(&search(args), &config(text)).unwrap().topics;
    let set = "topics = magazines";
    assert_eq!(topics(&["dune", "topic:comics", "--topic", "fiction"], set), [Topic::Fiction]);
    assert_eq!(topics(&["dune", "topic:comics"], set), [Topic::Comics]);
    assert_eq!(topics(&["dune"], set), [Topic::Magazines]);
    assert_eq!(topics(&["dune"], ""), [Topic::Libgen, Topic::Fiction]);
}
