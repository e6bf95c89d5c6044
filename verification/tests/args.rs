use tomesole::args::{help_text, parse, Cli, Command, Search};
use tomesole::config::Env;
use tomesole::error::Error;
use tomesole::model::{Field, Topic};
use tomesole::term::Style;

fn env() -> Env {
    Env {
        home: Some("/home/reader".to_string()),
        config_home: None,
        cache_home: None,
        data_home: None,
    }
}

fn parse_args(args: &[&str]) -> Result<Cli, Error> {
    let owned: Vec<String> = args.iter().map(|s| s.to_string()).collect();
    parse(&owned, &env())
}

fn search_of(cli: Cli) -> Search {
    match cli.command {
        Command::Search(s) => s,
        other => panic!("expected a search, got {other:?}"),
    }
}

fn fault(args: &[&str]) -> String {
    parse_args(args).unwrap_err().message().to_string()
}

#[test]
fn bare_words_are_a_search() {
    let s = search_of(parse_args(&["the", "pragmatic", "programmer"]).unwrap());
    assert_eq!(s.terms, ["the", "pragmatic", "programmer"]);
}

#[test]
fn explicit_search_subcommand_works_too() {
    let s = search_of(parse_args(&["search", "dune"]).unwrap());
    assert_eq!(s.terms, ["dune"]);
}

#[test]
fn field_flags_scope_the_query() {
    let s = search_of(parse_args(&["-a", "Le Guin", "-e", "EPUB"]).unwrap());
    assert_eq!(s.terms, ["Le Guin"]);
    assert_eq!(s.fields, [Field::Author]);
    assert_eq!(s.extension.as_deref(), Some("epub"));
}

#[test]
fn leading_dot_on_extension_is_tolerated() {
    let s = search_of(parse_args(&["dune", "--ext", ".pdf"]).unwrap());
    assert_eq!(s.extension.as_deref(), Some("pdf"));
}

#[test]
fn equals_form_is_equivalent() {
    let a = search_of(parse_args(&["dune", "--limit=10"]).unwrap());
    let b = search_of(parse_args(&["dune", "--limit", "10"]).unwrap());
    assert_eq!(a.limit, Some(10));
    assert_eq!(a.limit, b.limit);
}

#[test]
fn limit_is_validated_and_capped() {
    assert!(parse_args(&["x", "-n", "abc"]).is_err());
    assert!(parse_args(&["x", "-n", "0"]).is_err());
    assert_eq!(
        search_of(parse_args(&["x", "-n", "9999"]).unwrap()).limit,
        Some(100)
    );
}

#[test]
fn topics_accept_lists() {
    let s = search_of(parse_args(&["x", "--topic", "fiction,comics"]).unwrap());
    assert_eq!(s.topics, [Topic::Fiction, Topic::Comics]);
    assert!(parse_args(&["x", "--topic", "nonsense"]).is_err());
}

#[test]
fn a_bare_md5_downloads_directly() {
    let cli = parse_args(&["1b9159991f7fb1b3910c0be9ebf7e595"]).unwrap();
    assert_eq!(
        cli.command,
        Command::Get {
            md5: "1b9159991f7fb1b3910c0be9ebf7e595".into()
        }
    );
}

#[test]
fn get_accepts_urls_containing_an_md5() {
    for input in [
        "https://libgen.li/ads.php?md5=1B9159991F7FB1B3910C0BE9EBF7E595",
        "https://libgen.li/main/1b9159991f7fb1b3910c0be9ebf7e595",
        "1b9159991f7fb1b3910c0be9ebf7e595",
    ] {
        let cli = parse_args(&["get", input]).unwrap();
        assert_eq!(
            cli.command,
            Command::Get {
                md5: "1b9159991f7fb1b3910c0be9ebf7e595".into()
            }
        );
    }
    assert!(parse_args(&["get", "nonsense"]).is_err());
    assert!(parse_args(&["get"]).is_err());
}

#[test]
fn subcommands_are_recognised() {
    assert_eq!(
        parse_args(&["mirrors"]).unwrap().command,
        Command::Mirrors { refresh: false }
    );
    assert_eq!(
        parse_args(&["mirrors", "--refresh"]).unwrap().command,
        Command::Mirrors { refresh: true }
    );
    assert_eq!(parse_args(&["doctor"]).unwrap().command, Command::Doctor);
    assert_eq!(
        parse_args(&["config", "--init"]).unwrap().command,
        Command::Config {
            init: true,
            path: false
        }
    );
}

/// A bare command line opens the interface; the program swaps in help when there
/// is no terminal to draw on.
#[test]
fn no_arguments_opens_the_interface() {
    assert_eq!(
        parse_args(&[]).unwrap().command,
        Command::Tui { query: None }
    );
    assert_eq!(
        parse_args(&["tui", "dune"]).unwrap().command,
        Command::Tui {
            query: Some("dune".into())
        }
    );
    assert_eq!(parse_args(&["--help"]).unwrap().command, Command::Help);
    assert_eq!(parse_args(&["-V"]).unwrap().command, Command::Version);
}

#[test]
fn global_safety_flags_are_collected() {
    let cli = parse_args(&[
        "dune",
        "--no-verify",
        "--force",
        "--allow-http",
        "--max-size",
        "500 MB",
        "-d",
        "/tmp/books",
    ])
    .unwrap();
    assert_eq!(cli.global.verify, Some(false));
    assert!(cli.global.force);
    assert!(cli.global.allow_http);
    assert_eq!(cli.global.max_size, Some(500 * 1024 * 1024));
    assert_eq!(cli.global.dest_dir, Some("/tmp/books".to_string()));
}

#[test]
fn mirrors_can_be_repeated_or_listed() {
    let cli = parse_args(&["dune", "-m", "https://a.example", "-m", "https://b.example"]).unwrap();
    assert_eq!(
        cli.global.mirrors,
        ["https://a.example", "https://b.example"]
    );

    let cli = parse_args(&["dune", "-m", "https://a.example,https://b.example"]).unwrap();
    assert_eq!(
        cli.global.mirrors,
        ["https://a.example", "https://b.example"]
    );
}

#[test]
fn unknown_flags_are_rejected() {
    let err = fault(&["dune", "--nonsense"]);
    assert!(err.contains("unknown option"), "{err}");
}

#[test]
fn missing_values_are_rejected() {
    assert!(parse_args(&["dune", "--limit"]).is_err());
    assert!(parse_args(&["--author"]).is_err());
    // A following flag is not a value.
    assert!(parse_args(&["--author", "--json"]).is_err());
}

#[test]
fn double_dash_stops_flag_parsing() {
    let s = search_of(parse_args(&["--", "--not-a-flag"]).unwrap());
    assert_eq!(s.terms, ["--not-a-flag"]);
}

#[test]
fn queries_that_look_like_negative_numbers_still_work() {
    let s = search_of(parse_args(&["catch", "-", "22"]).unwrap());
    assert_eq!(s.terms, ["catch", "-", "22"]);
}

#[test]
fn a_home_relative_directory_is_expanded() {
    let cli = parse_args(&["dune", "-d", "~/Books"]).unwrap();
    assert_eq!(cli.global.dest_dir, Some("/home/reader/Books".to_string()));
}

#[test]
fn the_history_takes_a_limit_and_can_be_cleared() {
    assert_eq!(
        parse_args(&["history"]).unwrap().command,
        Command::History {
            limit: None,
            clear: false
        }
    );
    assert_eq!(
        parse_args(&["history", "-n", "5"]).unwrap().command,
        Command::History {
            limit: Some(5),
            clear: false
        }
    );
    assert_eq!(
        parse_args(&["history", "--clear"]).unwrap().command,
        Command::History {
            limit: None,
            clear: true
        }
    );
}

fn opening(args: &[&str]) -> (String, bool, Option<String>) {
    match parse_args(args).unwrap().command {
        Command::Open {
            selector,
            reveal,
            with,
        } => (selector, reveal, with),
        other => panic!("expected to open, got {other:?}"),
    }
}

#[test]
fn a_past_download_is_opened_by_its_number_or_found_by_its_name() {
    assert_eq!(opening(&["open"]), ("".to_string(), false, None));
    assert_eq!(opening(&["open", "1"]), ("1".to_string(), false, None));
    assert_eq!(opening(&["reveal", "1"]), ("1".to_string(), true, None));
    assert_eq!(
        opening(&["open", "--with", "Preview", "2"]),
        ("2".to_string(), false, Some("Preview".to_string()))
    );
    assert_eq!(
        opening(&["open", "--find", "dispossessed"]),
        ("dispossessed".to_string(), false, None)
    );
}

/// Some commands are also ordinary words you might want a book about, so they
/// only mean the command when what follows fits.
#[test]
fn ordinary_words_search_unless_they_fit_a_command() {
    let s = search_of(parse_args(&["history", "of", "the", "peloponnesian", "war"]).unwrap());
    assert_eq!(s.terms, ["history", "of", "the", "peloponnesian", "war"]);
    let s = search_of(parse_args(&["open", "water"]).unwrap());
    assert_eq!(s.terms, ["open", "water"]);
}

#[test]
fn help_names_the_program_and_every_subcommand() {
    let help = help_text(&Style::plain());
    assert!(help.starts_with("tomesole "));
    for word in ["search", "get", "mirrors", "history", "open", "config", "doctor"] {
        assert!(help.contains(word), "help does not mention {word}");
    }
}

#[test]
fn plain_help_holds_no_escape_codes() {
    assert!(!help_text(&Style::plain()).contains('\u{1b}'));
}

#[test]
fn the_two_forms_of_a_value_agree_wherever_they_stand() {
    let shown = |args: Vec<&str>| parse_args(&args).map(|c| format!("{c:?}")).ok();
    let before: [&[&str]; 6] = [
        &[],
        &["dune"],
        &["search", "-q"],
        &["get", "1b9159991f7fb1b3910c0be9ebf7e595"],
        &["--ext"],
        &["open", "--with", "zathura", "-"],
    ];
    let after: [&[&str]; 4] = [&[], &["messiah", "--json"], &["--", "-x"], &["--nonsense"]];
    let both = [
        ("--limit", "5"),
        ("-n", "many"),
        ("--author", "Le Guin"),
        ("-e", ""),
        ("--dir", "-"),
        ("--title", "a=b"),
    ];
    for xs in before {
        for ys in after {
            for (key, value) in both {
                let joined = format!("{key}={value}");
                let one = [xs, &[joined.as_str()], ys].concat();
                let two = [xs, &[key, value], ys].concat();
                assert_eq!(shown(one.clone()), shown(two), "{one:?}");
            }
        }
    }
}

#[test]
fn colour_changes_nothing_of_what_the_help_says() {
    let plain = help_text(&Style::plain());
    let painted = help_text(&Style { enabled: true });
    assert!(!plain.contains('\u{1b}'));
    assert!(painted.contains("\u{1b}["));
    let mut bare = String::new();
    let mut inside = false;
    for c in painted.chars() {
        if inside {
            inside = c != 'm';
        } else if c == '\u{1b}' {
            inside = true;
        } else {
            bare.push(c);
        }
    }
    assert_eq!(bare, plain);
}
