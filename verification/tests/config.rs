use tomesole::config::{
    cache_dir, config_path, cover_cache_dir, data_dir, default_download_dir, expand_tilde,
    history_path, Config, Env, Found,
};
use tomesole::model::Topic;

fn env() -> Env {
    Env {
        home: Some("/home/reader".to_string()),
        config_home: None,
        cache_home: None,
        data_home: None,
    }
}

#[test]
fn parses_a_full_config() {
    let cfg = Config::parse(
        r#"
            # a comment
            mirror = https://libgen.li
            mirror = https://libgen.gl
            download_dir = ~/Books
            limit = 50
            topics = libgen, fiction
            max_size = 2 GB
            verify = false
            allow_http = yes
            reader = Books
            history = no
            covers = off
            "#,
        &env(),
    )
    .unwrap();

    assert_eq!(cfg.mirrors, ["https://libgen.li", "https://libgen.gl"]);
    assert_eq!(cfg.limit, Some(50));
    assert_eq!(
        cfg.topics.as_deref(),
        Some(&[Topic::Libgen, Topic::Fiction][..])
    );
    assert_eq!(cfg.max_size, Some(2 * 1024 * 1024 * 1024));
    assert_eq!(cfg.verify, Some(false));
    assert!(cfg.allow_http);
    assert_eq!(cfg.reader.as_deref(), Some("Books"));
    assert_eq!(cfg.history, Some(false));
    assert_eq!(cfg.covers, Some(false));
    assert!(cfg.download_dir.unwrap().ends_with("Books"));
}

#[test]
fn comma_separated_mirrors_split() {
    let cfg = Config::parse("mirrors = https://a.example, https://b.example", &env()).unwrap();
    assert_eq!(cfg.mirrors, ["https://a.example", "https://b.example"]);
}

#[test]
fn empty_config_is_defaults() {
    let cfg = Config::parse("\n# only comments\n\n", &env()).unwrap();
    assert!(cfg.mirrors.is_empty());
    assert_eq!(cfg.limit, None);
}

#[test]
fn unknown_keys_are_ignored_not_fatal() {
    let cfg = Config::parse("future_option = 3\nlimit = 10", &env()).unwrap();
    assert_eq!(cfg.limit, Some(10));
}

#[test]
fn malformed_lines_are_reported_with_line_numbers() {
    let err = Config::parse("limit = 10\nthis is not valid\n", &env())
        .unwrap_err()
        .message()
        .to_string();
    assert!(err.contains("line 2"), "got: {err}");
}

#[test]
fn rejects_bad_values() {
    assert!(Config::parse("limit = many", &env()).is_err());
    assert!(Config::parse("topics = nonsense", &env()).is_err());
    assert!(Config::parse("verify = maybe", &env()).is_err());
}

#[test]
fn a_bad_limit_says_what_is_wrong_with_it() {
    let huge = "99999999999999999999999";
    let tail = format!("{huge}x");
    for v in ["many", "", "+", "-1", "1 2", huge, &tail] {
        let why = v.parse::<usize>().unwrap_err();
        let err = Config::parse(&format!("limit = {v}"), &env()).unwrap_err();
        assert_eq!(
            err.message(),
            format!("`limit` must be a number, got `{v}`: {why}")
        );
    }
}

#[test]
fn quotes_are_stripped() {
    let cfg = Config::parse("download_dir = \"/tmp/books\"", &env()).unwrap();
    assert_eq!(cfg.download_dir, Some("/tmp/books".to_string()));
}

#[test]
fn tilde_expands_to_home() {
    let expanded = expand_tilde("~/x", &env());
    assert!(expanded.starts_with("/") || expanded.starts_with("."));
    assert!(expanded.ends_with("x"));
    assert_eq!(expand_tilde("/abs/path", &env()), "/abs/path");
}

#[test]
fn a_home_of_its_own_is_expanded_too() {
    assert_eq!(expand_tilde("~", &env()), "/home/reader");
    assert_eq!(expand_tilde("~/a/b", &env()), "/home/reader/a/b");
}

#[test]
fn files_land_below_the_home_directory_unless_told_otherwise() {
    assert_eq!(
        config_path(&env()),
        "/home/reader/.config/tomesole/config.conf"
    );
    assert_eq!(cache_dir(&env()), "/home/reader/.cache/tomesole");
    assert_eq!(
        cover_cache_dir(&env()),
        "/home/reader/.cache/tomesole/covers"
    );
    assert_eq!(data_dir(&env()), "/home/reader/.local/share/tomesole");
    let moved = Env {
        home: Some("/home/reader".to_string()),
        config_home: None,
        cache_home: None,
        data_home: Some("/var/data".to_string()),
    };
    assert_eq!(history_path(&moved), "/var/data/tomesole/history.tsv");
}

#[test]
fn downloads_go_where_there_is_a_place_for_them() {
    assert_eq!(default_download_dir(&env(), true), "/home/reader/Downloads");
    assert_eq!(default_download_dir(&env(), false), ".");
}

#[test]
fn a_missing_config_is_no_fault_but_a_bad_one_names_its_file() {
    assert_eq!(Config::load(Found::Missing, &env()).unwrap().limit, None);
    let err = Config::load(Found::Text("limit = many".to_string()), &env()).unwrap_err();
    assert!(err
        .message()
        .starts_with("invalid config at /home/reader/.config/tomesole/config.conf: "));
}

#[test]
fn a_line_with_an_unknown_key_changes_nothing() {
    let shown = |s: &str| match Config::parse(s, &env()) {
        Ok(c) => format!("{c:?}"),
        Err(e) => e.text,
    };
    for text in [
        "",
        "limit = 7",
        "limit = 7\n",
        "limit = 7\r",
        "verify = no\r\n\r\n",
        "nonsense",
        "limit = lots",
        "mirror = https://a.example\nmirrors = https://b.example",
    ] {
        for line in ["colour = blue", "  Limits  =  3 ", " = nothing", "x = a = b", "y = \"z\"\r"] {
            assert_eq!(shown(&format!("{text}\n{line}")), shown(text), "{text:?} and {line:?}");
        }
        // A known one does.
        assert_ne!(shown(&format!("{text}\n history = no")), shown(""), "{text:?}");
    }
}
