use tomesole::error::Error;
use tomesole::launch::{
    display_path, file_uri, open, plan_failure, resolve, reveal_file, run_failure, Attempt, Failure,
    Plan, Resolved, System,
};

fn words(v: &[&str]) -> Vec<String> {
    v.iter().map(|s| s.to_string()).collect()
}

/// Opening and revealing both begin by resolving the path.
#[test]
fn a_missing_file_is_reported_clearly() {
    let err = resolve("/definitely/not/here.epub", Resolved::Gone)
        .unwrap_err()
        .message()
        .to_string();
    assert!(err.contains("no longer there"), "got: {err}");
}

#[test]
fn only_files_and_directories_are_handed_over() {
    let real = Resolved::Real("/books/dune.epub".to_string());
    assert_eq!(resolve("dune.epub", real).unwrap(), "/books/dune.epub");
    let odd = Resolved::Odd("/dev/null".to_string());
    assert!(resolve("/dev/null", odd).is_err());
}

#[test]
fn file_uris_escape_what_they_must() {
    assert_eq!(
        file_uri("/books/A Book & Co.epub"),
        "file:///books/A%20Book%20%26%20Co.epub"
    );
}

#[test]
fn file_uris_escape_beyond_ascii() {
    assert_eq!(file_uri("/é"), "file:///%C3%A9");
}

/// The config calls `reader` a command, so one with arguments has to work.
#[test]
fn a_command_for_a_reader_is_split_into_words() {
    let plan = open(
        System::Freedesktop,
        "/books/dune.epub",
        &Some("true --page 3".to_string()),
    );
    assert_eq!(
        plan.attempts,
        [Attempt::Detach(
            "true".to_string(),
            words(&["--page", "3", "/books/dune.epub"])
        )]
    );
}

#[test]
fn without_a_reader_the_desktop_decides() {
    let plan = open(System::Mac, "/books/dune.epub", &None);
    assert_eq!(
        plan.attempts,
        [Attempt::Run("open".to_string(), words(&["/books/dune.epub"]))]
    );
    let plan = open(System::Windows, "C:\\books\\dune.epub", &None);
    assert_eq!(
        plan.attempts,
        [Attempt::Shell("C:\\books\\dune.epub".to_string())]
    );
}

#[test]
fn a_file_is_shown_in_its_folder() {
    let plan = reveal_file(System::Mac, "/books/dune.epub");
    assert_eq!(
        plan.attempts,
        [Attempt::Run(
            "open".to_string(),
            words(&["-R", "/books/dune.epub"])
        )]
    );
}

#[test]
fn a_launcher_that_fails_is_quoted() {
    let err = run_failure("xdg-open", "no such handler\nmore\n");
    assert!(err.message().contains("no such handler"), "{err:?}");
    let plan = Plan {
        attempts: Vec::new(),
        failure: Failure::Instead("nothing could open it".to_string()),
    };
    assert_eq!(
        plan_failure(plan, Error::new("last".to_string())).message(),
        "nothing could open it"
    );
    let reader = Some("nonesuch --page 3".to_string());
    let plan = open(System::Freedesktop, "/books/dune.epub", &reader);
    assert_eq!(
        plan_failure(plan, Error::new("not found".to_string())).message(),
        "could not start `nonesuch` — is it installed and on your PATH?: not found"
    );
    let plan = open(System::Mac, "/books/dune.epub", &None);
    assert_eq!(plan.failure, Failure::Own);
    assert_eq!(
        plan_failure(plan, Error::new("last".to_string())).message(),
        "last"
    );
}

#[test]
fn extended_windows_paths_are_shown_plainly() {
    assert_eq!(display_path("\\\\?\\C:\\books"), "C:\\books");
    assert_eq!(display_path("/books"), "/books");
}
