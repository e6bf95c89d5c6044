use tomesole::net::{hosts_agree, host_of, join_uri, put_together};

#[test]
fn a_reference_is_looked_up_from_the_mirror() {
    let at = |base: &str, r: &str| join_uri(base, r).unwrap();
    let base = "https://mirror.example";
    assert_eq!(at(base, "file.php?id=7"), "https://mirror.example/file.php?id=7");
    assert_eq!(at(base, "/covers/1.jpg"), "https://mirror.example/covers/1.jpg");
    assert_eq!(at(base, "//cdn.example/1.jpg"), "https://cdn.example/1.jpg");
    assert_eq!(at("http://m.example:8080/a/b.php?q=1", "c.jpg"), "http://m.example:8080/a/c.jpg");
    assert_eq!(at("http://m.example:8080/a/b.php", "/c.jpg"), "http://m.example:8080/c.jpg");
    assert_eq!(at("mirror.example", "/c.jpg"), "https://mirror.example/c.jpg");
}

#[test]
fn only_a_scheme_makes_an_address_of_its_own() {
    let base = "https://mirror.example/";
    for own in ["https://other.example/x", "HTTP://other.example", "data:image/png;base64,AA"] {
        assert_eq!(join_uri(base, own).unwrap(), own);
    }
    assert_eq!(
        join_uri(base, "go.php?to=https://other.example/x").unwrap(),
        "https://mirror.example/go.php?to=https://other.example/x"
    );
    assert_eq!(join_uri(base, "1x:y").unwrap(), "https://mirror.example/1x:y");
    assert_eq!(join_uri(base, ":y").unwrap(), "https://mirror.example/:y");
}

#[test]
fn an_address_without_a_host_joins_nothing() {
    let e = join_uri("/just/a/path", "x").unwrap_err();
    assert_eq!(e.text, "`/just/a/path` names no host");
    assert!(join_uri("not an address", "x").is_err());
    assert_eq!(join_uri("", "https://a.example/x").unwrap(), "https://a.example/x");
}

#[test]
fn an_address_is_put_together_from_its_parts() {
    let scheme = Some("ftp".to_string());
    assert_eq!(put_together(scheme, "h", "/a/b", ""), "ftp://h/a/");
    assert_eq!(put_together(None, "h", "", "x"), "https://h/x");
}

#[test]
fn hosts_are_compared_without_their_case() {
    let host = |s: &str| host_of(s).ok();
    assert_eq!(host("https://Mirror.Example/x").as_deref(), Some("Mirror.Example"));
    assert!(hosts_agree(&host("https://a.example"), &host("https://A.EXAMPLE/x")));
    assert!(!hosts_agree(&host("https://a.example"), &host("https://b.example")));
    assert!(!hosts_agree(&None, &None));
}
