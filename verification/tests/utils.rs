use mailviewer_core::utils::uri_scheme;

#[test]
fn uri_schemes() {
    assert_eq!(uri_scheme("https://example.com").as_deref(), Some("https"));
    assert_eq!(uri_scheme("HTTPS://example.com").as_deref(), Some("https"));
    assert_eq!(
        uri_scheme("mailto:john@moon.space").as_deref(),
        Some("mailto")
    );
    assert_eq!(
        uri_scheme("javascript:alert(1)").as_deref(),
        Some("javascript")
    );
    assert_eq!(uri_scheme("file:///etc/passwd").as_deref(), Some("file"));
    assert_eq!(uri_scheme(""), None);
    assert_eq!(uri_scheme("no-scheme"), None);
    assert_eq!(uri_scheme("://example.com"), None);
    assert_eq!(uri_scheme("1http://example.com"), None);
}

#[test]
fn a_scheme_ends_at_the_first_colon() {
    assert_eq!(uri_scheme("a:b:c").as_deref(), Some("a"));
    assert_eq!(uri_scheme("x-y.z+1:").as_deref(), Some("x-y.z+1"));
    assert_eq!(uri_scheme("a b:c"), None);
    assert_eq!(uri_scheme("é:c"), None);
    assert_eq!(uri_scheme(" http://x"), None);
}

#[test]
fn the_scheme_of_a_scheme() {
    let scheme = uri_scheme("MailTo:x").unwrap();
    assert_eq!(uri_scheme(&format!("{scheme}:")), Some(scheme));
}
