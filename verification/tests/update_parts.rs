use rmon::update::{is_up_to_date, semver, tag_from_redirect};

#[test]
fn tag_parses_from_redirect_url() {
    assert_eq!(tag_from_redirect("https://github.com/pgkt04/rmon/releases/tag/v1.2.0"), Some("v1.2.0".into()));
    assert_eq!(
        tag_from_redirect(" Location: https://github.com/x/y/releases/tag/v2.0.0\r"),
        Some("v2.0.0".into())
    );
    // no redirect happened (rate limit page, error html, plain latest url)
    assert_eq!(tag_from_redirect("https://github.com/pgkt04/rmon/releases/latest"), None);
    assert_eq!(tag_from_redirect(""), None);
    // trailing path junk is not a tag
    assert_eq!(tag_from_redirect("https://g.com/releases/tag/v1/extra"), None);
}

#[test]
fn semver_parses_and_orders() {
    assert_eq!(semver("v1.2.3"), Some([1, 2, 3]));
    assert_eq!(semver("1.0.0"), Some([1, 0, 0]));
    assert_eq!(semver("v1.10.0"), Some([1, 10, 0]));
    assert_eq!(semver("nightly"), None);
    assert_eq!(semver("v1.2"), None);
    // array compare is lexicographic: exactly what semver needs
    assert!(semver("v1.10.0") > semver("v1.9.9"));
    assert!(semver("v2.0.0") > semver("v1.99.99"));
}

#[test]
fn up_to_date_compares_release_with_running_version() {
    assert!(is_up_to_date("v1.2.0", "1.2.0"));
    assert!(is_up_to_date("v1.1.9", "1.2.0"));
    assert!(!is_up_to_date("v1.10.0", "1.9.9"));
}
