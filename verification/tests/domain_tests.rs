use gwd::domain::format_domain_for_hosts;

#[test]
fn test_format_domain_for_hosts_simple() {
    assert_eq!(format_domain_for_hosts("example.com").unwrap(), "example.com");
}

#[test]
fn test_format_domain_for_hosts_http() {
    assert_eq!(format_domain_for_hosts("http://example.com").unwrap(), "example.com");
}

#[test]
fn test_format_domain_for_hosts_https() {
    assert_eq!(format_domain_for_hosts("https://example.com").unwrap(), "example.com");
}

#[test]
fn test_format_domain_for_hosts_trailing_slash() {
    assert_eq!(format_domain_for_hosts("example.com/").unwrap(), "example.com");
}

#[test]
fn test_format_domain_for_hosts_https_trailing_slash() {
    assert_eq!(format_domain_for_hosts("https://example.com/").unwrap(), "example.com");
}

#[test]
fn test_format_domain_for_hosts_mixed_case() {
    assert_eq!(format_domain_for_hosts("HTTPS://Example.Com/").unwrap(), "example.com");
}

#[test]
fn test_format_domain_for_hosts_with_www() {
    // format_domain should NOT strip www
    assert_eq!(format_domain_for_hosts("www.example.com").unwrap(), "www.example.com");
    assert_eq!(format_domain_for_hosts("http://www.example.com").unwrap(), "www.example.com");
}

#[test]
fn test_format_domain_for_hosts_invalid() {
    assert!(format_domain_for_hosts("").is_err());
    assert!(format_domain_for_hosts("http://").is_err());
    assert!(format_domain_for_hosts("https://").is_err());
}

#[test]
fn test_format_domain_scheme_and_slash_ignored() {
    // the same domain under every accepted decoration normalizes alike
    let want = format_domain_for_hosts("example.com").unwrap();
    for decorated in [
        "example.com",
        "example.com/",
        "http://example.com",
        "HTTP://example.com/",
        "https://example.com",
        "HTTPS://example.com/",
        "hTtPs://example.com",
    ] {
        assert_eq!(format_domain_for_hosts(decorated).unwrap(), want);
    }
}

#[test]
fn test_format_domain_www_distinct_from_bare() {
    let bare = format_domain_for_hosts("example.com").unwrap();
    let www = format_domain_for_hosts("www.example.com").unwrap();
    assert_ne!(bare, www);
}

#[test]
fn test_format_domain_single_slash_only() {
    assert!(format_domain_for_hosts("/").is_err());
}

#[test]
fn test_format_domain_strips_one_slash_only() {
    assert_eq!(format_domain_for_hosts("example.com//").unwrap(), "example.com/");
}

#[test]
fn test_format_domain_invalid_error_carries_input() {
    match format_domain_for_hosts("http://") {
        Err(gwd::error::AppError::InvalidDomain(s)) => assert_eq!(s, "http://"),
        other => panic!("expected InvalidDomain, got {:?}", other),
    }
}
