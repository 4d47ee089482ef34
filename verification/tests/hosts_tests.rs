use gwd::error::{map_io_failure, AppError};
use gwd::hosts::{block_website, get_hosts_path, unblock_website};
use gwd::matcher::line_matches;

const ENTRY: &[u8] = b"0.0.0.0 example.com # Blocked by gwd";
const ENTRY_WWW: &[u8] = b"0.0.0.0 www.example.com # Blocked by gwd";

fn blocked(contents: &[u8], domain: &str) -> Vec<u8> {
    let outcome = block_website(domain, contents).unwrap();
    let mut new_contents = contents.to_vec();
    new_contents.extend_from_slice(&outcome.append);
    new_contents
}

#[test]
fn test_matcher_false_positive_resistance() {
    // a line for another domain that merely ends in the queried one
    assert!(!line_matches(b"0.0.0.0 notexample.com # Blocked by gwd", b"example.com"));
    // ... and one that merely starts with it
    assert!(!line_matches(b"0.0.0.0 example.com.evil.org # Blocked by gwd", b"example.com"));
    assert!(line_matches(ENTRY, b"example.com"));
}

#[test]
fn test_matcher_accepts_field_variations() {
    assert!(line_matches(b"0.0.0.0 example.com", b"example.com"));
    assert!(line_matches(b"  0.0.0.0\texample.com   # some comment", b"example.com"));
    assert!(line_matches(b"0.0.0.0   example.com\t", b"example.com"));
    assert!(line_matches(b"0.0.0.0 example.com\r", b"example.com"));
}

#[test]
fn test_matcher_rejects_other_lines() {
    assert!(!line_matches(b"127.0.0.1 example.com", b"example.com"));
    assert!(!line_matches(b"0.0.0.0 example.com trailing", b"example.com"));
    assert!(!line_matches(b"# 0.0.0.0 example.com", b"example.com"));
    assert!(!line_matches(b"", b"example.com"));
    assert!(!line_matches(b"0.0.0.0", b"example.com"));
}

#[test]
fn test_block_adds_two_entries() {
    let outcome = block_website("example.com", b"").unwrap();
    assert!(outcome.added_bare);
    assert!(outcome.added_www);
    assert_eq!(
        outcome.append,
        b"0.0.0.0 example.com # Blocked by gwd\n0.0.0.0 www.example.com # Blocked by gwd\n"
    );
}

#[test]
fn test_block_idempotent() {
    // blocking twice yields exactly two new lines in total, not four
    let once = blocked(b"", "example.com");
    let outcome = block_website("example.com", &once).unwrap();
    assert!(!outcome.added_bare);
    assert!(!outcome.added_www);
    assert_eq!(outcome.append, b"");
    let twice = blocked(&once, "example.com");
    assert_eq!(twice, once);
    assert_eq!(once.split(|b| *b == b'\n').filter(|l| !l.is_empty()).count(), 2);
}

#[test]
fn test_block_preserves_unrelated_content() {
    let new_contents = blocked(b"127.0.0.1 localhost\n", "example.com");
    let lines: Vec<&[u8]> = new_contents.split(|b| *b == b'\n').collect();
    assert_eq!(lines[0], b"127.0.0.1 localhost");
    assert_eq!(lines[1], ENTRY);
    assert_eq!(lines[2], ENTRY_WWW);
}

#[test]
fn test_block_adds_only_missing_variant() {
    let mut contents = ENTRY.to_vec();
    contents.push(b'\n');
    let outcome = block_website("example.com", &contents).unwrap();
    assert!(!outcome.added_bare);
    assert!(outcome.added_www);
    assert_eq!(outcome.append, b"0.0.0.0 www.example.com # Blocked by gwd\n");
}

#[test]
fn test_block_missing_trailing_newline() {
    // the new entries must each stand on their own line
    let new_contents = blocked(b"127.0.0.1 localhost", "example.com");
    assert_eq!(
        &new_contents[..],
        &b"127.0.0.1 localhost\n0.0.0.0 example.com # Blocked by gwd\n0.0.0.0 www.example.com # Blocked by gwd\n"[..]
    );
}

#[test]
fn test_block_detects_entry_on_crlf_line() {
    // an existing entry terminated by \r\n is still recognized, so no
    // duplicate is appended for it
    let contents: &[u8] = b"0.0.0.0 example.com # Blocked by gwd\r\n";
    let outcome = block_website("example.com", contents).unwrap();
    assert!(!outcome.added_bare);
    assert!(outcome.added_www);
}

#[test]
fn test_unblock_removes_indented_entry() {
    let contents: &[u8] = b"  0.0.0.0\texample.com # Blocked by gwd\n127.0.0.1 localhost\n";
    let outcome = unblock_website("example.com", contents).unwrap();
    assert_eq!(outcome.removed, 1);
    assert_eq!(outcome.contents, b"127.0.0.1 localhost\n");
}

#[test]
fn test_block_invalid_domain() {
    match block_website("https://", b"") {
        Err(AppError::InvalidDomain(s)) => assert_eq!(s, "https://"),
        other => panic!("expected InvalidDomain, got {:?}", other),
    }
}

#[test]
fn test_unblock_removes_exactly_owned_lines() {
    let mut contents = Vec::new();
    contents.extend_from_slice(ENTRY);
    contents.push(b'\n');
    contents.extend_from_slice(ENTRY_WWW);
    contents.push(b'\n');
    contents.extend_from_slice(b"127.0.0.1 localhost\n");
    let outcome = unblock_website("example.com", &contents).unwrap();
    assert_eq!(outcome.removed, 2);
    assert_eq!(outcome.contents, b"127.0.0.1 localhost\n");
}

#[test]
fn test_unblock_noop_leaves_bytes_unchanged() {
    let contents: &[u8] = b"127.0.0.1 localhost\n# a comment\r\nno trailing newline";
    let outcome = unblock_website("example.com", contents).unwrap();
    assert_eq!(outcome.removed, 0);
    assert_eq!(outcome.contents, contents);
}

#[test]
fn test_unblock_keeps_unrelated_lines_verbatim() {
    let contents: &[u8] =
        b"127.0.0.1 localhost\r\n0.0.0.0 example.com # Blocked by gwd\n# note\n";
    let outcome = unblock_website("example.com", contents).unwrap();
    assert_eq!(outcome.removed, 1);
    assert_eq!(outcome.contents, b"127.0.0.1 localhost\r\n# note\n");
}

#[test]
fn test_unblock_removes_crlf_terminated_entry() {
    let contents: &[u8] = b"0.0.0.0 example.com # Blocked by gwd\r\n127.0.0.1 localhost\n";
    let outcome = unblock_website("example.com", contents).unwrap();
    assert_eq!(outcome.removed, 1);
    assert_eq!(outcome.contents, b"127.0.0.1 localhost\n");
}

#[test]
fn test_unblock_invalid_domain() {
    assert!(matches!(unblock_website("", b""), Err(AppError::InvalidDomain(_))));
}

#[test]
fn test_unblock_normalizes_its_argument() {
    let mut contents = ENTRY.to_vec();
    contents.push(b'\n');
    let outcome = unblock_website("HTTP://Example.Com/", &contents).unwrap();
    assert_eq!(outcome.removed, 1);
    assert_eq!(outcome.contents, b"");
}

#[test]
fn test_get_hosts_path_unix_family() {
    for os in ["linux", "macos", "freebsd", "dragonfly", "openbsd", "netbsd"] {
        assert_eq!(get_hosts_path(os).unwrap(), "/etc/hosts");
    }
}

#[test]
fn test_get_hosts_path_windows() {
    assert_eq!(get_hosts_path("windows").unwrap(), "C:\\Windows\\System32\\drivers\\etc\\hosts");
}

#[test]
fn test_get_hosts_path_unsupported_and_stable() {
    // an unknown platform fails, naming the platform, identically on
    // every call
    for _ in 0..2 {
        match get_hosts_path("plan9") {
            Err(AppError::UnsupportedOS(os)) => assert_eq!(os, "plan9"),
            other => panic!("expected UnsupportedOS, got {:?}", other),
        }
    }
}

#[test]
fn test_map_io_failure_permission() {
    match map_io_failure(true, "/etc/hosts", "permission denied") {
        AppError::PermissionDenied(p) => assert_eq!(p, "/etc/hosts"),
        other => panic!("expected PermissionDenied, got {:?}", other),
    }
}

#[test]
fn test_map_io_failure_generic() {
    match map_io_failure(false, "/etc/hosts", "disk on fire") {
        AppError::Io(m) => {
            assert_eq!(m, "Failed to access hosts file at '/etc/hosts': disk on fire")
        },
        other => panic!("expected Io, got {:?}", other),
    }
}

#[test]
fn test_error_messages() {
    assert_eq!(
        AppError::InvalidDomain(String::from("x")).message(),
        "Invalid domain name: x"
    );
    assert_eq!(
        AppError::UnsupportedOS(String::from("plan9")).message(),
        "Could not determine hosts file path for this operating system: plan9"
    );
    assert_eq!(
        AppError::ChallengeFailed.message(),
        "Challenge failed: Incorrect sequence entered."
    );
    assert_eq!(
        AppError::PermissionDenied(String::from("/etc/hosts")).message(),
        "Permission denied accessing hosts file at '/etc/hosts'. This application requires root/administrator privileges."
    );
}
