//! Tests for line extraction and alias-file parsing.

use hostsync::parse::{add_hosts_to_map, extract_hosts, parse_lines};
use hostsync::table::AliasTable;

fn lines(v: &[&str]) -> Vec<String> {
    v.iter().map(|s| s.to_string()).collect()
}

#[test]
fn test_extract_hosts_ok() {
    let input = "127.0.0.1   localhost localhost.localdomain localhost4 localhost4.localdomain4";
    let result = extract_hosts(input);
    let expected = String::from(
        "127.0.0.1   localhost localhost.localdomain localhost4 localhost4.localdomain4",
    );
    assert_eq!(result, expected);
}

#[test]
fn test_extract_hosts_commented() {
    let input = "# 192.168.1.10 foo.example.org foo";
    let result = extract_hosts(input);
    let expected = String::from("");
    assert_eq!(result, expected);
}

#[test]
fn test_extract_hosts_empty_line() {
    let input = "";
    let result = extract_hosts(input);
    let expected = String::from("");
    assert_eq!(result, expected);
}

#[test]
fn extract_hosts_trims_surrounding_whitespace() {
    let result = extract_hosts("  10.0.0.5 nas \t");
    assert_eq!(result, String::from("10.0.0.5 nas"));
}

#[test]
fn extract_hosts_treats_unicode_whitespace_like_ascii() {
    // A no-break space before the comment sign still hides the line.
    assert_eq!(extract_hosts("\u{a0}# comment 9.9.9.9 x"), String::from(""));
    // Unicode whitespace is trimmed at both ends, inner spacing is kept.
    assert_eq!(extract_hosts("\u{2003}10.0.0.5 nas\u{a0}"), String::from("10.0.0.5 nas"));
}

#[test]
fn parse_splits_on_unicode_whitespace() {
    let t = parse_lines(&lines(&["10.0.0.5\u{a0}nas\u{2003}backup"]));
    assert_eq!(t.len(), 1);
    let ns = t.lookup(&"10.0.0.5".to_string()).unwrap();
    assert_eq!(ns, &lines(&["nas", "backup"]));
}

#[test]
fn parse_collects_addresses_and_names() {
    let t = parse_lines(&lines(&["127.0.0.1 localhost", "10.0.0.5 nas nas.local"]));
    assert_eq!(t.len(), 2);
    let ns = t.lookup(&"10.0.0.5".to_string()).unwrap();
    assert_eq!(ns, &lines(&["nas", "nas.local"]));
    let ns4 = t.lookup(&"127.0.0.1".to_string()).unwrap();
    assert_eq!(ns4, &lines(&["localhost"]));
}

#[test]
fn parse_same_file_twice_gives_equal_tables() {
    let src = lines(&["127.0.0.1 localhost", "10.0.0.5 nas nas.local", "# note", ""]);
    let t1 = parse_lines(&src);
    let t2 = parse_lines(&src);
    assert_eq!(t1, t2);
}

#[test]
fn parse_skips_comment_line_entirely() {
    // Scenario: a comment mentioning an address contributes no entry for it.
    let t = parse_lines(&lines(&["   # comment with ip 9.9.9.9 x"]));
    assert_eq!(t.len(), 0);
    assert!(t.lookup(&"9.9.9.9".to_string()).is_none());
}

#[test]
fn parse_drops_address_without_names() {
    // Scenario: an address token alone contributes no entry.
    let t = parse_lines(&lines(&["10.0.0.5"]));
    assert_eq!(t.len(), 0);
    assert!(t.lookup(&"10.0.0.5".to_string()).is_none());
}

#[test]
fn parse_merges_repeated_address_lines() {
    let t = parse_lines(&lines(&["10.0.0.5 nas", "10.0.0.5 nas nas.local"]));
    assert_eq!(t.len(), 1);
    let ns = t.lookup(&"10.0.0.5".to_string()).unwrap();
    assert_eq!(ns, &lines(&["nas", "nas.local"]));
}

#[test]
fn add_hosts_to_map_deduplicates_names() {
    let mut t = AliasTable::new();
    add_hosts_to_map("10.0.0.5 nas backup nas", &mut t);
    let ns = t.lookup(&"10.0.0.5".to_string()).unwrap();
    assert_eq!(ns, &lines(&["nas", "backup"]));
}
