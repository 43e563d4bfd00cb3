//! Tests for serialization: loopback placement, column padding, and the
//! parse/serialize round trip.

use hostsync::parse::parse_lines;
use hostsync::peers::{merge_peers, PeerRecord};
use hostsync::render::serialize_table;
use hostsync::table::AliasTable;

fn lines(v: &[&str]) -> Vec<String> {
    v.iter().map(|s| s.to_string()).collect()
}

fn peer(address: &str, name: &str) -> PeerRecord {
    PeerRecord { address: address.to_string(), name: name.to_string() }
}

#[test]
fn empty_table_writes_default_loopback_lines() {
    let t = AliasTable::new();
    let out = serialize_table(&t);
    assert_eq!(out, lines(&["127.0.0.1 localhost", "::1       localhost"]));
}

#[test]
fn empty_source_with_one_peer() {
    // Scenario: empty source file, tool reports one peer.
    let mut t = AliasTable::new();
    merge_peers(&mut t, &vec![peer("100.64.0.1", "laptop")]);
    let out = serialize_table(&t);
    assert_eq!(
        out,
        lines(&["127.0.0.1  localhost", "::1        localhost", "100.64.0.1 laptop"])
    );
}

#[test]
fn loopback_lines_come_first_whatever_the_entry_order() {
    let t = parse_lines(&lines(&[
        "10.0.0.5 nas",
        "::1 localhost ip6-localhost",
        "192.168.0.9 printer",
        "127.0.0.1 localhost router",
    ]));
    let out = serialize_table(&t);
    assert_eq!(out[0], "127.0.0.1   localhost router".to_string());
    assert_eq!(out[1], "::1         localhost ip6-localhost".to_string());
    assert_eq!(out[2], "10.0.0.5    nas".to_string());
    assert_eq!(out[3], "192.168.0.9 printer".to_string());
    assert_eq!(out.len(), 4);
}

#[test]
fn address_column_is_uniformly_padded() {
    let t = parse_lines(&lines(&["10.0.0.5 nas", "100.64.12.34 laptop"]));
    let out = serialize_table(&t);
    // Widest address is 100.64.12.34 (12 characters): every line has its
    // names starting at column 13.
    for line in &out {
        assert_eq!(line.chars().nth(12), Some(' '));
        assert_ne!(line.chars().nth(13), Some(' '));
    }
    assert_eq!(out[2], "10.0.0.5     nas".to_string());
    assert_eq!(out[3], "100.64.12.34 laptop".to_string());
}

#[test]
fn reparsing_serialized_output_reserializes_identically() {
    let mut t = parse_lines(&lines(&["10.0.0.5 nas nas.local", "192.168.0.9 printer"]));
    merge_peers(&mut t, &vec![peer("100.64.0.1", "laptop"), peer("10.0.0.5", "nas-ts")]);
    let first = serialize_table(&t);
    let reparsed = parse_lines(&first);
    let second = serialize_table(&reparsed);
    assert_eq!(first, second);
}

#[test]
fn reparsing_keeps_addresses_and_names() {
    let t = parse_lines(&lines(&["10.0.0.5 nas nas.local", "127.0.0.1 localhost"]));
    let reparsed = parse_lines(&serialize_table(&t));
    assert_eq!(
        reparsed.lookup(&"10.0.0.5".to_string()),
        t.lookup(&"10.0.0.5".to_string())
    );
    assert_eq!(
        reparsed.lookup(&"127.0.0.1".to_string()),
        t.lookup(&"127.0.0.1".to_string())
    );
}
