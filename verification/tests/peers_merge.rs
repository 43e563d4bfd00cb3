//! Tests for peer extraction, tool classification, and merging.

use hostsync::parse::parse_lines;
use hostsync::peers::{
    classify_tool, extract_peer_records, merge_peers, PeerError, PeerRecord, ProbeOutcome,
    ToolStatus,
};
use hostsync::table::AliasTable;

fn lines(v: &[&str]) -> Vec<String> {
    v.iter().map(|s| s.to_string()).collect()
}

fn peer(address: &str, name: &str) -> PeerRecord {
    PeerRecord { address: address.to_string(), name: name.to_string() }
}

#[test]
fn classify_tool_covers_every_probe_outcome() {
    assert_eq!(classify_tool(&ProbeOutcome::Exited(true)), ToolStatus::Available);
    assert_eq!(classify_tool(&ProbeOutcome::Exited(false)), ToolStatus::Unhealthy);
    assert_eq!(classify_tool(&ProbeOutcome::LaunchNotFound), ToolStatus::NotFound);
    assert_eq!(classify_tool(&ProbeOutcome::LaunchFailed), ToolStatus::ProbeFailed);
}

#[test]
fn extract_peer_records_reads_first_two_tokens_per_line() {
    let output = "100.100.1.1 peer1 linux active\n\n  100.100.2.2\tpeer2  \nshort\n";
    let recs = extract_peer_records(true, output).unwrap();
    assert_eq!(recs, vec![peer("100.100.1.1", "peer1"), peer("100.100.2.2", "peer2")]);
}

#[test]
fn extract_peer_records_splits_on_unicode_whitespace() {
    let output = "100.100.1.1\u{a0}peer1\n\u{2028}100.100.2.2\u{205f}peer2 extra\n";
    let recs = extract_peer_records(true, output).unwrap();
    assert_eq!(recs, vec![peer("100.100.1.1", "peer1"), peer("100.100.2.2", "peer2")]);
}

#[test]
fn extract_peer_records_failed_command() {
    let r = extract_peer_records(false, "100.100.1.1 peer1\n");
    assert_eq!(r, Err(PeerError::CommandFailed));
}

#[test]
fn extract_peer_records_no_peers() {
    assert_eq!(extract_peer_records(true, ""), Err(PeerError::NoPeersFound));
    assert_eq!(extract_peer_records(true, "\n  \nonlyonetoken\n"), Err(PeerError::NoPeersFound));
}

#[test]
fn merge_adds_new_address_and_skips_duplicate_name() {
    // Scenario: the file already maps the address to the same name; merging
    // the identical peer appends nothing.
    let mut t = parse_lines(&lines(&["10.0.0.5 nas"]));
    merge_peers(&mut t, &vec![peer("10.0.0.5", "nas")]);
    let ns = t.lookup(&"10.0.0.5".to_string()).unwrap();
    assert_eq!(ns, &lines(&["nas"]));
}

#[test]
fn merge_keeps_file_entries_and_appends_peers() {
    let mut t = parse_lines(&lines(&["10.0.0.5 nas"]));
    merge_peers(&mut t, &vec![peer("100.64.0.1", "laptop"), peer("10.0.0.5", "nas-ts")]);
    assert_eq!(t.lookup(&"10.0.0.5".to_string()).unwrap(), &lines(&["nas", "nas-ts"]));
    assert_eq!(t.lookup(&"100.64.0.1".to_string()).unwrap(), &lines(&["laptop"]));
}

#[test]
fn merge_twice_equals_merge_once() {
    let peers = vec![
        peer("100.64.0.1", "laptop"),
        peer("10.0.0.5", "nas"),
        peer("100.64.0.1", "laptop"),
    ];
    let mut once = parse_lines(&lines(&["10.0.0.5 nas nas.local", "192.168.0.9 printer"]));
    let mut twice = once.clone();
    merge_peers(&mut once, &peers);
    merge_peers(&mut twice, &peers);
    merge_peers(&mut twice, &peers);
    assert_eq!(once, twice);
}

#[test]
fn merged_names_stay_distinct_per_address() {
    let mut t = parse_lines(&lines(&["10.0.0.5 nas", "10.0.0.5 nas backup"]));
    merge_peers(
        &mut t,
        &vec![peer("10.0.0.5", "nas"), peer("10.0.0.5", "backup"), peer("10.0.0.5", "third")],
    );
    let ns = t.lookup(&"10.0.0.5".to_string()).unwrap();
    for i in 0..ns.len() {
        for j in 0..ns.len() {
            if i != j {
                assert_ne!(ns[i], ns[j]);
            }
        }
    }
    assert_eq!(ns, &lines(&["nas", "backup", "third"]));
}

#[test]
fn empty_table_after_merge_holds_only_peers() {
    // Scenario: empty source file, one reported peer.
    let mut t = AliasTable::new();
    merge_peers(&mut t, &vec![peer("100.64.0.1", "laptop")]);
    assert_eq!(t.len(), 1);
    assert_eq!(t.lookup(&"100.64.0.1".to_string()).unwrap(), &lines(&["laptop"]));
}
