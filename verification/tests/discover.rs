use std::collections::HashMap;
use ton_client_util::discover::changes::Change;
use ton_client_util::discover::server::{apply_dns_records, LiteServer, LiteServerId, ResolvedIp};
use ton_client_util::discover::state::DiscoveryState;

fn id(key: &str) -> LiteServerId {
    LiteServerId { typ: "pub.ed25519".to_string(), key: key.to_string() }
}

fn server(key: &str, ip: i32) -> LiteServer {
    LiteServer { id: id(key), ip, port: 4924, host: None }
}

fn hosted(key: &str, host: &str) -> LiteServer {
    LiteServer { id: id(key), ip: 0, port: 4924, host: Some(host.to_string()) }
}

#[test]
fn first_tick_inserts_every_server() {
    let mut state = DiscoveryState::new();
    let changes = state.apply_config(vec![server("a", 1), server("b", 2)]);
    assert_eq!(
        changes,
        vec![
            Change::Insert(id("a"), server("a", 1)),
            Change::Insert(id("b"), server("b", 2)),
        ]
    );
    assert_eq!(state.servers(), &vec![server("a", 1), server("b", 2)]);
}

#[test]
fn repeated_servers_are_known_once() {
    let mut state = DiscoveryState::new();
    let changes = state.apply_config(vec![server("a", 1), server("a", 1), server("b", 2), server("a", 1)]);
    assert_eq!(changes.len(), 2);
    assert_eq!(state.servers(), &vec![server("a", 1), server("b", 2)]);
}

#[test]
fn same_config_again_announces_nothing() {
    let mut state = DiscoveryState::new();
    state.apply_config(vec![server("a", 1), server("b", 2)]);
    let changes = state.apply_config(vec![server("b", 2), server("a", 1), server("b", 2)]);
    assert!(changes.is_empty());
    assert_eq!(state.servers(), &vec![server("b", 2), server("a", 1)]);
}

#[test]
fn removals_come_before_insertions() {
    let mut state = DiscoveryState::new();
    state.apply_config(vec![server("a", 1), server("b", 2), server("c", 3)]);
    let changes = state.apply_config(vec![server("d", 4), server("b", 2)]);
    assert_eq!(
        changes,
        vec![
            Change::Remove(id("a")),
            Change::Remove(id("c")),
            Change::Insert(id("d"), server("d", 4)),
        ]
    );
    assert_eq!(state.servers(), &vec![server("d", 4), server("b", 2)]);
}

#[test]
fn changed_address_is_a_removal_and_an_insertion_under_the_same_key() {
    let mut state = DiscoveryState::new();
    state.apply_config(vec![server("a", 1)]);
    let changes = state.apply_config(vec![server("a", 9)]);
    assert_eq!(changes, vec![Change::Remove(id("a")), Change::Insert(id("a"), server("a", 9))]);
}

#[test]
fn empty_config_removes_everything() {
    let mut state = DiscoveryState::new();
    state.apply_config(vec![server("a", 1), server("b", 2)]);
    let changes = state.apply_config(vec![]);
    assert_eq!(changes, vec![Change::Remove(id("a")), Change::Remove(id("b"))]);
    assert!(state.servers().is_empty());
}

#[test]
fn consumer_table_follows_the_known_set() {
    let mut table: HashMap<LiteServerId, LiteServer> = HashMap::new();
    let mut state = DiscoveryState::new();
    let ticks = vec![
        vec![server("a", 1), server("b", 2)],
        vec![server("b", 3), server("c", 4)],
        vec![server("c", 4)],
        vec![],
        vec![server("a", 5)],
    ];
    for tick in ticks {
        for change in state.apply_config(tick.clone()) {
            match change {
                Change::Insert(k, v) => {
                    table.insert(k, v);
                }
                Change::Remove(k) => {
                    table.remove(&k);
                }
            }
        }
        let expected: HashMap<LiteServerId, LiteServer> =
            tick.iter().map(|ls| (ls.id.clone(), ls.clone())).collect();
        assert_eq!(table, expected);
    }
}

#[test]
fn dns_takes_the_first_ipv4_record() {
    let ls = hosted("a", "example.org");
    let records = vec![ResolvedIp::V6, ResolvedIp::V4(1, 2, 3, 4), ResolvedIp::V4(5, 6, 7, 8)];
    let r = apply_dns_records(ls.clone(), &records);
    assert_eq!(r.ip, 0x01020304);
    assert_eq!(r.id, ls.id);
    assert_eq!(r.port, ls.port);
    assert_eq!(r.host, ls.host);
}

#[test]
fn dns_address_above_i32_max_wraps_to_negative() {
    let r = apply_dns_records(hosted("a", "h"), &vec![ResolvedIp::V4(192, 168, 0, 1)]);
    assert_eq!(r.ip, u32::from_be_bytes([192, 168, 0, 1]) as i32);
    assert_eq!(r.ip, -1062731775);
    let r = apply_dns_records(hosted("a", "h"), &vec![ResolvedIp::V4(255, 255, 255, 255)]);
    assert_eq!(r.ip, -1);
}

#[test]
fn dns_without_ipv4_leaves_the_server_unchanged() {
    let ls = server("a", 77);
    assert_eq!(apply_dns_records(ls.clone(), &vec![]), ls);
    assert_eq!(apply_dns_records(ls.clone(), &vec![ResolvedIp::V6, ResolvedIp::V6]), ls);
}

#[test]
fn with_ip_replaces_only_the_address() {
    let ls = hosted("a", "h");
    let r = ls.clone().with_ip(42);
    assert_eq!(r, LiteServer { ip: 42, ..ls });
}

#[test]
fn dns_records_are_ignored_for_a_server_without_host() {
    let ls = server("a", 77);
    assert_eq!(apply_dns_records(ls.clone(), &vec![ResolvedIp::V4(10, 0, 0, 1)]), ls);
}

#[test]
fn each_vanished_and_each_new_server_is_announced_once() {
    let mut state = DiscoveryState::new();
    state.apply_config(vec![server("a", 1), server("b", 2), server("c", 3)]);
    let changes = state.apply_config(vec![server("c", 3), server("e", 5), server("d", 4), server("e", 5)]);
    assert_eq!(
        changes,
        vec![
            Change::Remove(id("a")),
            Change::Remove(id("b")),
            Change::Insert(id("e"), server("e", 5)),
            Change::Insert(id("d"), server("d", 4)),
        ]
    );
}
