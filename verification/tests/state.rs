//! Registry, store, and end-to-end handler tests.

use rotten::handler::handle_datagram;
use rotten::parser::Event;
use rotten::registry::Registry;
use rotten::store::{PeerEntry, Store};

fn entry(peer_id: [u8; 20], ip: u32, port: u16, left: u64, now: u64) -> PeerEntry {
    PeerEntry {
        peer_id: peer_id.to_vec(),
        ip,
        port,
        uploaded: 0,
        downloaded: 0,
        left,
        last_announce: now,
    }
}

#[test]
fn issued_id_validates_only_for_its_address_and_ttl() {
    let mut registry = Registry::new();
    let id = registry.issue(0x0A000001, 7000, 100);
    assert!(registry.validate(id, 0x0A000001, 7000, 100));
    assert!(registry.validate(id, 0x0A000001, 7000, 220));
    assert!(!registry.validate(id, 0x0A000002, 7000, 100));
    assert!(!registry.validate(id, 0x0A000001, 7001, 100));
    assert!(!registry.validate(id, 0x0A000001, 7000, 221));
}

#[test]
fn expire_drops_ids_past_their_ttl() {
    let mut registry = Registry::new();
    let id_old = registry.issue(1, 1, 100);
    let id_new = registry.issue(2, 2, 300);
    registry.expire(300);
    assert!(!registry.validate(id_old, 1, 1, 300));
    assert!(registry.validate(id_new, 2, 2, 300));
}

#[test]
fn stopped_announce_removes_the_peer_everywhere() {
    let mut store = Store::new();
    let hash = vec![9u8; 20];
    store.announce(&hash, entry([1; 20], 10, 10, 5, 100), Event::Started, -1, 100);
    let stats = store.scrape(&vec![hash.clone()], 100);
    assert_eq!((stats[0].seeders, stats[0].leechers), (0, 1));

    store.announce(&hash, entry([1; 20], 10, 10, 5, 101), Event::Stopped, -1, 101);
    let stats = store.scrape(&vec![hash.clone()], 101);
    assert_eq!((stats[0].seeders, stats[0].completed, stats[0].leechers), (0, 0, 0));

    let reply = store.announce(&hash, entry([2; 20], 11, 11, 0, 102), Event::Started, -1, 102);
    assert!(reply.peers.is_empty());
}

#[test]
fn scrape_unknown_hash_yields_zero_triples_in_order() {
    let mut store = Store::new();
    let known = vec![2u8; 20];
    store.announce(&known, entry([1; 20], 10, 10, 0, 50), Event::Completed, -1, 50);

    let hashes = vec![vec![1u8; 20], known.clone(), vec![3u8; 20]];
    let stats = store.scrape(&hashes, 50);
    assert_eq!(stats.len(), 3);
    assert_eq!((stats[0].seeders, stats[0].completed, stats[0].leechers), (0, 0, 0));
    assert_eq!((stats[1].seeders, stats[1].completed, stats[1].leechers), (1, 1, 0));
    assert_eq!((stats[2].seeders, stats[2].completed, stats[2].leechers), (0, 0, 0));
}

#[test]
fn distinct_announces_are_all_kept() {
    let mut store = Store::new();
    let hash = vec![4u8; 20];
    for i in 0..3u8 {
        store.announce(&hash, entry([i; 20], 20 + i as u32, 20, 1, 10), Event::Started, -1, 10);
    }
    let stats = store.scrape(&vec![hash.clone()], 10);
    assert_eq!(stats[0].leechers, 3);
    assert_eq!(stats[0].seeders, 0);
}

#[test]
fn announce_against_empty_swarm_returns_empty() {
    let mut store = Store::new();
    let hash = vec![5u8; 20];
    let reply = store.announce(&hash, entry([1; 20], 30, 30, 7, 5), Event::Started, -1, 5);
    assert_eq!(reply.leechers, 0);
    assert_eq!(reply.seeders, 0);
    assert!(reply.peers.is_empty());
}

#[test]
fn repeated_announce_does_not_duplicate_the_peer() {
    let mut store = Store::new();
    let hash = vec![6u8; 20];
    store.announce(&hash, entry([1; 20], 40, 40, 3, 10), Event::Started, -1, 10);
    store.announce(&hash, entry([1; 20], 40, 40, 3, 15), Event::NoEvent, -1, 15);
    let stats = store.scrape(&vec![hash.clone()], 15);
    assert_eq!(stats[0].leechers, 1);

    let reply = store.announce(&hash, entry([2; 20], 41, 41, 0, 16), Event::Started, -1, 16);
    assert_eq!(reply.peers.len(), 1);
    assert_eq!(reply.peers[0].ip, 40);
}

#[test]
fn peer_list_is_most_recent_first() {
    let mut store = Store::new();
    let hash = vec![7u8; 20];
    store.announce(&hash, entry([1; 20], 101, 1, 1, 10), Event::Started, -1, 10);
    store.announce(&hash, entry([2; 20], 102, 2, 1, 20), Event::Started, -1, 20);
    store.announce(&hash, entry([3; 20], 103, 3, 1, 30), Event::Started, -1, 30);
    let reply = store.announce(&hash, entry([4; 20], 104, 4, 1, 40), Event::Started, -1, 40);
    let ips: Vec<u32> = reply.peers.iter().map(|p| p.ip).collect();
    assert_eq!(ips, vec![103, 102, 101]);
}

#[test]
fn num_want_truncates_the_peer_list() {
    let mut store = Store::new();
    let hash = vec![8u8; 20];
    for i in 0..4u8 {
        store.announce(&hash, entry([i; 20], 200 + i as u32, 1, 1, 10 + i as u64), Event::Started, -1, 10 + i as u64);
    }
    let reply = store.announce(&hash, entry([9; 20], 250, 1, 1, 20), Event::Started, 2, 20);
    assert_eq!(reply.peers.len(), 2);
    assert_eq!(reply.peers[0].ip, 203);
    assert_eq!(reply.peers[1].ip, 202);
}

#[test]
fn stale_peers_vanish_from_counts_and_reap() {
    let mut store = Store::new();
    let hash = vec![10u8; 20];
    store.announce(&hash, entry([1; 20], 50, 50, 0, 0), Event::Started, -1, 0);
    let stats = store.scrape(&vec![hash.clone()], 1800);
    assert_eq!(stats[0].seeders, 1);
    let stats = store.scrape(&vec![hash.clone()], 1801);
    assert_eq!(stats[0].seeders, 0);

    store.reap(1801);
    let reply = store.announce(&hash, entry([2; 20], 51, 51, 1, 1802), Event::Started, -1, 1802);
    assert!(reply.peers.is_empty());
}

fn connect_datagram(transaction_id: u32) -> Vec<u8> {
    let mut buf = Vec::new();
    buf.extend_from_slice(&0x41727101980u64.to_be_bytes());
    buf.extend_from_slice(&0u32.to_be_bytes());
    buf.extend_from_slice(&transaction_id.to_be_bytes());
    buf
}

fn announce_datagram(
    connection_id: u64,
    transaction_id: u32,
    info_hash: [u8; 20],
    peer_id: [u8; 20],
    left: u64,
    num_want: i32,
    port: u16,
) -> Vec<u8> {
    let mut buf = Vec::new();
    buf.extend_from_slice(&connection_id.to_be_bytes());
    buf.extend_from_slice(&1u32.to_be_bytes());
    buf.extend_from_slice(&transaction_id.to_be_bytes());
    buf.extend_from_slice(&info_hash);
    buf.extend_from_slice(&peer_id);
    buf.extend_from_slice(&0u64.to_be_bytes());
    buf.extend_from_slice(&left.to_be_bytes());
    buf.extend_from_slice(&0u64.to_be_bytes());
    buf.extend_from_slice(&2u32.to_be_bytes());
    buf.extend_from_slice(&0u32.to_be_bytes());
    buf.extend_from_slice(&0u32.to_be_bytes());
    buf.extend_from_slice(&num_want.to_be_bytes());
    buf.extend_from_slice(&port.to_be_bytes());
    buf
}

#[test]
fn connect_response_echoes_the_transaction_id_in_16_bytes() {
    let mut registry = Registry::new();
    let mut store = Store::new();
    let resp = handle_datagram(&mut registry, &mut store, 1, 1, 0, connect_datagram(0x7B))
        .expect("a connect datagram deserves a response");
    assert_eq!(resp.len(), 16);
    assert_eq!(&resp[0..4], &[0, 0, 0, 0]);
    assert_eq!(&resp[4..8], &[0, 0, 0, 0x7B]);
    let id = u64::from_be_bytes(resp[8..16].try_into().unwrap());
    assert!(registry.validate(id, 1, 1, 0));
}

#[test]
fn handler_runs_a_whole_session() {
    let mut registry = Registry::new();
    let mut store = Store::new();
    let src_ip = 0x7F000001;
    let src_port = 6881;

    let resp = handle_datagram(
        &mut registry,
        &mut store,
        src_ip,
        src_port,
        100,
        connect_datagram(1),
    )
    .unwrap();
    let cid = u64::from_be_bytes(resp[8..16].try_into().unwrap());

    let resp = handle_datagram(
        &mut registry,
        &mut store,
        src_ip,
        src_port,
        101,
        announce_datagram(cid, 2, [7; 20], [1; 20], 0, -1, 6881),
    )
    .unwrap();
    assert_eq!(&resp[0..4], &[0, 0, 0, 1]);
    assert_eq!(&resp[4..8], &[0, 0, 0, 2]);
    assert_eq!(u32::from_be_bytes(resp[8..12].try_into().unwrap()), 900);
    assert_eq!(u32::from_be_bytes(resp[12..16].try_into().unwrap()), 0);
    assert_eq!(u32::from_be_bytes(resp[16..20].try_into().unwrap()), 0);
    assert_eq!(resp.len(), 20);

    let mut scrape = Vec::new();
    scrape.extend_from_slice(&cid.to_be_bytes());
    scrape.extend_from_slice(&2u32.to_be_bytes());
    scrape.extend_from_slice(&3u32.to_be_bytes());
    scrape.extend_from_slice(&[7u8; 20]);
    let resp = handle_datagram(&mut registry, &mut store, src_ip, src_port, 102, scrape).unwrap();
    assert_eq!(&resp[0..4], &[0, 0, 0, 2]);
    assert_eq!(&resp[4..8], &[0, 0, 0, 3]);
    assert_eq!(u32::from_be_bytes(resp[8..12].try_into().unwrap()), 1);
    assert_eq!(u32::from_be_bytes(resp[12..16].try_into().unwrap()), 0);
    assert_eq!(u32::from_be_bytes(resp[16..20].try_into().unwrap()), 0);
}

#[test]
fn announce_with_bogus_connection_id_gets_an_error_response() {
    let mut registry = Registry::new();
    let mut store = Store::new();
    let resp = handle_datagram(
        &mut registry,
        &mut store,
        1,
        1,
        0,
        announce_datagram(0x1234, 9, [7; 20], [1; 20], 0, -1, 6881),
    )
    .unwrap();
    assert_eq!(&resp[0..4], &[0, 0, 0, 3]);
    assert_eq!(&resp[4..8], &[0, 0, 0, 9]);
    assert_eq!(&resp[8..], b"invalid connection id");
    let stats = store.scrape(&vec![vec![7u8; 20]], 0);
    assert_eq!((stats[0].seeders, stats[0].completed, stats[0].leechers), (0, 0, 0));
}

#[test]
fn malformed_datagram_gets_an_error_or_silence() {
    let mut registry = Registry::new();
    let mut store = Store::new();
    assert!(handle_datagram(&mut registry, &mut store, 1, 1, 0, vec![1, 2, 3]).is_none());

    let mut bad = Vec::new();
    bad.extend_from_slice(&0u64.to_be_bytes());
    bad.extend_from_slice(&9u32.to_be_bytes());
    bad.extend_from_slice(&0x55u32.to_be_bytes());
    let resp = handle_datagram(&mut registry, &mut store, 1, 1, 0, bad).unwrap();
    assert_eq!(&resp[0..4], &[0, 0, 0, 3]);
    assert_eq!(&resp[4..8], &[0, 0, 0, 0x55]);
    assert_eq!(&resp[8..], b"invalid request");
}

#[test]
fn announce_ip_override_is_stored() {
    let mut store = Store::new();
    let hash = vec![11u8; 20];
    let mut first = entry([1; 20], 60, 60, 1, 5);
    first.ip = 0xC0A80001;
    store.announce(&hash, first, Event::Started, -1, 5);
    let reply = store.announce(&hash, entry([2; 20], 61, 61, 1, 6), Event::Started, -1, 6);
    assert_eq!(reply.peers.len(), 1);
    assert_eq!(reply.peers[0].ip, 0xC0A80001);
    assert_eq!(reply.peers[0].port, 60);
}
