//! The per-datagram handler: decode, dispatch by action, consult the
//! registry and the store, and encode the response. Decode failures and
//! failed connection-id checks short-circuit to an error response carrying
//! the request's transaction id; a datagram too short to carry one is
//! dropped silently. No failure here ever panics, and an error path never
//! mutates the registry or the store.

use vstd::prelude::*;
use crate::ANNOUNCE_INTERVAL;
use crate::parser::DecodeError;
use crate::parser::Frame;
use crate::parser::FrameModel;
use crate::parser::Parser;
use crate::parser::decode_spec;
use crate::registry::ConnEntry;
use crate::registry::Registry;
use crate::registry::conn_valid;
use crate::registry::record_conn;
use crate::store::AnnounceReply;
use crate::store::PeerEntry;
use crate::store::PeerEntryModel;
use crate::store::Peer;
use crate::store::ScrapeStats;
use crate::store::Store;
use crate::store::clamp_u32;
use crate::store::leecher_count;
use crate::store::peer_list;
use crate::store::scrape_stats_of;
use crate::store::seeder_count;
use crate::store::store_after_announce;
use crate::store::swarm_peers_after_announce;
use crate::store::want_limit;
use crate::store::wire_peers;
use crate::store::without_peer;
use crate::wire::be_bytes_of_u16;
use crate::wire::be_bytes_of_u32;
use crate::wire::be_bytes_of_u64;
use crate::wire::push_u16_be;
use crate::wire::push_u32_be;
use crate::wire::push_u64_be;
use crate::wire::read_u32_be;
use crate::wire::u32_of_be;

verus! {

/// A connect response: action 0, the echoed transaction id, the issued
/// connection id — 16 bytes.
pub open spec fn connect_response_bytes(tid: u32, cid: u64) -> Seq<u8> {
    be_bytes_of_u32(0) + be_bytes_of_u32(tid) + be_bytes_of_u64(cid)
}

/// The returned peers laid out on the wire: 4 address bytes then 2 port
/// bytes, each.
pub open spec fn peers_bytes(peers: Seq<Peer>) -> Seq<u8>
    decreases peers.len(),
{
    if peers.len() == 0 {
        Seq::empty()
    } else {
        peers_bytes(peers.drop_last()) + be_bytes_of_u32(peers.last().ip) + be_bytes_of_u16(
            peers.last().port,
        )
    }
}

/// An announce response: action 1, transaction id, interval, leecher and
/// seeder counts, then the returned peers.
pub open spec fn announce_response_bytes(
    tid: u32,
    interval: u32,
    leechers: u32,
    seeders: u32,
    peers: Seq<Peer>,
) -> Seq<u8> {
    be_bytes_of_u32(1) + be_bytes_of_u32(tid) + be_bytes_of_u32(interval) + be_bytes_of_u32(
        leechers,
    ) + be_bytes_of_u32(seeders) + peers_bytes(peers)
}

/// The scrape triples laid out on the wire: seeders, completed, leechers,
/// 4 bytes each.
pub open spec fn stats_bytes(stats: Seq<ScrapeStats>) -> Seq<u8>
    decreases stats.len(),
{
    if stats.len() == 0 {
        Seq::empty()
    } else {
        stats_bytes(stats.drop_last()) + be_bytes_of_u32(stats.last().seeders) + be_bytes_of_u32(
            stats.last().completed,
        ) + be_bytes_of_u32(stats.last().leechers)
    }
}

/// A scrape response: action 2, transaction id, then one triple per
/// requested hash in request order.
pub open spec fn scrape_response_bytes(tid: u32, stats: Seq<ScrapeStats>) -> Seq<u8> {
    be_bytes_of_u32(2) + be_bytes_of_u32(tid) + stats_bytes(stats)
}

/// An error response: action 3, the echoed transaction id, then the reason
/// as UTF-8 bytes with no length prefix.
pub open spec fn error_response_bytes(tid: u32, reason: Seq<u8>) -> Seq<u8> {
    be_bytes_of_u32(3) + be_bytes_of_u32(tid) + reason
}

/// The reason sent for a datagram that decodes to no request: the ASCII
/// bytes of "invalid request".
pub open spec fn malformed_reason() -> Seq<u8> {
    seq![105u8, 110u8, 118u8, 97u8, 108u8, 105u8, 100u8, 32u8, 114u8, 101u8, 113u8, 117u8, 101u8, 115u8, 116u8]
}

/// The reason sent when the connection-id check fails: the ASCII bytes of
/// "invalid connection id".
pub open spec fn invalid_connection_reason() -> Seq<u8> {
    seq![105u8, 110u8, 118u8, 97u8, 108u8, 105u8, 100u8, 32u8, 99u8, 111u8, 110u8, 110u8, 101u8, 99u8, 116u8, 105u8, 111u8, 110u8, 32u8, 105u8, 100u8]
}

/// The ASCII bytes of "invalid request".
fn malformed_msg() -> (r: Vec<u8>)
    ensures
        r@ == malformed_reason(),
{
    let r: Vec<u8> = vec![105, 110, 118, 97, 108, 105, 100, 32, 114, 101, 113, 117, 101, 115, 116];
    proof {
        assert(r@ =~= malformed_reason());
    }
    r
}

/// The ASCII bytes of "invalid connection id".
fn invalid_connection_msg() -> (r: Vec<u8>)
    ensures
        r@ == invalid_connection_reason(),
{
    let r: Vec<u8> = vec![
        105, 110, 118, 97, 108, 105, 100, 32, 99, 111, 110, 110, 101, 99, 116, 105, 111, 110, 32,
        105, 100,
    ];
    proof {
        assert(r@ =~= invalid_connection_reason());
    }
    r
}

/// Encodes a connect response.
pub fn encode_connect_response(tid: u32, cid: u64) -> (r: Vec<u8>)
    ensures
        r@ == connect_response_bytes(tid, cid),
{
    let mut out: Vec<u8> = Vec::new();
    push_u32_be(&mut out, 0);
    push_u32_be(&mut out, tid);
    push_u64_be(&mut out, cid);
    proof {
        assert(out@ =~= connect_response_bytes(tid, cid));
    }
    out
}

/// Encodes an announce response from the reply the store computed.
pub fn encode_announce_response(tid: u32, reply: &AnnounceReply) -> (r: Vec<u8>)
    ensures
        r@ == announce_response_bytes(
            tid,
            reply.interval,
            reply.leechers,
            reply.seeders,
            reply.peers@,
        ),
{
    let mut out: Vec<u8> = Vec::new();
    push_u32_be(&mut out, 1);
    push_u32_be(&mut out, tid);
    push_u32_be(&mut out, reply.interval);
    push_u32_be(&mut out, reply.leechers);
    push_u32_be(&mut out, reply.seeders);
    let ghost head = be_bytes_of_u32(1) + be_bytes_of_u32(tid) + be_bytes_of_u32(reply.interval)
        + be_bytes_of_u32(reply.leechers) + be_bytes_of_u32(reply.seeders);
    proof {
        assert(out@ =~= head + peers_bytes(reply.peers@.take(0)));
    }
    let n = reply.peers.len();
    let mut i: usize = 0;
    while i < n
        invariant
            n == reply.peers.len(),
            i <= n,
            out@ == head + peers_bytes(reply.peers@.take(i as int)),
        decreases n - i,
    {
        let p = reply.peers[i];
        push_u32_be(&mut out, p.ip);
        push_u16_be(&mut out, p.port);
        proof {
            assert(reply.peers@.take(i as int + 1).drop_last() =~= reply.peers@.take(i as int));
            assert(reply.peers@.take(i as int + 1).last() == p);
            assert(out@ =~= head + peers_bytes(reply.peers@.take(i as int + 1)));
        }
        i = i + 1;
    }
    proof {
        assert(reply.peers@.take(n as int) =~= reply.peers@);
    }
    out
}

/// Encodes a scrape response from the triples the store computed.
pub fn encode_scrape_response(tid: u32, stats: &Vec<ScrapeStats>) -> (r: Vec<u8>)
    ensures
        r@ == scrape_response_bytes(tid, stats@),
{
    let mut out: Vec<u8> = Vec::new();
    push_u32_be(&mut out, 2);
    push_u32_be(&mut out, tid);
    let ghost head = be_bytes_of_u32(2) + be_bytes_of_u32(tid);
    proof {
        assert(out@ =~= head + stats_bytes(stats@.take(0)));
    }
    let n = stats.len();
    let mut i: usize = 0;
    while i < n
        invariant
            n == stats.len(),
            i <= n,
            out@ == head + stats_bytes(stats@.take(i as int)),
        decreases n - i,
    {
        let st = stats[i];
        push_u32_be(&mut out, st.seeders);
        push_u32_be(&mut out, st.completed);
        push_u32_be(&mut out, st.leechers);
        proof {
            assert(stats@.take(i as int + 1).drop_last() =~= stats@.take(i as int));
            assert(stats@.take(i as int + 1).last() == st);
            assert(out@ =~= head + stats_bytes(stats@.take(i as int + 1)));
        }
        i = i + 1;
    }
    proof {
        assert(stats@.take(n as int) =~= stats@);
    }
    out
}

/// Encodes an error response.
pub fn encode_error_response(tid: u32, reason: &Vec<u8>) -> (r: Vec<u8>)
    ensures
        r@ == error_response_bytes(tid, reason@),
{
    let mut out: Vec<u8> = Vec::new();
    push_u32_be(&mut out, 3);
    push_u32_be(&mut out, tid);
    let ghost head = be_bytes_of_u32(3) + be_bytes_of_u32(tid);
    let n = reason.len();
    let mut i: usize = 0;
    proof {
        assert(out@ =~= head + reason@.take(0));
    }
    while i < n
        invariant
            n == reason.len(),
            i <= n,
            out@ == head + reason@.take(i as int),
        decreases n - i,
    {
        out.push(reason[i]);
        proof {
            assert(out@ =~= head + reason@.take(i as int + 1));
        }
        i = i + 1;
    }
    proof {
        assert(reason@.take(n as int) =~= reason@);
    }
    out
}

/// The swarm-store entry an announce writes: the requester's address unless
/// the request overrides the address, the reported counters, and the present
/// clock reading.
pub open spec fn announced_peer(
    peer_id: Seq<u8>,
    src_ip: u32,
    ip_override: u32,
    port: u16,
    uploaded: u64,
    downloaded: u64,
    left: u64,
    now: u64,
) -> PeerEntryModel {
    PeerEntryModel {
        peer_id,
        ip: if ip_override == 0 {
            src_ip
        } else {
            ip_override
        },
        port,
        uploaded,
        downloaded,
        left,
        last_announce: now,
    }
}

/// Handles one datagram end to end: decode, check the connection id where
/// the action demands one, operate on the store, and encode the response.
/// Returns the response bytes to send back, or nothing for a datagram too
/// short to carry a transaction id.
#[verifier::rlimit(100)]
pub fn handle_datagram(
    registry: &mut Registry,
    store: &mut Store,
    src_ip: u32,
    src_port: u16,
    now: u64,
    datagram: Vec<u8>,
) -> (r: Option<Vec<u8>>)
    requires
        old(registry).wf(),
        old(store).wf(),
    ensures
        final(registry).wf(),
        final(store).wf(),
        match decode_spec(datagram@) {
            Err(e) => {
                &&& final(store)@ == old(store)@
                &&& final(registry)@ == old(registry)@
                &&& if e is TooShort {
                    r is None
                } else {
                    r matches Some(b) && b@ == error_response_bytes(
                        u32_of_be(datagram@.subrange(12, 16)),
                        malformed_reason(),
                    )
                }
            },
            Ok(f) => match f {
                FrameModel::Connect { connection_id, transaction_id } => {
                    &&& final(store)@ == old(store)@
                    &&& exists|id: u64|
                        final(registry)@ == #[trigger] record_conn(
                            old(registry)@,
                            ConnEntry { id, ip: src_ip, port: src_port, issued_at: now },
                        ) && (r matches Some(b) && b@ == connect_response_bytes(
                            transaction_id,
                            id,
                        ))
                },
                FrameModel::Announce {
                    connection_id,
                    transaction_id,
                    peer_id,
                    info_hash,
                    downloaded,
                    left,
                    uploaded,
                    event,
                    ip_address,
                    key,
                    num_want,
                    port,
                } => {
                    if !conn_valid(old(registry)@, connection_id, src_ip, src_port, now) {
                        &&& final(store)@ == old(store)@
                        &&& final(registry)@ == old(registry)@
                        &&& r matches Some(b) && b@ == error_response_bytes(
                            transaction_id,
                            invalid_connection_reason(),
                        )
                    } else {
                        let p = announced_peer(
                            peer_id,
                            src_ip,
                            ip_address,
                            port,
                            uploaded,
                            downloaded,
                            left,
                            now,
                        );
                        let after = swarm_peers_after_announce(
                            old(store)@,
                            info_hash,
                            p,
                            event,
                            now,
                        );
                        &&& final(registry)@ == old(registry)@
                        &&& final(store)@ == store_after_announce(
                            old(store)@,
                            info_hash,
                            p,
                            event,
                            now,
                        )
                        &&& r matches Some(b) && b@ == announce_response_bytes(
                            transaction_id,
                            ANNOUNCE_INTERVAL,
                            clamp_u32(leecher_count(without_peer(after, peer_id))),
                            clamp_u32(seeder_count(without_peer(after, peer_id))),
                            wire_peers(peer_list(after, peer_id, want_limit(num_want))),
                        )
                    }
                },
                FrameModel::Scrape { connection_id, transaction_id, info_hashes } => {
                    &&& final(store)@ == old(store)@
                    &&& final(registry)@ == old(registry)@
                    &&& if !conn_valid(old(registry)@, connection_id, src_ip, src_port, now) {
                        r matches Some(b) && b@ == error_response_bytes(
                            transaction_id,
                            invalid_connection_reason(),
                        )
                    } else {
                        r matches Some(b) && b@ == scrape_response_bytes(
                            transaction_id,
                            Seq::new(
                                info_hashes.len(),
                                |k: int| scrape_stats_of(old(store)@, info_hashes[k], now),
                            ),
                        )
                    }
                },
            },
        },
{
    let tid_hint: u32 = if datagram.len() >= 16 {
        read_u32_be(&datagram, 12)
    } else {
        0
    };
    let parser = Parser::new(datagram);
    match parser.parse() {
        Err(e) => {
            match e {
                DecodeError::TooShort => None,
                _ => {
                    let reason = malformed_msg();
                    Some(encode_error_response(tid_hint, &reason))
                },
            }
        },
        Ok(frame) => {
            match frame {
                Frame::Connect { connection_id: _, transaction_id } => {
                    let id = registry.issue(src_ip, src_port, now);
                    let resp = encode_connect_response(transaction_id, id);
                    proof {
                        let e = ConnEntry { id, ip: src_ip, port: src_port, issued_at: now };
                        assert(registry@ == record_conn(old(registry)@, e));
                    }
                    Some(resp)
                },
                Frame::Announce {
                    connection_id,
                    transaction_id,
                    info_hash,
                    peer_id,
                    downloaded,
                    left,
                    uploaded,
                    event,
                    ip_address,
                    key: _,
                    num_want,
                    port,
                } => {
                    if !registry.validate(connection_id, src_ip, src_port, now) {
                        let reason = invalid_connection_msg();
                        Some(encode_error_response(transaction_id, &reason))
                    } else {
                        let ip = if ip_address == 0 {
                            src_ip
                        } else {
                            ip_address
                        };
                        let entry = PeerEntry {
                            peer_id,
                            ip,
                            port,
                            uploaded,
                            downloaded,
                            left,
                            last_announce: now,
                        };
                        let reply = store.announce(&info_hash, entry, event, num_want, now);
                        let resp = encode_announce_response(transaction_id, &reply);
                        Some(resp)
                    }
                },
                Frame::Scrape { connection_id, transaction_id, info_hashes } => {
                    if !registry.validate(connection_id, src_ip, src_port, now) {
                        let reason = invalid_connection_msg();
                        Some(encode_error_response(transaction_id, &reason))
                    } else {
                        let stats = store.scrape(&info_hashes, now);
                        proof {
                            assert(store@ == old(store)@);
                            let m = Seq::new(info_hashes@.len(), |i: int| info_hashes@[i]@);
                            assert(stats@ =~= Seq::new(
                                m.len(),
                                |k: int| scrape_stats_of(old(store)@, m[k], now),
                            ));
                        }
                        let resp = encode_scrape_response(transaction_id, &stats);
                        Some(resp)
                    }
                },
            }
        },
    }
}

} // verus!
