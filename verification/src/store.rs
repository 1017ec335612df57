//! The swarm store: per-info-hash peer collections. Announces upsert a peer
//! (or remove it on a Stopped event), scrapes aggregate seeder, completion
//! and leecher counts, and staleness reaping drops peers that stopped
//! announcing without saying so.
//!
//! Identity within a swarm is the peer id: at most one live entry per
//! (info hash, peer id). Every count or peer list handed out reflects only
//! entries that would survive reaping at that instant.

use vstd::prelude::*;
use crate::ANNOUNCE_INTERVAL;
use crate::MAX_PEERS_RETURNED;
use crate::PEER_STALENESS;
use crate::parser::Event;

verus! {

/// A peer's address as announce responses carry it.
#[derive(PartialEq, Eq, Structural, Debug, Clone, Copy)]
pub struct Peer {
    pub ip: u32,
    pub port: u16,
}

/// One swarm member: identity, address, reported counters, and the clock
/// reading of its last announce.
pub struct PeerEntry {
    /// 20 raw bytes, never text.
    pub peer_id: Vec<u8>,
    pub ip: u32,
    pub port: u16,
    pub uploaded: u64,
    pub downloaded: u64,
    pub left: u64,
    pub last_announce: u64,
}

/// The mathematical shape of a peer entry.
pub struct PeerEntryModel {
    pub peer_id: Seq<u8>,
    pub ip: u32,
    pub port: u16,
    pub uploaded: u64,
    pub downloaded: u64,
    pub left: u64,
    pub last_announce: u64,
}

impl View for PeerEntry {
    type V = PeerEntryModel;

    open spec fn view(&self) -> PeerEntryModel {
        PeerEntryModel {
            peer_id: self.peer_id@,
            ip: self.ip,
            port: self.port,
            uploaded: self.uploaded,
            downloaded: self.downloaded,
            left: self.left,
            last_announce: self.last_announce,
        }
    }
}

impl Clone for PeerEntry {
    /// An exact copy: the clone's model is the original's.
    fn clone(&self) -> (r: Self)
        ensures
            r@ == self@,
    {
        PeerEntry {
            peer_id: crate::wire::clone_bytes(&self.peer_id),
            ip: self.ip,
            port: self.port,
            uploaded: self.uploaded,
            downloaded: self.downloaded,
            left: self.left,
            last_announce: self.last_announce,
        }
    }
}

/// One swarm: its info hash, how many completions it has seen, its members.
pub struct Swarm {
    /// 20 raw bytes, never text.
    pub info_hash: Vec<u8>,
    pub completed: u64,
    pub peers: Vec<PeerEntry>,
}

/// The mathematical shape of a swarm.
pub struct SwarmModel {
    pub info_hash: Seq<u8>,
    pub completed: u64,
    pub peers: Seq<PeerEntryModel>,
}

/// The models of a sequence of peer entries.
pub open spec fn peer_models(s: Seq<PeerEntry>) -> Seq<PeerEntryModel> {
    s.map_values(|p: PeerEntry| p@)
}

impl View for Swarm {
    type V = SwarmModel;

    open spec fn view(&self) -> SwarmModel {
        SwarmModel {
            info_hash: self.info_hash@,
            completed: self.completed,
            peers: peer_models(self.peers@),
        }
    }
}

/// A peer entry is fresh at `now` iff its staleness window has not elapsed
/// since its last announce.
pub open spec fn peer_fresh(p: PeerEntryModel, now: u64) -> bool {
    now <= p.last_announce + PEER_STALENESS
}

/// The members that survive reaping at `now`.
pub open spec fn fresh_peers(s: Seq<PeerEntryModel>, now: u64) -> Seq<PeerEntryModel> {
    s.filter(|p: PeerEntryModel| peer_fresh(p, now))
}

/// Whether some member holds `pid`.
pub open spec fn has_peer(s: Seq<PeerEntryModel>, pid: Seq<u8>) -> bool {
    exists|i: int| 0 <= i < s.len() && (#[trigger] s[i]).peer_id == pid
}

/// The index of the member holding `pid`, when one does.
pub open spec fn peer_index(s: Seq<PeerEntryModel>, pid: Seq<u8>) -> int {
    choose|i: int| 0 <= i < s.len() && (#[trigger] s[i]).peer_id == pid
}

/// The members with the one holding `pid` (if any) removed.
pub open spec fn without_peer(s: Seq<PeerEntryModel>, pid: Seq<u8>) -> Seq<PeerEntryModel> {
    s.filter(|p: PeerEntryModel| p.peer_id != pid)
}

/// The members after an upsert of `p`: the entry holding `p`'s id is
/// replaced, or `p` is appended when its id is new.
pub open spec fn upsert_peer(s: Seq<PeerEntryModel>, p: PeerEntryModel) -> Seq<PeerEntryModel> {
    if has_peer(s, p.peer_id) {
        s.update(peer_index(s, p.peer_id), p)
    } else {
        s.push(p)
    }
}

/// The members of a swarm after an announce at `now`: stale entries are
/// reaped; then the announcing peer is removed on a Stopped event and
/// upserted on any other.
pub open spec fn peers_after_announce(
    s: Seq<PeerEntryModel>,
    p: PeerEntryModel,
    event: Event,
    now: u64,
) -> Seq<PeerEntryModel> {
    let live = fresh_peers(s, now);
    if event is Stopped {
        without_peer(live, p.peer_id)
    } else {
        upsert_peer(live, p)
    }
}

/// A swarm's completion counter after an announce: one more on a Completed
/// event, held at its ceiling rather than wrapping.
pub open spec fn completed_after(c: u64, event: Event) -> u64 {
    if event is Completed {
        if c == u64::MAX {
            c
        } else {
            (c + 1) as u64
        }
    } else {
        c
    }
}

/// Seeders: members that report nothing left to download.
pub open spec fn seeder_count(s: Seq<PeerEntryModel>) -> int {
    s.filter(|p: PeerEntryModel| p.left == 0).len() as int
}

/// Leechers: members that report bytes left to download.
pub open spec fn leecher_count(s: Seq<PeerEntryModel>) -> int {
    s.filter(|p: PeerEntryModel| p.left > 0).len() as int
}

/// A count as the wire carries it: saturated at the 32-bit ceiling.
pub open spec fn clamp_u32(n: int) -> u32 {
    if n > 0xFFFF_FFFF {
        0xFFFF_FFFFu32
    } else if n < 0 {
        0u32
    } else {
        n as u32
    }
}

/// Whether some swarm holds `h`.
pub open spec fn has_swarm(ss: Seq<SwarmModel>, h: Seq<u8>) -> bool {
    exists|i: int| 0 <= i < ss.len() && (#[trigger] ss[i]).info_hash == h
}

/// The index of the swarm holding `h`, when one does.
pub open spec fn swarm_index(ss: Seq<SwarmModel>, h: Seq<u8>) -> int {
    choose|i: int| 0 <= i < ss.len() && (#[trigger] ss[i]).info_hash == h
}

/// The store after an announce for `h`: the swarm's members change as
/// `peers_after_announce` says; a Stopped event never creates a swarm; any
/// other event against an unknown hash creates one holding the announcer.
pub open spec fn store_after_announce(
    ss: Seq<SwarmModel>,
    h: Seq<u8>,
    p: PeerEntryModel,
    event: Event,
    now: u64,
) -> Seq<SwarmModel> {
    if has_swarm(ss, h) {
        let i = swarm_index(ss, h);
        ss.update(
            i,
            SwarmModel {
                info_hash: h,
                completed: completed_after(ss[i].completed, event),
                peers: peers_after_announce(ss[i].peers, p, event, now),
            },
        )
    } else if event is Stopped {
        ss
    } else {
        ss.push(
            SwarmModel {
                info_hash: h,
                completed: completed_after(0, event),
                peers: seq![p],
            },
        )
    }
}

/// The members of the swarm for `h` right after the announce: what the
/// response's counts and peer list are computed from.
pub open spec fn swarm_peers_after_announce(
    ss: Seq<SwarmModel>,
    h: Seq<u8>,
    p: PeerEntryModel,
    event: Event,
    now: u64,
) -> Seq<PeerEntryModel> {
    if has_swarm(ss, h) {
        peers_after_announce(ss[swarm_index(ss, h)].peers, p, event, now)
    } else if event is Stopped {
        Seq::empty()
    } else {
        seq![p]
    }
}

/// Members in a well-formed swarm carry 20-byte peer ids, no two the same.
pub open spec fn peers_wf(s: Seq<PeerEntryModel>) -> bool {
    &&& forall|i: int| 0 <= i < s.len() ==> (#[trigger] s[i]).peer_id.len() == 20
    &&& forall|i: int, j: int|
        0 <= i < j < s.len() ==> (#[trigger] s[i]).peer_id != (#[trigger] s[j]).peer_id
}

/// A well-formed swarm: a 20-byte info hash and well-formed members.
pub open spec fn swarm_wf(sw: SwarmModel) -> bool {
    sw.info_hash.len() == 20 && peers_wf(sw.peers)
}

/// A well-formed store: well-formed swarms, no two for the same info hash.
pub open spec fn store_wf(ss: Seq<SwarmModel>) -> bool {
    &&& forall|i: int| 0 <= i < ss.len() ==> swarm_wf(#[trigger] ss[i])
    &&& forall|i: int, j: int|
        0 <= i < j < ss.len() ==> (#[trigger] ss[i]).info_hash != (#[trigger] ss[j]).info_hash
}

/// Whether a peer id occurs among the first `upto` members.
pub open spec fn peer_id_among(s: Seq<PeerEntryModel>, upto: int, pid: Seq<u8>) -> bool {
    exists|j: int| 0 <= j < upto && (#[trigger] s[j]).peer_id == pid
}

/// What one scrape triple must hold for `h` at time `now`: counts over the
/// members that would survive reaping, and zeroes for an unknown hash.
pub open spec fn scrape_stats_of(ss: Seq<SwarmModel>, h: Seq<u8>, now: u64) -> ScrapeStats {
    if has_swarm(ss, h) {
        let sw = ss[swarm_index(ss, h)];
        let live = fresh_peers(sw.peers, now);
        ScrapeStats {
            seeders: clamp_u32(seeder_count(live)),
            completed: clamp_u32(sw.completed as int),
            leechers: clamp_u32(leecher_count(live)),
        }
    } else {
        ScrapeStats { seeders: 0, completed: 0, leechers: 0 }
    }
}

/// One scrape triple, in wire width.
#[derive(PartialEq, Eq, Structural, Debug, Clone, Copy)]
pub struct ScrapeStats {
    pub seeders: u32,
    pub completed: u32,
    pub leechers: u32,
}

/// What an announce returns to the client.
#[derive(Debug)]
pub struct AnnounceReply {
    pub interval: u32,
    pub leechers: u32,
    pub seeders: u32,
    pub peers: Vec<Peer>,
}

/// Compares two byte vectors.
fn bytes_eq(a: &Vec<u8>, b: &Vec<u8>) -> (r: bool)
    ensures
        r == (a@ == b@),
{
    if a.len() != b.len() {
        return false;
    }
    let n = a.len();
    let mut i: usize = 0;
    while i < n
        invariant
            n == a.len(),
            n == b.len(),
            i <= n,
            forall|j: int| 0 <= j < i ==> a@[j] == b@[j],
        decreases n - i,
    {
        if a[i] != b[i] {
            return false;
        }
        i = i + 1;
    }
    proof {
        assert(a@ =~= b@);
    }
    true
}

/// The fresh members at `now`, cloned into a new vector; well-formedness of
/// the member list survives, as does every fresh member.
fn live_peers(peers: &Vec<PeerEntry>, now: u64) -> (r: Vec<PeerEntry>)
    requires
        peers_wf(peer_models(peers@)),
    ensures
        peer_models(r@) == fresh_peers(peer_models(peers@), now),
        peers_wf(peer_models(r@)),
{
    let ghost src = peer_models(peers@);
    let n = peers.len();
    let mut kept: Vec<PeerEntry> = Vec::new();
    let mut i: usize = 0;
    proof {
        reveal(Seq::filter);
        assert(src.take(0) =~= Seq::<PeerEntryModel>::empty());
        assert(peer_models(kept@) =~= Seq::<PeerEntryModel>::empty());
    }
    while i < n
        invariant
            n == peers.len(),
            i <= n,
            src == peer_models(peers@),
            peers_wf(src),
            peers_wf(peer_models(kept@)),
            peer_models(kept@) == fresh_peers(src.take(i as int), now),
            forall|k: int|
                0 <= k < kept@.len() ==> peer_id_among(
                    src,
                    i as int,
                    (#[trigger] peer_models(kept@)[k]).peer_id,
                ),
        decreases n - i,
    {
        let e = &peers[i];
        proof {
            reveal(Seq::filter);
            assert(src.take(i as int + 1).drop_last() =~= src.take(i as int));
            assert(src.take(i as int + 1).last() == e@);
        }
        let live = if now <= PEER_STALENESS {
            true
        } else {
            e.last_announce >= now - PEER_STALENESS
        };
        if live {
            let ghost prev = peer_models(kept@);
            proof {
                assert(peer_fresh(e@, now));
                assert forall|a: int| 0 <= a < prev.len() implies (#[trigger] prev[a]).peer_id
                    != e@.peer_id by {
                    let j = choose|j: int|
                        0 <= j < i && (#[trigger] src[j]).peer_id == prev[a].peer_id;
                    assert(src[j].peer_id != src[i as int].peer_id);
                }
            }
            let copy = e.clone();
            kept.push(copy);
            proof {
                assert(peer_models(kept@) =~= prev.push(e@));
                let cur = prev.push(e@);
                assert(src[i as int].peer_id.len() == 20);
                assert forall|a: int, b: int| 0 <= a < b < cur.len() implies (#[trigger] cur[a]).peer_id
                    != (#[trigger] cur[b]).peer_id by {
                    if b < prev.len() {
                        assert(cur[a] == prev[a]);
                        assert(cur[b] == prev[b]);
                    } else {
                        assert(cur[b] == e@);
                        assert(cur[a] == prev[a]);
                    }
                }
                assert forall|k: int| 0 <= k < cur.len() implies peer_id_among(
                    src,
                    i as int + 1,
                    (#[trigger] cur[k]).peer_id,
                ) by {
                    if k < prev.len() {
                        assert(cur[k] == prev[k]);
                        assert(peer_id_among(src, i as int, prev[k].peer_id));
                        let j = choose|j: int|
                            0 <= j < i && (#[trigger] src[j]).peer_id == prev[k].peer_id;
                        assert(0 <= j < i as int + 1 && src[j].peer_id == cur[k].peer_id);
                    } else {
                        assert(cur[k] == e@);
                        assert(src[i as int].peer_id == e@.peer_id);
                    }
                }
            }
        } else {
            proof {
                assert(!peer_fresh(e@, now));
            }
        }
        i = i + 1;
    }
    proof {
        assert(src.take(n as int) =~= src);
    }
    kept
}

/// Where a most-recent-first insertion puts `p`: before the first member
/// announced strictly less recently than `p`, after every other.
pub open spec fn insert_by_recency(
    s: Seq<PeerEntryModel>,
    p: PeerEntryModel,
) -> Seq<PeerEntryModel>
    decreases s.len(),
{
    if s.len() == 0 {
        seq![p]
    } else if p.last_announce > s[0].last_announce {
        seq![p] + s
    } else {
        seq![s[0]] + insert_by_recency(s.drop_first(), p)
    }
}

/// The members ordered most-recently-announced first; members of equal
/// recency keep their relative (insertion) order.
pub open spec fn by_recency(s: Seq<PeerEntryModel>) -> Seq<PeerEntryModel>
    decreases s.len(),
{
    if s.len() == 0 {
        Seq::empty()
    } else {
        insert_by_recency(by_recency(s.drop_last()), s.last())
    }
}

/// How many peers an announce may return: a negative `num_want` asks for the
/// server default, and the server cap holds whatever the client asks.
pub open spec fn want_limit(num_want: i32) -> int {
    if num_want < 0 {
        MAX_PEERS_RETURNED as int
    } else if num_want as int > MAX_PEERS_RETURNED as int {
        MAX_PEERS_RETURNED as int
    } else {
        num_want as int
    }
}

/// The peer list an announce returns: every member but the requester, most
/// recent first, truncated to `limit`.
pub open spec fn peer_list(
    s: Seq<PeerEntryModel>,
    requester: Seq<u8>,
    limit: int,
) -> Seq<PeerEntryModel> {
    let ordered = by_recency(without_peer(s, requester));
    if limit < ordered.len() {
        ordered.take(limit)
    } else {
        ordered
    }
}

/// Members reduced to the addresses the wire carries.
pub open spec fn wire_peers(s: Seq<PeerEntryModel>) -> Seq<Peer> {
    s.map_values(|p: PeerEntryModel| Peer { ip: p.ip, port: p.port })
}

/// Inserting `p` at the first position whose member is announced strictly
/// less recently splits the sequence exactly there.
proof fn lemma_insert_by_recency_at(s: Seq<PeerEntryModel>, p: PeerEntryModel, j: int)
    requires
        0 <= j <= s.len(),
        forall|k: int|
            0 <= k < j ==> !(p.last_announce > (#[trigger] s[k]).last_announce),
        j < s.len() ==> p.last_announce > s[j].last_announce,
    ensures
        insert_by_recency(s, p) == s.take(j) + seq![p] + s.skip(j),
    decreases s.len(),
{
    if s.len() == 0 {
        assert(insert_by_recency(s, p) =~= s.take(j) + seq![p] + s.skip(j));
    } else if p.last_announce > s[0].last_announce {
        assert(j == 0);
        assert(insert_by_recency(s, p) =~= s.take(j) + seq![p] + s.skip(j));
    } else {
        assert(j >= 1);
        let t = s.drop_first();
        assert forall|k: int|
            0 <= k < j - 1 implies !(p.last_announce > (#[trigger] t[k]).last_announce) by {
            assert(t[k] == s[k + 1]);
        }
        assert(j - 1 < t.len() ==> p.last_announce > t[j - 1].last_announce);
        lemma_insert_by_recency_at(t, p, j - 1);
        assert(insert_by_recency(s, p) =~= s.take(j) + seq![p] + s.skip(j));
    }
}

/// Inserts `p` into `out` before the first member announced strictly less
/// recently than `p`.
fn insert_sorted(out: &mut Vec<PeerEntry>, p: PeerEntry)
    ensures
        peer_models(final(out)@) == insert_by_recency(peer_models(old(out)@), p@),
{
    let n = out.len();
    let mut j: usize = 0;
    loop
        invariant_except_break
            n == out.len(),
            out@ == old(out)@,
            j <= n,
            forall|k: int|
                0 <= k < j ==> !(p@.last_announce > (#[trigger] peer_models(
                    out@,
                )[k]).last_announce),
        ensures
            n == out.len(),
            out@ == old(out)@,
            j <= n,
            forall|k: int|
                0 <= k < j ==> !(p@.last_announce > (#[trigger] peer_models(
                    out@,
                )[k]).last_announce),
            j < n ==> p@.last_announce > peer_models(out@)[j as int].last_announce,
        decreases n - j,
    {
        if j == n {
            break;
        }
        if p.last_announce > out[j].last_announce {
            break;
        }
        j = j + 1;
    }
    proof {
        lemma_insert_by_recency_at(peer_models(out@), p@, j as int);
    }
    let ghost prev = peer_models(out@);
    out.insert(j, p);
    proof {
        assert(peer_models(out@) =~= prev.take(j as int) + seq![p@] + prev.skip(j as int));
    }
}

/// The members reordered most-recently-announced first, into a new vector.
fn sort_by_recency(v: &Vec<PeerEntry>) -> (r: Vec<PeerEntry>)
    ensures
        peer_models(r@) == by_recency(peer_models(v@)),
{
    let ghost src = peer_models(v@);
    let n = v.len();
    let mut out: Vec<PeerEntry> = Vec::new();
    let mut i: usize = 0;
    proof {
        assert(src.take(0) =~= Seq::<PeerEntryModel>::empty());
        assert(peer_models(out@) =~= Seq::<PeerEntryModel>::empty());
    }
    while i < n
        invariant
            n == v.len(),
            i <= n,
            src == peer_models(v@),
            peer_models(out@) == by_recency(src.take(i as int)),
        decreases n - i,
    {
        let p = v[i].clone();
        insert_sorted(&mut out, p);
        proof {
            assert(src.take(i as int + 1).drop_last() =~= src.take(i as int));
            assert(src.take(i as int + 1).last() == src[i as int]);
        }
        i = i + 1;
    }
    proof {
        assert(src.take(n as int) =~= src);
    }
    out
}

/// The members with the one holding `pid` removed, cloned into a new vector;
/// well-formedness of the member list survives.
fn remove_peer_vec(peers: &Vec<PeerEntry>, pid: &Vec<u8>) -> (r: Vec<PeerEntry>)
    requires
        peers_wf(peer_models(peers@)),
    ensures
        peer_models(r@) == without_peer(peer_models(peers@), pid@),
        peers_wf(peer_models(r@)),
{
    let ghost src = peer_models(peers@);
    let n = peers.len();
    let mut kept: Vec<PeerEntry> = Vec::new();
    let mut i: usize = 0;
    proof {
        reveal(Seq::filter);
        assert(src.take(0) =~= Seq::<PeerEntryModel>::empty());
        assert(peer_models(kept@) =~= Seq::<PeerEntryModel>::empty());
    }
    while i < n
        invariant
            n == peers.len(),
            i <= n,
            src == peer_models(peers@),
            peers_wf(src),
            peers_wf(peer_models(kept@)),
            peer_models(kept@) == without_peer(src.take(i as int), pid@),
            forall|k: int|
                0 <= k < kept@.len() ==> peer_id_among(
                    src,
                    i as int,
                    (#[trigger] peer_models(kept@)[k]).peer_id,
                ),
        decreases n - i,
    {
        let e = &peers[i];
        proof {
            reveal(Seq::filter);
            assert(src.take(i as int + 1).drop_last() =~= src.take(i as int));
            assert(src.take(i as int + 1).last() == e@);
        }
        if !bytes_eq(&e.peer_id, pid) {
            let ghost prev = peer_models(kept@);
            proof {
                assert(e@.peer_id != pid@);
                assert forall|a: int| 0 <= a < prev.len() implies (#[trigger] prev[a]).peer_id
                    != e@.peer_id by {
                    let j = choose|j: int|
                        0 <= j < i && (#[trigger] src[j]).peer_id == prev[a].peer_id;
                    assert(src[j].peer_id != src[i as int].peer_id);
                }
            }
            let copy = e.clone();
            kept.push(copy);
            proof {
                assert(peer_models(kept@) =~= prev.push(e@));
                let cur = prev.push(e@);
                assert(src[i as int].peer_id.len() == 20);
                assert forall|a: int, b: int| 0 <= a < b < cur.len() implies (#[trigger] cur[a]).peer_id
                    != (#[trigger] cur[b]).peer_id by {
                    if b < prev.len() {
                        assert(cur[a] == prev[a]);
                        assert(cur[b] == prev[b]);
                    } else {
                        assert(cur[b] == e@);
                        assert(cur[a] == prev[a]);
                    }
                }
                assert forall|k: int| 0 <= k < cur.len() implies peer_id_among(
                    src,
                    i as int + 1,
                    (#[trigger] cur[k]).peer_id,
                ) by {
                    if k < prev.len() {
                        assert(cur[k] == prev[k]);
                        assert(peer_id_among(src, i as int, prev[k].peer_id));
                        let j = choose|j: int|
                            0 <= j < i && (#[trigger] src[j]).peer_id == prev[k].peer_id;
                        assert(0 <= j < i as int + 1 && src[j].peer_id == cur[k].peer_id);
                    } else {
                        assert(cur[k] == e@);
                        assert(src[i as int].peer_id == e@.peer_id);
                    }
                }
            }
        } else {
            proof {
                assert(e@.peer_id == pid@);
            }
        }
        i = i + 1;
    }
    proof {
        assert(src.take(n as int) =~= src);
    }
    kept
}

/// Upserts `p`: replaces the member holding `p`'s id, or appends `p` when
/// its id is new; well-formedness of the member list survives.
fn upsert_peer_vec(peers: &mut Vec<PeerEntry>, p: PeerEntry)
    requires
        peers_wf(peer_models(old(peers)@)),
        p@.peer_id.len() == 20,
    ensures
        peer_models(final(peers)@) == upsert_peer(peer_models(old(peers)@), p@),
        peers_wf(peer_models(final(peers)@)),
{
    let ghost src = peer_models(old(peers)@);
    let n = peers.len();
    let mut i: usize = 0;
    loop
        invariant_except_break
            n == peers.len(),
            peers@ == old(peers)@,
            src == peer_models(peers@),
            i <= n,
            forall|j: int| 0 <= j < i ==> (#[trigger] src[j]).peer_id != p@.peer_id,
        ensures
            n == peers.len(),
            peers@ == old(peers)@,
            src == peer_models(peers@),
            i <= n,
            forall|j: int| 0 <= j < i ==> (#[trigger] src[j]).peer_id != p@.peer_id,
            i < n ==> src[i as int].peer_id == p@.peer_id,
        decreases n - i,
    {
        if i == n {
            break;
        }
        proof {
            assert(src[i as int] == peers@[i as int]@);
        }
        if bytes_eq(&peers[i].peer_id, &p.peer_id) {
            break;
        }
        i = i + 1;
    }
    if i < n {
        peers.remove(i);
        peers.insert(i, p);
        proof {
            assert(has_peer(src, src[i as int].peer_id));
            let w = choose|w: int| 0 <= w < src.len() && (#[trigger] src[w]).peer_id == p@.peer_id;
            assert(w == i) by {
                assert(peers_wf(src));
            }
            assert(peer_models(peers@) =~= src.update(i as int, p@));
            let cur = src.update(i as int, p@);
            assert forall|a: int, b: int| 0 <= a < b < cur.len() implies (#[trigger] cur[a]).peer_id
                != (#[trigger] cur[b]).peer_id by {
                assert((#[trigger] src[a]).peer_id != (#[trigger] src[b]).peer_id);
                assert(cur[a].peer_id == src[a].peer_id);
                assert(cur[b].peer_id == src[b].peer_id);
            }
        }
    } else {
        proof {
            assert(!has_peer(src, p@.peer_id));
        }
        peers.push(p);
        proof {
            assert(peer_models(peers@) =~= src.push(p@));
            let cur = src.push(p@);
            assert forall|a: int, b: int| 0 <= a < b < cur.len() implies (#[trigger] cur[a]).peer_id
                != (#[trigger] cur[b]).peer_id by {
                if b < src.len() {
                    assert(cur[a] == src[a]);
                    assert(cur[b] == src[b]);
                } else {
                    assert(cur[b] == p@);
                    assert(cur[a] == src[a]);
                    assert(!(src[a].peer_id == p@.peer_id));
                }
            }
        }
    }
}

/// Seeders among the members.
fn count_seeders(peers: &Vec<PeerEntry>) -> (r: usize)
    ensures
        r == seeder_count(peer_models(peers@)),
{
    let ghost src = peer_models(peers@);
    let n = peers.len();
    let mut count: usize = 0;
    let mut i: usize = 0;
    proof {
        reveal(Seq::filter);
        assert(src.take(0) =~= Seq::<PeerEntryModel>::empty());
    }
    while i < n
        invariant
            n == peers.len(),
            i <= n,
            src == peer_models(peers@),
            count <= i,
            count == seeder_count(src.take(i as int)),
        decreases n - i,
    {
        proof {
            reveal(Seq::filter);
            assert(src.take(i as int + 1).drop_last() =~= src.take(i as int));
            assert(src.take(i as int + 1).last() == peers@[i as int]@);
        }
        if peers[i].left == 0 {
            count = count + 1;
        }
        i = i + 1;
    }
    proof {
        assert(src.take(n as int) =~= src);
    }
    count
}

/// Leechers among the members.
fn count_leechers(peers: &Vec<PeerEntry>) -> (r: usize)
    ensures
        r == leecher_count(peer_models(peers@)),
{
    let ghost src = peer_models(peers@);
    let n = peers.len();
    let mut count: usize = 0;
    let mut i: usize = 0;
    proof {
        reveal(Seq::filter);
        assert(src.take(0) =~= Seq::<PeerEntryModel>::empty());
    }
    while i < n
        invariant
            n == peers.len(),
            i <= n,
            src == peer_models(peers@),
            count <= i,
            count == leecher_count(src.take(i as int)),
        decreases n - i,
    {
        proof {
            reveal(Seq::filter);
            assert(src.take(i as int + 1).drop_last() =~= src.take(i as int));
            assert(src.take(i as int + 1).last() == peers@[i as int]@);
        }
        if peers[i].left > 0 {
            count = count + 1;
        }
        i = i + 1;
    }
    proof {
        assert(src.take(n as int) =~= src);
    }
    count
}

/// No member of `without_peer(s, pid)` holds `pid`.
proof fn lemma_without_peer_absent(s: Seq<PeerEntryModel>, pid: Seq<u8>)
    ensures
        !has_peer(without_peer(s, pid), pid),
    decreases s.len(),
{
    reveal(Seq::filter);
    if s.len() > 0 {
        let t = s.drop_last();
        lemma_without_peer_absent(t, pid);
        let w = without_peer(s, pid);
        if has_peer(w, pid) {
            let k = choose|k: int| 0 <= k < w.len() && (#[trigger] w[k]).peer_id == pid;
            if s.last().peer_id != pid {
                if k < w.len() - 1 {
                    assert(w[k] == without_peer(t, pid)[k]);
                    assert(has_peer(without_peer(t, pid), pid));
                } else {
                    assert(w[k] == s.last());
                }
            } else {
                assert(w[k] == without_peer(t, pid)[k]);
                assert(has_peer(without_peer(t, pid), pid));
            }
            assert(false);
        }
    }
}

/// The members that survive reaping are fresh, come from the original list,
/// and stay well-formed.
proof fn lemma_fresh_peers_props(s: Seq<PeerEntryModel>, now: u64)
    ensures
        forall|k: int|
            0 <= k < fresh_peers(s, now).len() ==> peer_fresh(
                #[trigger] fresh_peers(s, now)[k],
                now,
            ),
        forall|k: int|
            0 <= k < fresh_peers(s, now).len() ==> exists|j: int|
                0 <= j < s.len() && #[trigger] fresh_peers(s, now)[k] == s[j],
        peers_wf(s) ==> peers_wf(fresh_peers(s, now)),
    decreases s.len(),
{
    reveal(Seq::filter);
    if s.len() > 0 {
        let t = s.drop_last();
        lemma_fresh_peers_props(t, now);
        let ft = fresh_peers(t, now);
        let fs = fresh_peers(s, now);
        assert forall|k: int| 0 <= k < ft.len() implies exists|j: int|
            0 <= j < s.len() && #[trigger] ft[k] == s[j] by {
            let j = choose|j: int| 0 <= j < t.len() && #[trigger] ft[k] == t[j];
            assert(ft[k] == s[j]);
        }
        if peer_fresh(s.last(), now) {
            assert(fs == ft.push(s.last()));
            assert forall|k: int| 0 <= k < fs.len() implies exists|j: int|
                0 <= j < s.len() && #[trigger] fs[k] == s[j] by {
                if k < fs.len() - 1 {
                    assert(fs[k] == ft[k]);
                    let j = choose|j: int| 0 <= j < s.len() && #[trigger] ft[k] == s[j];
                    assert(fs[k] == s[j]);
                } else {
                    assert(fs[k] == s[s.len() - 1]);
                }
            }
            if peers_wf(s) {
                assert(peers_wf(t));
                assert forall|a: int, b: int| 0 <= a < b < fs.len() implies (
                #[trigger] fs[a]).peer_id != (#[trigger] fs[b]).peer_id by {
                    if b < fs.len() - 1 {
                        assert(fs[a] == ft[a]);
                        assert(fs[b] == ft[b]);
                    } else {
                        assert(fs[a] == ft[a]);
                        let j = choose|j: int| 0 <= j < t.len() && #[trigger] ft[a] == t[j];
                        assert(fs[a] == s[j]);
                        assert(s[j].peer_id != s[s.len() - 1].peer_id);
                    }
                }
            }
        } else {
            assert(fs == ft);
            if peers_wf(s) {
                assert(peers_wf(t));
            }
        }
    }
}

/// Reaping a list whose members are all fresh changes nothing.
proof fn lemma_fresh_peers_identity(s: Seq<PeerEntryModel>, now: u64)
    requires
        forall|k: int| 0 <= k < s.len() ==> peer_fresh(#[trigger] s[k], now),
    ensures
        fresh_peers(s, now) == s,
    decreases s.len(),
{
    reveal(Seq::filter);
    if s.len() > 0 {
        let t = s.drop_last();
        assert forall|k: int| 0 <= k < t.len() implies peer_fresh(#[trigger] t[k], now) by {
            assert(t[k] == s[k]);
        }
        lemma_fresh_peers_identity(t, now);
        assert(peer_fresh(s.last(), now));
        assert(fresh_peers(s, now) =~= s);
    } else {
        assert(fresh_peers(s, now) =~= s);
    }
}

/// An upsert keeps the member list well-formed.
proof fn lemma_upsert_wf(s: Seq<PeerEntryModel>, p: PeerEntryModel)
    requires
        peers_wf(s),
        p.peer_id.len() == 20,
    ensures
        peers_wf(upsert_peer(s, p)),
{
    let u = upsert_peer(s, p);
    if has_peer(s, p.peer_id) {
        let w = peer_index(s, p.peer_id);
        assert(0 <= w < s.len() && s[w].peer_id == p.peer_id);
        assert forall|a: int, b: int| 0 <= a < b < u.len() implies (#[trigger] u[a]).peer_id != (
        #[trigger] u[b]).peer_id by {
            assert(u[a].peer_id == s[a].peer_id);
            assert(u[b].peer_id == s[b].peer_id);
            assert(s[a].peer_id != s[b].peer_id);
        }
    } else {
        assert forall|a: int, b: int| 0 <= a < b < u.len() implies (#[trigger] u[a]).peer_id != (
        #[trigger] u[b]).peer_id by {
            if b < s.len() {
                assert(u[a] == s[a]);
                assert(u[b] == s[b]);
            } else {
                assert(u[b] == p);
                assert(u[a] == s[a]);
                assert(!(s[a].peer_id == p.peer_id));
            }
        }
    }
}

/// Law: after an announce with a Stopped event, the announcing peer is
/// absent from the swarm's member list, and absent from the store's view of
/// that info hash — so no later scrape or announce sees it.
pub proof fn lemma_stopped_removes_peer(
    ss: Seq<SwarmModel>,
    h: Seq<u8>,
    p: PeerEntryModel,
    now: u64,
)
    requires
        store_wf(ss),
    ensures
        !has_peer(swarm_peers_after_announce(ss, h, p, Event::Stopped, now), p.peer_id),
        forall|i: int|
            0 <= i < store_after_announce(ss, h, p, Event::Stopped, now).len() && (
            #[trigger] store_after_announce(ss, h, p, Event::Stopped, now)[i]).info_hash == h
                ==> !has_peer(
                store_after_announce(ss, h, p, Event::Stopped, now)[i].peers,
                p.peer_id,
            ),
{
    let after = store_after_announce(ss, h, p, Event::Stopped, now);
    if has_swarm(ss, h) {
        let w = swarm_index(ss, h);
        lemma_without_peer_absent(fresh_peers(ss[w].peers, now), p.peer_id);
        assert forall|i: int| 0 <= i < after.len() && (#[trigger] after[i]).info_hash == h
            implies !has_peer(after[i].peers, p.peer_id) by {
            if i != w {
                assert(after[i] == ss[i]);
                assert(ss[i].info_hash != ss[w].info_hash);
                assert(false);
            }
        }
    } else {
        lemma_without_peer_absent(Seq::<PeerEntryModel>::empty(), p.peer_id);
        assert(swarm_peers_after_announce(ss, h, p, Event::Stopped, now)
            == Seq::<PeerEntryModel>::empty());
        assert(!has_peer(Seq::<PeerEntryModel>::empty(), p.peer_id));
        assert forall|i: int| 0 <= i < after.len() && (#[trigger] after[i]).info_hash == h
            implies !has_peer(after[i].peers, p.peer_id) by {
            assert(after[i] == ss[i]);
            assert(has_swarm(ss, h));
            assert(false);
        }
    }
}

/// Law: an announce that is not a Stopped event leaves its peer present;
/// every other peer's presence is exactly what reaping alone would leave,
/// and a peer new to the reaped list grows it by exactly one — so announces
/// of distinct peers lose no update.
pub proof fn lemma_announce_keeps_others(
    s: Seq<PeerEntryModel>,
    p: PeerEntryModel,
    event: Event,
    now: u64,
    other: Seq<u8>,
)
    requires
        !(event is Stopped),
    ensures
        has_peer(peers_after_announce(s, p, event, now), p.peer_id),
        other != p.peer_id ==> has_peer(peers_after_announce(s, p, event, now), other)
            == has_peer(fresh_peers(s, now), other),
        !has_peer(fresh_peers(s, now), p.peer_id) ==> peers_after_announce(
            s,
            p,
            event,
            now,
        ).len() == fresh_peers(s, now).len() + 1,
        has_peer(fresh_peers(s, now), p.peer_id) ==> peers_after_announce(
            s,
            p,
            event,
            now,
        ).len() == fresh_peers(s, now).len(),
{
    let live = fresh_peers(s, now);
    let after = peers_after_announce(s, p, event, now);
    if has_peer(live, p.peer_id) {
        let w = peer_index(live, p.peer_id);
        assert(0 <= w < live.len() && live[w].peer_id == p.peer_id);
        assert(after == live.update(w, p));
        assert(after[w] == p);
        assert(has_peer(after, p.peer_id));
        if other != p.peer_id {
            if has_peer(after, other) {
                let k = choose|k: int| 0 <= k < after.len() && (#[trigger] after[k]).peer_id
                    == other;
                assert(k != w);
                assert(after[k] == live[k]);
                assert(has_peer(live, other));
            }
            if has_peer(live, other) {
                let k = choose|k: int| 0 <= k < live.len() && (#[trigger] live[k]).peer_id
                    == other;
                assert(k != w);
                assert(after[k] == live[k]);
                assert(has_peer(after, other));
            }
        }
    } else {
        assert(after == live.push(p));
        assert(after[live.len() as int] == p);
        assert(has_peer(after, p.peer_id));
        if other != p.peer_id {
            if has_peer(after, other) {
                let k = choose|k: int| 0 <= k < after.len() && (#[trigger] after[k]).peer_id
                    == other;
                assert(k < live.len());
                assert(after[k] == live[k]);
                assert(has_peer(live, other));
            }
            if has_peer(live, other) {
                let k = choose|k: int| 0 <= k < live.len() && (#[trigger] live[k]).peer_id
                    == other;
                assert(after[k] == live[k]);
                assert(has_peer(after, other));
            }
        }
    }
}

/// Law: announcing the identical entry once more at the same instant is
/// idempotent — the member list, and so the swarm's size, is unchanged.
pub proof fn lemma_announce_idempotent(
    s: Seq<PeerEntryModel>,
    p: PeerEntryModel,
    event: Event,
    now: u64,
)
    requires
        !(event is Stopped),
        peers_wf(s),
        p.peer_id.len() == 20,
        p.last_announce == now,
    ensures
        ({
            let once = peers_after_announce(s, p, event, now);
            peers_after_announce(once, p, event, now) == once
        }),
{
    let live = fresh_peers(s, now);
    let once = peers_after_announce(s, p, event, now);
    lemma_fresh_peers_props(s, now);
    assert(peer_fresh(p, now));
    assert forall|k: int| 0 <= k < once.len() implies peer_fresh(#[trigger] once[k], now) by {
        if has_peer(live, p.peer_id) {
            let w = peer_index(live, p.peer_id);
            if k == w {
                assert(once[k] == p);
            } else {
                assert(once[k] == live[k]);
            }
        } else {
            if k < live.len() {
                assert(once[k] == live[k]);
            } else {
                assert(once[k] == p);
            }
        }
    }
    lemma_fresh_peers_identity(once, now);
    assert(fresh_peers(once, now) == once);
    lemma_upsert_wf(live, p);
    assert(peers_wf(once)) by {
        if has_peer(live, p.peer_id) {
        } else {
        }
    }
    assert(has_peer(once, p.peer_id)) by {
        lemma_announce_keeps_others(s, p, event, now, p.peer_id);
    }
    let w2 = peer_index(once, p.peer_id);
    assert(0 <= w2 < once.len() && once[w2].peer_id == p.peer_id);
    assert(once[w2] == p) by {
        if has_peer(live, p.peer_id) {
            let w = peer_index(live, p.peer_id);
            if w2 != w {
                assert(once[w2] == live[w2]);
                assert(once[w] == p);
                assert(once[w2].peer_id != once[w].peer_id);
                assert(false);
            }
        } else {
            if w2 != live.len() {
                assert(once[w2] == live[w2]);
                assert(once[live.len() as int] == p);
                assert(once[w2].peer_id != once[live.len() as int].peer_id);
                assert(false);
            }
        }
    }
    assert(peers_after_announce(once, p, event, now) == upsert_peer(once, p));
    assert(upsert_peer(once, p) =~= once);
}

/// A member count in wire width.
fn clamp_count(n: usize) -> (r: u32)
    ensures
        r == clamp_u32(n as int),
{
    if n > 0xFFFF_FFFF {
        0xFFFF_FFFF
    } else {
        n as u32
    }
}

/// The first `limit` members (all of them, when fewer), as wire addresses.
fn take_wire(v: &Vec<PeerEntry>, limit: usize) -> (r: Vec<Peer>)
    ensures
        r@ == wire_peers(
            if (limit as int) < peer_models(v@).len() {
                peer_models(v@).take(limit as int)
            } else {
                peer_models(v@)
            },
        ),
{
    let ghost src = peer_models(v@);
    let n = v.len();
    let m = if limit < n {
        limit
    } else {
        n
    };
    let mut out: Vec<Peer> = Vec::new();
    let mut i: usize = 0;
    proof {
        assert(out@ =~= wire_peers(src.take(0)));
    }
    while i < m
        invariant
            n == v.len(),
            m <= n,
            i <= m,
            src == peer_models(v@),
            out@ == wire_peers(src.take(i as int)),
        decreases m - i,
    {
        let e = &v[i];
        out.push(Peer { ip: e.ip, port: e.port });
        proof {
            assert(out@ =~= wire_peers(src.take(i as int + 1)));
        }
        i = i + 1;
    }
    proof {
        if (limit as int) < src.len() {
            assert(src.take(m as int) == src.take(limit as int));
        } else {
            assert(src.take(m as int) =~= src);
        }
    }
    out
}

/// Builds the response fields an announce returns, from the swarm's members
/// right after the operation.
fn make_reply(peers: &Vec<PeerEntry>, requester: &Vec<u8>, num_want: i32) -> (r: AnnounceReply)
    requires
        peers_wf(peer_models(peers@)),
    ensures
        r.interval == ANNOUNCE_INTERVAL,
        r.seeders == clamp_u32(seeder_count(without_peer(peer_models(peers@), requester@))),
        r.leechers == clamp_u32(leecher_count(without_peer(peer_models(peers@), requester@))),
        r.peers@ == wire_peers(peer_list(peer_models(peers@), requester@, want_limit(num_want))),
{
    let others = remove_peer_vec(peers, requester);
    let s = count_seeders(&others);
    let l = count_leechers(&others);
    let ordered = sort_by_recency(&others);
    let limit: usize = if num_want < 0 {
        MAX_PEERS_RETURNED as usize
    } else if num_want > MAX_PEERS_RETURNED as i32 {
        MAX_PEERS_RETURNED as usize
    } else {
        num_want as usize
    };
    proof {
        assert(limit as int == want_limit(num_want));
    }
    let list = take_wire(&ordered, limit);
    AnnounceReply {
        interval: ANNOUNCE_INTERVAL,
        leechers: clamp_count(l),
        seeders: clamp_count(s),
        peers: list,
    }
}

/// The swarm store: one entry per announced info hash.
pub struct Store {
    swarms: Vec<Swarm>,
}

impl View for Store {
    type V = Seq<SwarmModel>;

    closed spec fn view(&self) -> Seq<SwarmModel> {
        self.swarms@.map_values(|sw: Swarm| sw@)
    }
}

impl Store {
    /// Well-formed: well-formed swarms, at most one per info hash.
    pub open spec fn wf(&self) -> bool {
        store_wf(self@)
    }

    /// An empty store.
    pub fn new() -> (r: Store)
        ensures
            r@ == Seq::<SwarmModel>::empty(),
            r.wf(),
    {
        let r = Store { swarms: Vec::new() };
        proof {
            assert(r@ =~= Seq::<SwarmModel>::empty());
        }
        r
    }

    /// Finds the index of the swarm holding `h`.
    fn find_swarm(&self, h: &Vec<u8>) -> (r: Option<usize>)
        ensures
            match r {
                Some(i) => i < self@.len() && self@[i as int].info_hash == h@,
                None => !has_swarm(self@, h@),
            },
    {
        let n = self.swarms.len();
        let mut i: usize = 0;
        while i < n
            invariant
                n == self.swarms.len(),
                i <= n,
                forall|j: int| 0 <= j < i ==> (#[trigger] self@[j]).info_hash != h@,
            decreases n - i,
        {
            proof {
                assert(self@[i as int] == self.swarms@[i as int]@);
            }
            if bytes_eq(&self.swarms[i].info_hash, h) {
                return Some(i);
            }
            i = i + 1;
        }
        None
    }

    /// Handles one announce: reaps the swarm's stale members, removes the
    /// announcer on a Stopped event or upserts it on any other, counts a
    /// completion, and returns the response computed from the members left —
    /// interval, seeder and leecher counts, and up to `num_want` (capped)
    /// other peers, most recently announced first.
    pub fn announce(
        &mut self,
        info_hash: &Vec<u8>,
        peer: PeerEntry,
        event: Event,
        num_want: i32,
        now: u64,
    ) -> (r: AnnounceReply)
        requires
            old(self).wf(),
            info_hash@.len() == 20,
            peer@.peer_id.len() == 20,
            peer.last_announce == now,
        ensures
            final(self).wf(),
            final(self)@ == store_after_announce(old(self)@, info_hash@, peer@, event, now),
            r.interval == ANNOUNCE_INTERVAL,
            r.seeders == clamp_u32(
                seeder_count(
                    without_peer(
                        swarm_peers_after_announce(old(self)@, info_hash@, peer@, event, now),
                        peer@.peer_id,
                    ),
                ),
            ),
            r.leechers == clamp_u32(
                leecher_count(
                    without_peer(
                        swarm_peers_after_announce(old(self)@, info_hash@, peer@, event, now),
                        peer@.peer_id,
                    ),
                ),
            ),
            r.peers@ == wire_peers(
                peer_list(
                    swarm_peers_after_announce(old(self)@, info_hash@, peer@, event, now),
                    peer@.peer_id,
                    want_limit(num_want),
                ),
            ),
    {
        let ghost ss0 = self@;
        let stopped = match event {
            Event::Stopped => true,
            _ => false,
        };
        match self.find_swarm(info_hash) {
            Some(i) => {
                proof {
                    assert(has_swarm(ss0, info_hash@));
                    let w = choose|w: int|
                        0 <= w < ss0.len() && (#[trigger] ss0[w]).info_hash == info_hash@;
                    assert(w == i) by {
                        assert(store_wf(ss0));
                    }
                    assert(swarm_index(ss0, info_hash@) == i);
                    assert(swarm_wf(ss0[i as int]));
                }
                let sw = self.swarms.remove(i);
                proof {
                    assert(sw@ == ss0[i as int]);
                }
                let live = live_peers(&sw.peers, now);
                let new_peers = if stopped {
                    remove_peer_vec(&live, &peer.peer_id)
                } else {
                    let mut np = live;
                    upsert_peer_vec(&mut np, peer.clone());
                    np
                };
                proof {
                    assert(peer_models(new_peers@) == peers_after_announce(
                        ss0[i as int].peers,
                        peer@,
                        event,
                        now,
                    ));
                }
                let reply = make_reply(&new_peers, &peer.peer_id, num_want);
                let completed = match event {
                    Event::Completed => {
                        if sw.completed == u64::MAX {
                            sw.completed
                        } else {
                            sw.completed + 1
                        }
                    },
                    _ => sw.completed,
                };
                let new_sw = Swarm { info_hash: sw.info_hash, completed, peers: new_peers };
                self.swarms.insert(i, new_sw);
                proof {
                    assert(self@ =~= ss0.update(i as int, new_sw@));
                    assert(new_sw@ == SwarmModel {
                        info_hash: info_hash@,
                        completed: completed_after(ss0[i as int].completed, event),
                        peers: peers_after_announce(ss0[i as int].peers, peer@, event, now),
                    });
                    assert forall|k: int| 0 <= k < self@.len() implies swarm_wf(
                        #[trigger] self@[k],
                    ) by {
                        if k != i {
                            assert(self@[k] == ss0[k]);
                            assert(store_wf(ss0));
                        } else {
                            assert(self@[k] == new_sw@);
                        }
                    }
                    assert forall|a: int, b: int| 0 <= a < b < self@.len() implies (
                    #[trigger] self@[a]).info_hash != (#[trigger] self@[b]).info_hash by {
                        assert(self@[a].info_hash == ss0[a].info_hash);
                        assert(self@[b].info_hash == ss0[b].info_hash);
                        assert(store_wf(ss0));
                    }
                }
                reply
            },
            None => {
                if stopped {
                    let reply = AnnounceReply {
                        interval: ANNOUNCE_INTERVAL,
                        leechers: 0,
                        seeders: 0,
                        peers: Vec::new(),
                    };
                    proof {
                        reveal(Seq::filter);
                        let after = swarm_peers_after_announce(
                            ss0,
                            info_hash@,
                            peer@,
                            event,
                            now,
                        );
                        assert(after =~= Seq::<PeerEntryModel>::empty());
                        assert(seeder_count(after) == 0);
                        assert(leecher_count(after) == 0);
                        assert(without_peer(after, peer@.peer_id) =~= Seq::<
                            PeerEntryModel,
                        >::empty());
                        assert(reply.peers@ =~= wire_peers(
                            peer_list(after, peer@.peer_id, want_limit(num_want)),
                        ));
                        assert(self@ == store_after_announce(ss0, info_hash@, peer@, event, now));
                    }
                    return reply;
                }
                let mut new_peers: Vec<PeerEntry> = Vec::new();
                new_peers.push(peer.clone());
                proof {
                    assert(peer_models(new_peers@) =~= seq![peer@]);
                    assert(peers_wf(peer_models(new_peers@)));
                }
                let reply = make_reply(&new_peers, &peer.peer_id, num_want);
                let completed: u64 = match event {
                    Event::Completed => 1,
                    _ => 0,
                };
                let new_sw = Swarm {
                    info_hash: crate::wire::clone_bytes(info_hash),
                    completed,
                    peers: new_peers,
                };
                self.swarms.push(new_sw);
                proof {
                    assert(self@ =~= ss0.push(new_sw@));
                    assert(new_sw@ == SwarmModel {
                        info_hash: info_hash@,
                        completed: completed_after(0, event),
                        peers: seq![peer@],
                    });
                    assert(swarm_peers_after_announce(ss0, info_hash@, peer@, event, now)
                        == seq![peer@]);
                    assert forall|k: int| 0 <= k < self@.len() implies swarm_wf(
                        #[trigger] self@[k],
                    ) by {
                        if k < ss0.len() {
                            assert(self@[k] == ss0[k]);
                            assert(store_wf(ss0));
                        } else {
                            assert(self@[k] == new_sw@);
                        }
                    }
                    assert forall|a: int, b: int| 0 <= a < b < self@.len() implies (
                    #[trigger] self@[a]).info_hash != (#[trigger] self@[b]).info_hash by {
                        if b < ss0.len() {
                            assert(self@[a] == ss0[a]);
                            assert(self@[b] == ss0[b]);
                            assert(store_wf(ss0));
                        } else {
                            assert(self@[a] == ss0[a]);
                            assert(self@[b] == new_sw@);
                            assert(!has_swarm(ss0, info_hash@));
                        }
                    }
                }
                reply
            },
        }
    }

    /// Answers one scrape: one triple per requested hash, in request order;
    /// counts cover only members that would survive reaping at `now`; an
    /// unknown hash yields zeroes and is no error.
    pub fn scrape(&self, info_hashes: &Vec<Vec<u8>>, now: u64) -> (r: Vec<ScrapeStats>)
        requires
            self.wf(),
        ensures
            r@.len() == info_hashes@.len(),
            forall|k: int|
                0 <= k < r@.len() ==> r@[k] == scrape_stats_of(self@, info_hashes@[k]@, now),
    {
        let n = info_hashes.len();
        let mut out: Vec<ScrapeStats> = Vec::new();
        let mut k: usize = 0;
        while k < n
            invariant
                n == info_hashes.len(),
                k <= n,
                self.wf(),
                out@.len() == k,
                forall|j: int|
                    0 <= j < k ==> out@[j] == scrape_stats_of(self@, info_hashes@[j]@, now),
            decreases n - k,
        {
            let h = &info_hashes[k];
            let stats = match self.find_swarm(h) {
                Some(i) => {
                    proof {
                        let w = choose|w: int|
                            0 <= w < self@.len() && (#[trigger] self@[w]).info_hash == h@;
                        assert(w == i) by {
                            assert(store_wf(self@));
                        }
                        assert(swarm_index(self@, h@) == i);
                        assert(swarm_wf(self@[i as int]));
                        assert(self.swarms@[i as int]@ == self@[i as int]);
                    }
                    let sw = &self.swarms[i];
                    let live = live_peers(&sw.peers, now);
                    let s = count_seeders(&live);
                    let l = count_leechers(&live);
                    let c: u32 = if sw.completed > 0xFFFF_FFFF {
                        0xFFFF_FFFF
                    } else {
                        sw.completed as u32
                    };
                    ScrapeStats { seeders: clamp_count(s), completed: c, leechers: clamp_count(l) }
                },
                None => ScrapeStats { seeders: 0, completed: 0, leechers: 0 },
            };
            out.push(stats);
            k = k + 1;
        }
        out
    }

    /// Removes every member whose staleness window has elapsed at `now`, in
    /// every swarm, so peers that vanished without a Stopped event disappear.
    pub fn reap(&mut self, now: u64)
        requires
            old(self).wf(),
        ensures
            final(self).wf(),
            final(self)@.len() == old(self)@.len(),
            forall|i: int|
                0 <= i < old(self)@.len() ==> final(self)@[i] == (SwarmModel {
                    info_hash: old(self)@[i].info_hash,
                    completed: old(self)@[i].completed,
                    peers: fresh_peers(old(self)@[i].peers, now),
                }),
    {
        let ghost ss0 = self@;
        let n = self.swarms.len();
        let mut out: Vec<Swarm> = Vec::new();
        let mut i: usize = 0;
        while i < n
            invariant
                n == self.swarms.len(),
                i <= n,
                ss0 == self@,
                store_wf(ss0),
                out@.len() == i,
                forall|j: int|
                    0 <= j < i ==> (#[trigger] out@[j]@) == (SwarmModel {
                        info_hash: ss0[j].info_hash,
                        completed: ss0[j].completed,
                        peers: fresh_peers(ss0[j].peers, now),
                    }),
                forall|j: int| 0 <= j < i ==> peers_wf((#[trigger] out@[j]@).peers),
            decreases n - i,
        {
            proof {
                assert(self@[i as int] == self.swarms@[i as int]@);
                assert(swarm_wf(ss0[i as int]));
            }
            let sw = &self.swarms[i];
            let live = live_peers(&sw.peers, now);
            let new_sw = Swarm {
                info_hash: crate::wire::clone_bytes(&sw.info_hash),
                completed: sw.completed,
                peers: live,
            };
            out.push(new_sw);
            i = i + 1;
        }
        self.swarms = out;
        proof {
            assert(self@.len() == ss0.len());
            assert forall|k: int| 0 <= k < self@.len() implies swarm_wf(#[trigger] self@[k]) by {
                assert(self@[k] == out@[k]@);
                assert(swarm_wf(ss0[k]));
            }
            assert forall|a: int, b: int| 0 <= a < b < self@.len() implies (
            #[trigger] self@[a]).info_hash != (#[trigger] self@[b]).info_hash by {
                assert(self@[a].info_hash == ss0[a].info_hash);
                assert(self@[b].info_hash == ss0[b].info_hash);
                assert(store_wf(ss0));
            }
        }
    }
}

} // verus!
