//! The connection registry: issues short-lived 64-bit connection ids, each
//! bound to the requester's address and its issue time, and validates them on
//! later announce and scrape requests.

use vstd::prelude::*;
use crate::CONNECTION_TTL;

verus! {

/// One issued connection id: the id, the requester's IPv4 address and port,
/// and the clock reading at issuance.
#[derive(PartialEq, Eq, Structural, Debug, Clone, Copy)]
pub struct ConnEntry {
    pub id: u64,
    pub ip: u32,
    pub port: u16,
    pub issued_at: u64,
}

/// Whether two entries of the registry hold the same id.
pub open spec fn unique_ids(s: Seq<ConnEntry>) -> bool {
    forall|i: int, j: int| 0 <= i < j < s.len() ==> (#[trigger] s[i]).id != (#[trigger] s[j]).id
}

/// The index of the entry holding `id`, when one does.
pub open spec fn has_id(s: Seq<ConnEntry>, id: u64) -> bool {
    exists|i: int| 0 <= i < s.len() && (#[trigger] s[i]).id == id
}

/// The registry after recording `e`: the entry with `e`'s id is replaced,
/// or `e` is appended when its id is new.
pub open spec fn record_conn(s: Seq<ConnEntry>, e: ConnEntry) -> Seq<ConnEntry> {
    if has_id(s, e.id) {
        let i = choose|i: int| 0 <= i < s.len() && (#[trigger] s[i]).id == e.id;
        s.update(i, e)
    } else {
        s.push(e)
    }
}

/// Whether `id` may authorize a request from (`ip`, `port`) at time `now`:
/// the id is recorded, it was issued to exactly that address, its issue time
/// is not in the future, and no more than the TTL has elapsed since.
pub open spec fn conn_valid(s: Seq<ConnEntry>, id: u64, ip: u32, port: u16, now: u64) -> bool {
    exists|i: int|
        0 <= i < s.len() && (#[trigger] s[i]).id == id && s[i].ip == ip && s[i].port == port
            && s[i].issued_at <= now && now - s[i].issued_at <= CONNECTION_TTL
}

/// An entry outlives `expire` at time `now` iff its TTL has not yet elapsed.
pub open spec fn conn_live(e: ConnEntry, now: u64) -> bool {
    now <= e.issued_at + CONNECTION_TTL
}

/// The registry stripped of every entry whose TTL has elapsed at time `now`.
pub open spec fn live_only(s: Seq<ConnEntry>, now: u64) -> Seq<ConnEntry> {
    s.filter(|e: ConnEntry| conn_live(e, now))
}

/// Whether some entry among the first `upto` holds `id`.
pub open spec fn id_among(s: Seq<ConnEntry>, upto: int, id: u64) -> bool {
    exists|j: int| 0 <= j < upto && (#[trigger] s[j]).id == id
}

/// Law: right after a connection id is recorded for an address at time `t`,
/// validation accepts that id for the same address while the TTL has not
/// elapsed, rejects it for any other address, and rejects it once the TTL
/// has elapsed.
pub proof fn lemma_issue_then_validate(
    s: Seq<ConnEntry>,
    id: u64,
    ip: u32,
    port: u16,
    t: u64,
    now: u64,
    other_ip: u32,
    other_port: u16,
)
    requires
        unique_ids(s),
    ensures
        ({
            let s1 = record_conn(s, ConnEntry { id, ip, port, issued_at: t });
            &&& (t <= now && now - t <= CONNECTION_TTL) ==> conn_valid(s1, id, ip, port, now)
            &&& (other_ip != ip || other_port != port) ==> !conn_valid(
                s1,
                id,
                other_ip,
                other_port,
                now,
            )
            &&& now - t > CONNECTION_TTL ==> !conn_valid(s1, id, ip, port, now)
        }),
{
    let e = ConnEntry { id, ip, port, issued_at: t };
    let s1 = record_conn(s, e);
    if has_id(s, id) {
        let w = choose|w: int| 0 <= w < s.len() && (#[trigger] s[w]).id == id;
        assert(s1 == s.update(w, e));
        assert(s1[w] == e);
        assert forall|j: int| 0 <= j < s1.len() && (#[trigger] s1[j]).id == id implies s1[j]
            == e by {
            if j != w {
                assert(s1[j] == s[j]);
                assert(s[j].id != s[w].id);
            }
        }
    } else {
        assert(s1 == s.push(e));
        assert(s1[s.len() as int] == e);
        assert forall|j: int| 0 <= j < s1.len() && (#[trigger] s1[j]).id == id implies s1[j]
            == e by {
            if j < s.len() {
                assert(s1[j] == s[j]);
            }
        }
    }
    if t <= now && now - t <= CONNECTION_TTL {
        assert(conn_valid(s1, id, ip, port, now));
    }
    if other_ip != ip || other_port != port {
        if conn_valid(s1, id, other_ip, other_port, now) {
            let j = choose|j: int|
                0 <= j < s1.len() && (#[trigger] s1[j]).id == id && s1[j].ip == other_ip
                    && s1[j].port == other_port && s1[j].issued_at <= now && now - s1[j].issued_at
                    <= CONNECTION_TTL;
            assert(s1[j] == e);
            assert(false);
        }
    }
    if now - t > CONNECTION_TTL {
        if conn_valid(s1, id, ip, port, now) {
            let j = choose|j: int|
                0 <= j < s1.len() && (#[trigger] s1[j]).id == id && s1[j].ip == ip && s1[j].port
                    == port && s1[j].issued_at <= now && now - s1[j].issued_at <= CONNECTION_TTL;
            assert(s1[j] == e);
            assert(false);
        }
    }
}

/// Draws a fresh connection id.
///
/// Relies on `rand::random`: one draw from the thread-local generator. The
/// result is random, so nothing is promised of it; every caller must be
/// correct whatever value comes back.
#[verifier::external_body]
fn fresh_id() -> u64 {
    rand::random::<u64>()
}

/// Issues and validates connection ids.
pub struct Registry {
    entries: Vec<ConnEntry>,
}

impl View for Registry {
    type V = Seq<ConnEntry>;

    closed spec fn view(&self) -> Seq<ConnEntry> {
        self.entries@
    }
}

impl Registry {
    /// No two entries hold the same id, so an id names one binding.
    pub open spec fn wf(&self) -> bool {
        unique_ids(self@)
    }

    /// An empty registry.
    pub fn new() -> (r: Registry)
        ensures
            r@ == Seq::<ConnEntry>::empty(),
            r.wf(),
    {
        Registry { entries: Vec::new() }
    }

    /// Finds the index of the entry holding `id`.
    fn find(&self, id: u64) -> (r: Option<usize>)
        ensures
            match r {
                Some(i) => i < self@.len() && self@[i as int].id == id,
                None => !has_id(self@, id),
            },
    {
        let mut i: usize = 0;
        while i < self.entries.len()
            invariant
                i <= self@.len(),
                forall|j: int| 0 <= j < i ==> (#[trigger] self@[j]).id != id,
            decreases self@.len() - i,
        {
            if self.entries[i].id == id {
                return Some(i);
            }
            i = i + 1;
        }
        None
    }

    /// Issues a new connection id bound to the requester's address and the
    /// present clock reading, records the binding, and returns the id.
    pub fn issue(&mut self, ip: u32, port: u16, now: u64) -> (id: u64)
        requires
            old(self).wf(),
        ensures
            final(self).wf(),
            final(self)@ == record_conn(
                old(self)@,
                ConnEntry { id, ip, port, issued_at: now },
            ),
    {
        let id = fresh_id();
        let e = ConnEntry { id, ip, port, issued_at: now };
        match self.find(id) {
            Some(i) => {
                self.entries.remove(i);
                self.entries.insert(i, e);
                proof {
                    let s = old(self)@;
                    let w = choose|w: int| 0 <= w < s.len() && (#[trigger] s[w]).id == id;
                    assert(w == i) by {
                        assert(unique_ids(s));
                    }
                    assert(self@ =~= s.update(i as int, e));
                }
            },
            None => {
                self.entries.push(e);
            },
        }
        id
    }

    /// Decides whether `id` authorizes a request from (`ip`, `port`) at time
    /// `now`: true iff the id is recorded for exactly that address and at
    /// most the TTL has elapsed since issuance.
    pub fn validate(&self, id: u64, ip: u32, port: u16, now: u64) -> (r: bool)
        requires
            self.wf(),
        ensures
            r == conn_valid(self@, id, ip, port, now),
    {
        match self.find(id) {
            Some(i) => {
                let e = self.entries[i];
                let ok = e.ip == ip && e.port == port && e.issued_at <= now && now - e.issued_at
                    <= CONNECTION_TTL;
                proof {
                    if ok {
                        assert(conn_valid(self@, id, ip, port, now));
                    } else {
                        assert forall|j: int|
                            0 <= j < self@.len() && (#[trigger] self@[j]).id == id implies j
                            == i by {
                            assert(unique_ids(self@));
                        }
                    }
                }
                ok
            },
            None => {
                proof {
                    assert(!conn_valid(self@, id, ip, port, now));
                }
                false
            },
        }
    }

    /// Removes every entry whose TTL has elapsed at time `now`, bounding the
    /// registry's growth.
    pub fn expire(&mut self, now: u64)
        requires
            old(self).wf(),
        ensures
            final(self).wf(),
            final(self)@ == live_only(old(self)@, now),
    {
        let n = self.entries.len();
        let mut kept: Vec<ConnEntry> = Vec::new();
        let mut i: usize = 0;
        proof {
            reveal(Seq::filter);
            assert(self@.take(0) =~= Seq::<ConnEntry>::empty());
        }
        while i < n
            invariant
                n == self.entries.len(),
                i <= n,
                old(self)@ == self@,
                unique_ids(self@),
                unique_ids(kept@),
                kept@ == live_only(self@.take(i as int), now),
                forall|k: int|
                    0 <= k < kept@.len() ==> id_among(self@, i as int, (#[trigger] kept@[k]).id),
            decreases n - i,
        {
            let e = self.entries[i];
            proof {
                reveal(Seq::filter);
                assert(self@.take(i as int + 1).drop_last() =~= self@.take(i as int));
                assert(self@.take(i as int + 1).last() == e);
            }
            let live = if now <= CONNECTION_TTL {
                true
            } else {
                e.issued_at >= now - CONNECTION_TTL
            };
            if live {
                proof {
                    assert(conn_live(e, now));
                    let prev = kept@;
                    assert forall|a: int| 0 <= a < prev.len() implies (#[trigger] prev[a]).id
                        != e.id by {
                        let j = choose|j: int|
                            0 <= j < i && (#[trigger] self@[j]).id == prev[a].id;
                        assert(self@[j].id != self@[i as int].id);
                    }
                }
                kept.push(e);
                proof {
                    assert forall|k: int| 0 <= k < kept@.len() implies id_among(
                        self@,
                        i as int + 1,
                        (#[trigger] kept@[k]).id,
                    ) by {
                        if k < kept@.len() - 1 {
                            assert(kept@[k] == kept@.drop_last()[k]);
                        } else {
                            assert(kept@[k] == self@[i as int]);
                        }
                    }
                }
            } else {
                proof {
                    assert(!conn_live(e, now));
                }
            }
            i = i + 1;
        }
        proof {
            assert(self@.take(n as int) =~= self@);
        }
        self.entries = kept;
    }
}

} // verus!
