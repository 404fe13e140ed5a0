use crate::message::{is_crypt_setup, sends_crypt_setup, ClientMessage, Delivery};
use crate::session::announces_removal;
use crate::state::{lemma_unique_indices, SocketBinding};
use crate::state::ServerState;
use vstd::prelude::*;

verus! {

/// A client that has not pinged for longer than this, in milliseconds, is dropped.
pub const PING_TIMEOUT_MS: u64 = 30_000;

/// A client whose last good decrypt is older than this, in milliseconds, is re-keyed.
pub const CRYPT_STALE_MS: u64 = 8_000;

/// What the janitor learns of one client outside the registry: whether its
/// outbound queue is closed.
#[derive(Debug, Clone, Copy, PartialEq, Eq, Structural)]
pub struct ClientHealth {
    pub session_id: u32,
    pub queue_closed: bool,
}

/// Milliseconds from `then` to `now`; zero when the clock went back.
pub open spec fn elapsed(now: u64, then: u64) -> u64 {
    if now >= then {
        (now - then) as u64
    } else {
        0
    }
}

/// Milliseconds from `then` to `now`; zero when the clock went back.
pub fn elapsed_ms(now: u64, then: u64) -> (r: u64)
    ensures
        r == elapsed(now, then),
{
    if now >= then {
        now - then
    } else {
        0
    }
}

/// Some report of `health` says that `s`'s queue is closed.
pub open spec fn reported_closed(health: Seq<ClientHealth>, s: u32) -> bool {
    exists|k: int| 0 <= k < health.len() && (#[trigger] health[k]).session_id == s && health[k].queue_closed
}

/// `ds` holds a delivery of `m` to `s`.
pub open spec fn has_delivery(ds: Seq<Delivery>, s: u32, m: ClientMessage) -> bool {
    exists|q: int| 0 <= q < ds.len() && (#[trigger] ds[q]).to == s && ds[q].message == m
}

/// `ds` holds a crypt reset for `s`.
pub open spec fn has_reset(ds: Seq<Delivery>, s: u32) -> bool {
    exists|q: int| 0 <= q < ds.len() && (#[trigger] ds[q]).to == s && is_crypt_setup(ds[q])
}


/// Client `s` has been re-keyed in `st`: it has no UDP peer, is in the
/// probe set, and `ds` carries its new crypt parameters to it.
pub open spec fn reset_done(st: ServerState, s: u32, ds: Seq<Delivery>) -> bool {
    &&& st.clients_without_udp@.contains(s)
    &&& forall|b: SocketBinding| #[trigger] st.clients_by_socket@.contains(b) ==> b.session_id != s
    &&& forall|j: int| #[trigger] st.client_at(j, s) ==> st.clients@[j].udp_socket_addr is None && exists|q: int|
        0 <= q < ds.len() && (#[trigger] ds[q]).to == s && sends_crypt_setup(ds[q], st.clients@[j].crypt_state)
}

/// Every client still in `st` is told by `ds` that `s` disconnected.
pub open spec fn removal_told(st: ServerState, s: u32, ds: Seq<Delivery>) -> bool {
    forall|x: u32| #[trigger] st.has_session(x) ==> exists|q: int| 0 <= q < ds.len() && (#[trigger] ds[q]).to == x
        && announces_removal(ds[q], s)
}

proof fn lemma_reset_done_kept(st: ServerState, st2: ServerState, s: u32, ds: Seq<Delivery>, ds2: Seq<Delivery>)
    requires
        reset_done(st, s, ds),
        ds.len() <= ds2.len(),
        forall|q: int| 0 <= q < ds.len() ==> ds2[q] == ds[q],
        st.clients_without_udp@.contains(s) ==> st2.clients_without_udp@.contains(s),
        forall|b: SocketBinding| #[trigger] st2.clients_by_socket@.contains(b) ==> st.clients_by_socket@.contains(b)
            || b.session_id != s,
        forall|j2: int| #[trigger] st2.client_at(j2, s) ==> exists|j: int| st.client_at(j, s) && st2.clients@[j2] == st.clients@[j],
    ensures
        reset_done(st2, s, ds2),
{
    assert forall|j2: int| #[trigger] st2.client_at(j2, s) implies st2.clients@[j2].udp_socket_addr is None && exists|q: int|
        0 <= q < ds2.len() && (#[trigger] ds2[q]).to == s && sends_crypt_setup(ds2[q], st2.clients@[j2].crypt_state) by {
        let j = choose|j: int| st.client_at(j, s) && st2.clients@[j2] == st.clients@[j];
        let q = choose|q: int| 0 <= q < ds.len() && (#[trigger] ds[q]).to == s && sends_crypt_setup(ds[q], st.clients@[j].crypt_state);
        assert(ds2[q] == ds[q]);
    }
    assert forall|b: SocketBinding| #[trigger] st2.clients_by_socket@.contains(b) implies b.session_id != s by {
        if st.clients_by_socket@.contains(b) {}
    }
}

proof fn lemma_removal_told_kept(st: ServerState, st2: ServerState, s: u32, ds: Seq<Delivery>, ds2: Seq<Delivery>)
    requires
        removal_told(st, s, ds),
        ds.len() <= ds2.len(),
        forall|q: int| 0 <= q < ds.len() ==> ds2[q] == ds[q],
        forall|x: u32| #[trigger] st2.has_session(x) ==> st.has_session(x),
    ensures
        removal_told(st2, s, ds2),
{
    assert forall|x: u32| #[trigger] st2.has_session(x) implies exists|q: int| 0 <= q < ds2.len() && (#[trigger] ds2[q]).to == x
        && announces_removal(ds2[q], s) by {
        assert(st.has_session(x));
        let q = choose|q: int| 0 <= q < ds.len() && (#[trigger] ds[q]).to == x && announces_removal(ds[q], s);
        assert(ds2[q] == ds[q]);
    }
}

impl ServerState {
    /// The time of `s`'s last ping, for a connected client.
    pub open spec fn last_ping_of(&self, s: u32) -> u64 {
        self.clients@[choose|i: int| self.client_at(i, s)].last_ping
    }

    /// The time of `s`'s last good decrypt, for a connected client.
    pub open spec fn last_good_of(&self, s: u32) -> u64 {
        self.clients@[choose|i: int| self.client_at(i, s)].crypt_state.last_good
    }

    /// One tick of the janitor over the reported clients. A client whose
    /// queue is closed is removed; otherwise one that has not pinged for
    /// too long is sent a `Disconnect`. A client whose last good decrypt
    /// is too old is re-keyed. Resets are applied before removals.
    #[verifier::rlimit(100)]
    pub fn clean_run(&mut self, now: u64, health: &Vec<ClientHealth>) -> (r: Vec<Delivery>)
        requires
            old(self).wf(),
        ensures
            final(self).wf(),
            forall|x: u32| #[trigger] final(self).has_session(x) ==> old(self).has_session(x),
            forall|k: int| 0 <= k < health@.len() && (#[trigger] health@[k]).queue_closed
                ==> !final(self).has_session(health@[k].session_id),
            forall|k: int| 0 <= k < health@.len() && !(#[trigger] health@[k]).queue_closed
                && old(self).has_session(health@[k].session_id)
                && elapsed(now, old(self).last_ping_of(health@[k].session_id)) > PING_TIMEOUT_MS
                ==> has_delivery(r@, health@[k].session_id, ClientMessage::Disconnect),
            forall|k: int| 0 <= k < health@.len() && old(self).has_session((#[trigger] health@[k]).session_id)
                && elapsed(now, old(self).last_good_of(health@[k].session_id)) > CRYPT_STALE_MS ==> has_reset(r@, health@[k].session_id),
            forall|k: int| 0 <= k < health@.len() && old(self).has_session((#[trigger] health@[k]).session_id)
                && elapsed(now, old(self).last_good_of(health@[k].session_id)) > CRYPT_STALE_MS
                && !reported_closed(health@, health@[k].session_id) ==> reset_done(*final(self), health@[k].session_id, r@),
            forall|k: int| 0 <= k < health@.len() && (#[trigger] health@[k]).queue_closed && old(self).has_session(health@[k].session_id)
                ==> removal_told(*final(self), health@[k].session_id, r@),
            final(self).session_count == old(self).session_count,
    {
        let ghost pre = *self;
        let mut out: Vec<Delivery> = Vec::new();
        let mut to_remove: Vec<u32> = Vec::new();
        let mut to_reset: Vec<u32> = Vec::new();
        let mut k: usize = 0;
        while k < health.len()
            invariant
                *self == pre,
                pre.wf(),
                k <= health@.len(),
                forall|n: int| 0 <= n < k && (#[trigger] health@[n]).queue_closed ==> to_remove@.contains(health@[n].session_id),
                forall|x: u32| #[trigger] to_remove@.contains(x) ==> reported_closed(health@, x),
                forall|n: int| 0 <= n < k && !(#[trigger] health@[n]).queue_closed && pre.has_session(health@[n].session_id)
                    && elapsed(now, pre.last_ping_of(health@[n].session_id)) > PING_TIMEOUT_MS
                    ==> has_delivery(out@, health@[n].session_id, ClientMessage::Disconnect),
                forall|n: int| 0 <= n < k && pre.has_session((#[trigger] health@[n]).session_id)
                    && elapsed(now, pre.last_good_of(health@[n].session_id)) > CRYPT_STALE_MS ==> to_reset@.contains(health@[n].session_id),
            decreases health@.len() - k,
        {
            let h = health[k];
            let ghost before = out@;
            let ghost rm0 = to_remove@;
            let ghost rs0 = to_reset@;
            match self.find_client(h.session_id) {
                None => {},
                Some(i) => {
                    proof {
                        crate::state::lemma_unique_indices(pre);
                        let c = choose|c: int| pre.client_at(c, h.session_id);
                        assert(c == i as int);
                    }
                    if h.queue_closed {
                        to_remove.push(h.session_id);
                        proof {
                            assert(to_remove@[to_remove@.len() - 1] == h.session_id);
                        }
                    } else if elapsed_ms(now, self.clients[i].last_ping) > PING_TIMEOUT_MS {
                        out.push(Delivery { to: h.session_id, message: ClientMessage::Disconnect });
                        proof {
                            assert(out@[out@.len() - 1].to == h.session_id);
                        }
                    }
                    if elapsed_ms(now, self.clients[i].crypt_state.last_good) > CRYPT_STALE_MS {
                        to_reset.push(h.session_id);
                        proof {
                            assert(to_reset@[to_reset@.len() - 1] == h.session_id);
                        }
                    }
                },
            }
            if h.queue_closed && self.find_client(h.session_id).is_none() {
                to_remove.push(h.session_id);
                proof {
                    assert(to_remove@[to_remove@.len() - 1] == h.session_id);
                }
            }
            proof {
                assert forall|x: u32| #[trigger] to_remove@.contains(x) implies reported_closed(health@, x) by {
                    let q = choose|q: int| 0 <= q < to_remove@.len() && to_remove@[q] == x;
                    if q < rm0.len() {
                        assert(rm0[q] == x);
                        assert(rm0.contains(x));
                    } else {
                        assert(health@[k as int].session_id == x && health@[k as int].queue_closed);
                    }
                }
                assert forall|x: u32| rm0.contains(x) implies to_remove@.contains(x) by {
                    let q = choose|q: int| 0 <= q < rm0.len() && rm0[q] == x;
                    assert(to_remove@[q] == x);
                }
                assert forall|x: u32| rs0.contains(x) implies to_reset@.contains(x) by {
                    let q = choose|q: int| 0 <= q < rs0.len() && rs0[q] == x;
                    assert(to_reset@[q] == x);
                }
                assert forall|n: int| 0 <= n < k + 1 && (#[trigger] health@[n]).queue_closed implies to_remove@.contains(
                    health@[n].session_id) by {
                    if n < k {
                        assert(rm0.contains(health@[n].session_id));
                    }
                }
                assert forall|n: int| 0 <= n < k + 1 && pre.has_session((#[trigger] health@[n]).session_id)
                    && elapsed(now, pre.last_good_of(health@[n].session_id)) > CRYPT_STALE_MS implies to_reset@.contains(health@[n].session_id) by {
                    if n < k {
                        assert(rs0.contains(health@[n].session_id));
                    }
                }
                assert forall|n: int| 0 <= n < k + 1 && !(#[trigger] health@[n]).queue_closed && pre.has_session(health@[n].session_id)
                    && elapsed(now, pre.last_ping_of(health@[n].session_id)) > PING_TIMEOUT_MS
                    implies has_delivery(out@, health@[n].session_id, ClientMessage::Disconnect) by {
                    if n < k {
                        let q = choose|q: int| 0 <= q < before.len() && (#[trigger] before[q]).to == health@[n].session_id
                            && before[q].message == ClientMessage::Disconnect;
                        assert(out@[q] == before[q]);
                    }
                }
            }
            k = k + 1;
        }
        let mut m: usize = 0;
        while m < to_reset.len()
            invariant
                self.wf(),
                self.session_count == pre.session_count,
                forall|x: u32| #[trigger] to_remove@.contains(x) ==> reported_closed(health@, x),
                m <= to_reset@.len(),
                forall|x: u32| #[trigger] self.has_session(x) == pre.has_session(x),
                forall|n: int| 0 <= n < m && pre.has_session(#[trigger] to_reset@[n]) ==> has_reset(out@, to_reset@[n]),
                forall|n: int| 0 <= n < m && pre.has_session(#[trigger] to_reset@[n]) ==> reset_done(*self, to_reset@[n], out@),
                forall|n: int| 0 <= n < health@.len() && !(#[trigger] health@[n]).queue_closed && pre.has_session(health@[n].session_id)
                    && elapsed(now, pre.last_ping_of(health@[n].session_id)) > PING_TIMEOUT_MS
                    ==> has_delivery(out@, health@[n].session_id, ClientMessage::Disconnect),
            decreases to_reset@.len() - m,
        {
            let ghost before = out@;
            let ghost st = *self;
            let mut more = self.reset_client_crypt(to_reset[m], now);
            let ghost added = more@;
            out.append(&mut more);
            proof {
                assert forall|n: int| 0 <= n < m + 1 && pre.has_session(#[trigger] to_reset@[n]) implies has_reset(out@, to_reset@[n]) by {
                    if n < m {
                        let q = choose|q: int| 0 <= q < before.len() && (#[trigger] before[q]).to == to_reset@[n]
                            && is_crypt_setup(before[q]);
                        assert(out@[q] == before[q]);
                    } else {
                        assert(st.has_session(to_reset@[n]));
                        let i = choose|i: int| st.client_at(i, to_reset@[n]);
                        assert(st.client_at(i, to_reset@[n]));
                        assert(out@[before.len() as int] == added[0]);
                    }
                }
                lemma_unique_indices(st);
                let y = to_reset@[m as int];
                assert forall|n: int| 0 <= n < m + 1 && pre.has_session(#[trigger] to_reset@[n]) implies reset_done(*self, to_reset@[n], out@) by {
                    let x = to_reset@[n];
                    if x == y {
                        assert(st.has_session(y));
                        let i = choose|i: int| st.client_at(i, y);
                        assert(st.client_at(i, y));
                        assert(out@[before.len() as int] == added[0]);
                        assert forall|j: int| #[trigger] self.client_at(j, y) implies self.clients@[j].udp_socket_addr is None && exists|q: int|
                            0 <= q < out@.len() && (#[trigger] out@[q]).to == y && sends_crypt_setup(out@[q], self.clients@[j].crypt_state) by {
                            assert(st.client_at(j, y));
                            assert(j == i);
                            assert(out@[before.len() as int].to == y);
                        }
                    } else {
                        assert forall|j2: int| #[trigger] self.client_at(j2, x) implies exists|j: int| st.client_at(j, x)
                            && self.clients@[j2] == st.clients@[j] by {
                            if st.has_session(y) {
                                let i = choose|i: int| st.client_at(i, y);
                                assert(st.client_at(i, y));
                                assert(j2 != i);
                                assert(st.client_at(j2, x));
                            }
                        }
                        if st.has_session(y) {
                            let i = choose|i: int| st.client_at(i, y);
                            assert(st.client_at(i, y));
                        }
                        lemma_reset_done_kept(st, *self, x, before, out@);
                    }
                }
                assert forall|n: int| 0 <= n < health@.len() && !(#[trigger] health@[n]).queue_closed && pre.has_session(health@[n].session_id)
                    && elapsed(now, pre.last_ping_of(health@[n].session_id)) > PING_TIMEOUT_MS
                    implies has_delivery(out@, health@[n].session_id, ClientMessage::Disconnect) by {
                    let q = choose|q: int| 0 <= q < before.len() && (#[trigger] before[q]).to == health@[n].session_id
                        && before[q].message == ClientMessage::Disconnect;
                    assert(out@[q] == before[q]);
                }
            }
            m = m + 1;
        }
        let mut m: usize = 0;
        while m < to_remove.len()
            invariant
                self.wf(),
                self.session_count == pre.session_count,
                m <= to_remove@.len(),
                forall|x: u32| #[trigger] self.has_session(x) ==> pre.has_session(x),
                forall|x: u32| #[trigger] to_remove@.contains(x) ==> reported_closed(health@, x),
                forall|x: u32| pre.has_session(x) && !to_remove@.subrange(0, m as int).contains(x) ==> #[trigger] self.has_session(x),
                forall|n: int| 0 <= n < m ==> !self.has_session(#[trigger] to_remove@[n]),
                forall|n: int| 0 <= n < to_reset@.len() && pre.has_session(#[trigger] to_reset@[n]) ==> has_reset(out@, to_reset@[n]),
                forall|n: int| 0 <= n < to_reset@.len() && pre.has_session(#[trigger] to_reset@[n]) && !to_remove@.contains(to_reset@[n])
                    ==> reset_done(*self, to_reset@[n], out@),
                forall|n: int| 0 <= n < m && pre.has_session(#[trigger] to_remove@[n]) ==> removal_told(*self, to_remove@[n], out@),
                forall|n: int| 0 <= n < health@.len() && !(#[trigger] health@[n]).queue_closed && pre.has_session(health@[n].session_id)
                    && elapsed(now, pre.last_ping_of(health@[n].session_id)) > PING_TIMEOUT_MS
                    ==> has_delivery(out@, health@[n].session_id, ClientMessage::Disconnect),
            decreases to_remove@.len() - m,
        {
            let ghost before = out@;
            let ghost st = *self;
            let mut more = self.disconnect(to_remove[m]);
            let ghost added = more@;
            out.append(&mut more);
            proof {
                crate::fanout::lemma_prefix_step(to_remove@, m as int);
                let y = to_remove@[m as int];
                assert forall|n: int| 0 <= n < to_reset@.len() && pre.has_session(#[trigger] to_reset@[n]) && !to_remove@.contains(to_reset@[n])
                    implies reset_done(*self, to_reset@[n], out@) by {
                    let x = to_reset@[n];
                    assert(to_remove@.contains(y));
                    assert(x != y);
                    lemma_reset_done_kept(st, *self, x, before, out@);
                }
                assert forall|n: int| 0 <= n < m + 1 && pre.has_session(#[trigger] to_remove@[n]) implies removal_told(*self, to_remove@[n], out@) by {
                    if n < m {
                        lemma_removal_told_kept(st, *self, to_remove@[n], before, out@);
                    } else if st.has_session(y) {
                        let i = choose|i: int| st.client_at(i, y);
                        assert(st.client_at(i, y));
                        assert forall|x: u32| #[trigger] self.has_session(x) implies exists|q: int| 0 <= q < out@.len()
                            && (#[trigger] out@[q]).to == x && announces_removal(out@[q], y) by {
                            let j = choose|j: int| self.client_at(j, x);
                            assert(out@[before.len() + j] == added[j]);
                        }
                    } else {
                        assert(to_remove@.subrange(0, m as int).contains(y));
                        let n2 = choose|n2: int| 0 <= n2 < m && to_remove@.subrange(0, m as int)[n2] == y;
                        assert(to_remove@[n2] == y);
                        lemma_removal_told_kept(st, *self, y, before, out@);
                    }
                }
                assert forall|n: int| 0 <= n < to_reset@.len() && pre.has_session(#[trigger] to_reset@[n]) implies has_reset(out@, to_reset@[n]) by {
                    let q = choose|q: int| 0 <= q < before.len() && (#[trigger] before[q]).to == to_reset@[n]
                        && is_crypt_setup(before[q]);
                    assert(out@[q] == before[q]);
                }
                assert forall|n: int| 0 <= n < health@.len() && !(#[trigger] health@[n]).queue_closed && pre.has_session(health@[n].session_id)
                    && elapsed(now, pre.last_ping_of(health@[n].session_id)) > PING_TIMEOUT_MS
                    implies has_delivery(out@, health@[n].session_id, ClientMessage::Disconnect) by {
                    let q = choose|q: int| 0 <= q < before.len() && (#[trigger] before[q]).to == health@[n].session_id
                        && before[q].message == ClientMessage::Disconnect;
                    assert(out@[q] == before[q]);
                }
            }
            m = m + 1;
        }
        proof {
            assert(to_remove@.subrange(0, to_remove@.len() as int) =~= to_remove@);
            assert forall|x: u32| pre.has_session(x) && !reported_closed(health@, x) implies #[trigger] self.has_session(x) by {
                if to_remove@.contains(x) {
                    assert(reported_closed(health@, x));
                }
            }
            assert forall|k: int| 0 <= k < health@.len() && pre.has_session((#[trigger] health@[k]).session_id)
                && elapsed(now, pre.last_good_of(health@[k].session_id)) > CRYPT_STALE_MS
                && !reported_closed(health@, health@[k].session_id) implies reset_done(*self, health@[k].session_id, out@) by {
                let n = choose|n: int| 0 <= n < to_reset@.len() && to_reset@[n] == health@[k].session_id;
                if to_remove@.contains(to_reset@[n]) {
                    assert(reported_closed(health@, to_reset@[n]));
                }
            }
            assert forall|k: int| 0 <= k < health@.len() && (#[trigger] health@[k]).queue_closed && pre.has_session(health@[k].session_id)
                implies removal_told(*self, health@[k].session_id, out@) by {
                let n = choose|n: int| 0 <= n < to_remove@.len() && to_remove@[n] == health@[k].session_id;
                assert(pre.has_session(to_remove@[n]));
            }
            assert forall|k: int| 0 <= k < health@.len() && (#[trigger] health@[k]).queue_closed
                implies !self.has_session(health@[k].session_id) by {
                let n = choose|n: int| 0 <= n < to_remove@.len() && to_remove@[n] == health@[k].session_id;
                assert(!self.has_session(to_remove@[n]));
            }
            assert forall|k: int| 0 <= k < health@.len() && pre.has_session((#[trigger] health@[k]).session_id)
                && elapsed(now, pre.last_good_of(health@[k].session_id)) > CRYPT_STALE_MS implies has_reset(out@, health@[k].session_id) by {
                let n = choose|n: int| 0 <= n < to_reset@.len() && to_reset@[n] == health@[k].session_id;
                assert(has_reset(out@, to_reset@[n]));
            }
        }
        out
    }
}

} // verus!
