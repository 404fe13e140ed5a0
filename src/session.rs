use crate::channel::{Channel, ROOT_CHANNEL};
use crate::client::{Client, Endpoint};
use crate::crypt::HISTORY;
use crate::membership::{is_broadcast, lemma_channel_drop_keeps_channels, left_empty};
use crate::idset::{insert_value, remove_value};
use crate::message::{sends_crypt_setup, ChannelRemove, ClientMessage, ControlMessage, Delivery, UserRemove};
use crate::state::{lemma_client_swap_keeps_wf, lemma_unique_indices, ServerState, SocketBinding};
use std::sync::Arc;
use vstd::prelude::*;

verus! {

/// The by-endpoint map has no two entries for one peer.
pub open spec fn distinct_addrs(v: Seq<SocketBinding>) -> bool {
    forall|k1: int, k2: int| 0 <= k1 < k2 < v.len() ==> (#[trigger] v[k1]).addr != (#[trigger] v[k2]).addr
}

/// Drops the entries of session `s` from the by-endpoint map.
fn remove_bindings_of(v: &mut Vec<SocketBinding>, s: u32)
    requires
        distinct_addrs(old(v)@),
    ensures
        distinct_addrs(final(v)@),
        forall|b: SocketBinding| #[trigger] final(v)@.contains(b) <==> (old(v)@.contains(b) && b.session_id != s),
{
    let mut out: Vec<SocketBinding> = Vec::new();
    let mut i: usize = 0;
    while i < v.len()
        invariant
            i <= v@.len(),
            distinct_addrs(v@),
            distinct_addrs(out@),
            forall|k: int| 0 <= k < out@.len() ==> exists|n: int| 0 <= n < i && v@[n] == #[trigger] out@[k],
            forall|b: SocketBinding| #[trigger] out@.contains(b) <==> (v@.subrange(0, i as int).contains(b)
                && b.session_id != s),
        decreases v@.len() - i,
    {
        let b = v[i];
        let ghost prev = out@;
        proof {
            let pre = v@.subrange(0, i as int);
            let next = v@.subrange(0, i + 1);
            assert forall|x: SocketBinding| next.contains(x) <==> (pre.contains(x) || x == b) by {
                if next.contains(x) {
                    let k = choose|k: int| 0 <= k < next.len() && next[k] == x;
                    if k < pre.len() {
                        assert(pre[k] == x);
                    }
                }
                if pre.contains(x) {
                    let k = choose|k: int| 0 <= k < pre.len() && pre[k] == x;
                    assert(next[k] == x);
                }
                if x == b {
                    assert(next[i as int] == x);
                }
            }
        }
        if b.session_id != s {
            out.push(b);
            proof {
                assert forall|x: SocketBinding| out@.contains(x) <==> (prev.contains(x) || x == b) by {
                    if prev.contains(x) {
                        let k = choose|k: int| 0 <= k < prev.len() && prev[k] == x;
                        assert(out@[k] == x);
                    }
                    if x == b {
                        assert(out@[prev.len() as int] == x);
                    }
                    if out@.contains(x) {
                        let k = choose|k: int| 0 <= k < out@.len() && out@[k] == x;
                        if k < prev.len() {
                            assert(prev[k] == x);
                        }
                    }
                }
                assert forall|k1: int, k2: int| 0 <= k1 < k2 < out@.len()
                    implies (#[trigger] out@[k1]).addr != (#[trigger] out@[k2]).addr by {
                    if k2 == prev.len() {
                        let n = choose|n: int| 0 <= n < i && v@[n] == #[trigger] prev[k1];
                        assert(v@[n].addr != v@[i as int].addr);
                    } else {
                        assert(prev[k1] == out@[k1] && prev[k2] == out@[k2]);
                    }
                }
                assert forall|k: int| 0 <= k < out@.len() implies exists|n: int| 0 <= n < i + 1 && v@[n] == #[trigger] out@[k] by {
                    if k < prev.len() {
                        assert(prev[k] == out@[k]);
                        let n = choose|n: int| 0 <= n < i && v@[n] == #[trigger] prev[k];
                    } else {
                        assert(v@[i as int] == out@[k]);
                    }
                }
            }
        }
        proof {
            let pre = v@.subrange(0, i as int);
            let next = v@.subrange(0, i + 1);
            assert forall|x: SocketBinding| #[trigger] out@.contains(x) <==> (next.contains(x) && x.session_id != s) by {
                assert(prev.contains(x) <==> (pre.contains(x) && x.session_id != s));
                assert(next.contains(x) <==> (pre.contains(x) || x == b));
            }
        }
        i = i + 1;
    }
    assert(v@.subrange(0, v@.len() as int) =~= v@);
    *v = out;
}

/// Changing the UDP peer of client `i`, with the probe set and the
/// by-endpoint map updated to match, keeps the registry well formed.
proof fn lemma_rebind_keeps_wf(pre: ServerState, post: ServerState, i: int, peer: Option<Endpoint>)
    requires
        pre.wf(),
        0 <= i < pre.clients@.len(),
        post == (ServerState { clients: post.clients, clients_without_udp: post.clients_without_udp,
            clients_by_socket: post.clients_by_socket, ..pre }),
        post.clients@ == pre.clients@.update(i, Client { udp_socket_addr: peer, ..pre.clients@[i] }),
        post.clients_without_udp@.no_duplicates(),
        forall|x: u32| #[trigger] post.clients_without_udp@.contains(x) <==> ((pre.clients_without_udp@.contains(x)
            && x != pre.clients@[i].session_id) || (peer is None && x == pre.clients@[i].session_id)),
        distinct_addrs(post.clients_by_socket@),
        forall|b: SocketBinding| #[trigger] post.clients_by_socket@.contains(b) <==> ((pre.clients_by_socket@.contains(b)
            && b.session_id != pre.clients@[i].session_id) || (peer is Some && b == SocketBinding {
            addr: peer->0,
            session_id: pre.clients@[i].session_id,
        })),
    ensures
        post.wf(),
{
    lemma_unique_indices(pre);
    let s = pre.clients@[i].session_id;
    assert forall|k: int, x: u32| pre.client_at(k, x) <==> post.client_at(k, x) by {}
    assert forall|x: u32| pre.has_session(x) <==> post.has_session(x) by {
        if pre.has_session(x) {
            let k = choose|k: int| pre.client_at(k, x);
            assert(post.client_at(k, x));
        }
        if post.has_session(x) {
            let k = choose|k: int| post.client_at(k, x);
            assert(pre.client_at(k, x));
        }
    }
    assert forall|k: int| 0 <= k < post.clients@.len() implies {
        &&& (#[trigger] post.clients@[k]).wf()
        &&& post.clients@[k].session_id < post.session_count
        &&& post.has_channel(post.clients@[k].channel_id)
    } by {
        assert(pre.clients@[k].wf());
        let j = choose|j: int| pre.channel_at(j, pre.clients@[k].channel_id);
        assert(post.channel_at(j, post.clients@[k].channel_id));
    }
    assert forall|i1: int, i2: int| 0 <= i1 < i2 < post.clients@.len()
        implies (#[trigger] post.clients@[i1]).session_id != (#[trigger] post.clients@[i2]).session_id by {
        assert(pre.clients@[i1].session_id != pre.clients@[i2].session_id);
    }
    assert forall|j: int| 0 <= j < post.channels@.len() implies (forall|x: u32|
        (#[trigger] post.channels@[j]).listeners@.contains(x) ==> post.has_session(x)) by {
        assert(pre.channels@[j].id < pre.channel_count);
    }
    assert(post.probe_set_consistent()) by {
        assert forall|x: u32| #[trigger] post.clients_without_udp@.contains(x) <==> exists|k: int|
            post.client_at(k, x) && (#[trigger] post.clients@[k]).udp_socket_addr is None by {
            if post.clients_without_udp@.contains(x) {
                if x == s {
                    assert(post.client_at(i, x));
                } else {
                    assert(pre.clients_without_udp@.contains(x));
                    let k = choose|k: int| pre.client_at(k, x) && pre.clients@[k].udp_socket_addr is None;
                    assert(post.client_at(k, x) && post.clients@[k].udp_socket_addr is None);
                }
            }
            if exists|k: int| post.client_at(k, x) && (#[trigger] post.clients@[k]).udp_socket_addr is None {
                let k = choose|k: int| post.client_at(k, x) && post.clients@[k].udp_socket_addr is None;
                if k != i {
                    assert(pre.client_at(k, x) && pre.clients@[k].udp_socket_addr is None);
                    assert(pre.clients_without_udp@.contains(x));
                }
            }
        }
    }
    assert(post.udp_maps_consistent()) by {
        assert forall|q: int| 0 <= q < post.clients_by_socket@.len() implies exists|k: int|
            post.client_at(k, (#[trigger] post.clients_by_socket@[q]).session_id)
                && (#[trigger] post.clients@[k]).udp_socket_addr == Some(post.clients_by_socket@[q].addr) by {
            let b = post.clients_by_socket@[q];
            assert(post.clients_by_socket@.contains(b));
            if b.session_id == s {
                assert(post.client_at(i, b.session_id));
            } else {
                assert(pre.clients_by_socket@.contains(b));
                let qq = choose|qq: int| 0 <= qq < pre.clients_by_socket@.len() && pre.clients_by_socket@[qq] == b;
                let k = choose|k: int| pre.client_at(k, (#[trigger] pre.clients_by_socket@[qq]).session_id)
                    && pre.clients@[k].udp_socket_addr == Some(pre.clients_by_socket@[qq].addr);
                assert(post.client_at(k, b.session_id));
            }
        }
        assert forall|k: int| 0 <= k < post.clients@.len() && (#[trigger] post.clients@[k]).udp_socket_addr is Some
            implies post.clients_by_socket@.contains(SocketBinding {
                addr: post.clients@[k].udp_socket_addr->0,
                session_id: post.clients@[k].session_id,
            }) by {
            if k != i {
                assert(pre.clients@[k].udp_socket_addr is Some);
                assert(pre.clients_by_socket@.contains(SocketBinding {
                    addr: pre.clients@[k].udp_socket_addr->0,
                    session_id: pre.clients@[k].session_id,
                }));
                assert(pre.clients@[k].session_id != s);
            }
        }
    }
    assert(post.residents_consistent()) by {
        assert forall|j: int, x: u32| 0 <= j < post.channels@.len() && #[trigger] post.channels@[j].clients@.contains(x)
            implies exists|k: int| post.client_at(k, x) && (#[trigger] post.clients@[k]).channel_id == post.channels@[j].id by {
            let k = choose|k: int| pre.client_at(k, x) && pre.clients@[k].channel_id == pre.channels@[j].id;
            assert(post.client_at(k, x) && post.clients@[k].channel_id == post.channels@[j].id);
        }
        assert forall|k: int, j: int| 0 <= k < post.clients@.len() && 0 <= j < post.channels@.len()
            && (#[trigger] post.clients@[k]).channel_id == (#[trigger] post.channels@[j]).id
            implies post.channels@[j].clients@.contains(post.clients@[k].session_id) by {
            assert(pre.clients@[k].channel_id == pre.channels@[j].id);
        }
    }
}

/// Whether some entry of `v` is for peer `addr`.
fn addr_bound(v: &Vec<SocketBinding>, addr: Endpoint) -> (r: Option<u32>)
    ensures
        r is Some ==> v@.contains(SocketBinding { addr, session_id: r->0 }),
        r is None ==> forall|k: int| 0 <= k < v@.len() ==> (#[trigger] v@[k]).addr != addr,
{
    let mut k: usize = 0;
    while k < v.len()
        invariant
            k <= v@.len(),
            forall|n: int| 0 <= n < k ==> (#[trigger] v@[n]).addr != addr,
        decreases v@.len() - k,
    {
        if v[k].addr == addr {
            assert(v@[k as int] == SocketBinding { addr, session_id: v@[k as int].session_id });
            return Some(v[k].session_id);
        }
        k = k + 1;
    }
    None
}

impl ServerState {
    /// The session bound to UDP peer `addr`.
    pub open spec fn session_at_peer(&self, addr: Endpoint, s: u32) -> bool {
        self.clients_by_socket@.contains(SocketBinding { addr, session_id: s })
    }

    /// Whether some client is bound to UDP peer `addr`.
    pub open spec fn peer_bound(&self, addr: Endpoint) -> bool {
        exists|s: u32| self.session_at_peer(addr, s)
    }

    /// The session bound to UDP peer `addr`, if any.
    pub fn get_client_by_socket(&self, addr: Endpoint) -> (r: Option<u32>)
        requires
            self.wf(),
        ensures
            r is Some ==> self.session_at_peer(addr, r->0),
            r is None ==> !self.peer_bound(addr),
    {
        let r = addr_bound(&self.clients_by_socket, addr);
        proof {
            if r is None && self.peer_bound(addr) {
                let s = choose|s: u32| self.session_at_peer(addr, s);
                let k = choose|k: int| 0 <= k < self.clients_by_socket@.len()
                    && self.clients_by_socket@[k] == SocketBinding { addr, session_id: s };
                assert(self.clients_by_socket@[k].addr == addr);
            }
        }
        r
    }

    /// Binds client `s` to UDP peer `addr`, unless the peer is bound already
    /// or the client is unknown: it leaves the probe set, and a peer it had
    /// before is forgotten.
    pub fn set_client_socket(&mut self, s: u32, addr: Endpoint) -> (bound: bool)
        requires
            old(self).wf(),
        ensures
            final(self).wf(),
            bound == (old(self).has_session(s) && !old(self).peer_bound(addr)),
            !bound ==> *final(self) == *old(self),
            bound ==> {
                &&& exists|i: int| #[trigger] old(self).client_at(i, s) && final(self).clients@ == old(self).clients@.update(
                    i,
                    Client { udp_socket_addr: Some(addr), ..old(self).clients@[i] },
                )
                &&& !final(self).clients_without_udp@.contains(s)
                &&& forall|x: u32| x != s ==> (#[trigger] final(self).clients_without_udp@.contains(x)
                    == old(self).clients_without_udp@.contains(x))
                &&& final(self).session_at_peer(addr, s)
                &&& forall|b: SocketBinding| #[trigger] final(self).clients_by_socket@.contains(b) <==> (
                    (old(self).clients_by_socket@.contains(b) && b.session_id != s)
                    || b == SocketBinding { addr, session_id: s })
            },
            *final(self) == (ServerState { clients: final(self).clients, clients_without_udp: final(self).clients_without_udp,
                clients_by_socket: final(self).clients_by_socket, ..*old(self) }),
    {
        let i = match self.find_client(s) {
            None => {
                return false;
            },
            Some(i) => i,
        };
        if self.get_client_by_socket(addr).is_some() {
            return false;
        }
        let ghost pre = *self;
        self.clients[i].udp_socket_addr = Some(addr);
        remove_value(&mut self.clients_without_udp, s);
        remove_bindings_of(&mut self.clients_by_socket, s);
        let ghost kept = self.clients_by_socket@;
        self.clients_by_socket.push(SocketBinding { addr, session_id: s });
        proof {
            assert(self.clients@ =~= pre.clients@.update(i as int, Client { udp_socket_addr: Some(addr), ..pre.clients@[i as int] }));
            assert forall|b: SocketBinding| #[trigger] self.clients_by_socket@.contains(b) <==> (kept.contains(b)
                || b == SocketBinding { addr, session_id: s }) by {
                if kept.contains(b) {
                    let k = choose|k: int| 0 <= k < kept.len() && kept[k] == b;
                    assert(self.clients_by_socket@[k] == b);
                }
                if b == (SocketBinding { addr, session_id: s }) {
                    assert(self.clients_by_socket@[kept.len() as int] == b);
                }
                if self.clients_by_socket@.contains(b) {
                    let k = choose|k: int| 0 <= k < self.clients_by_socket@.len() && self.clients_by_socket@[k] == b;
                    if k < kept.len() {
                        assert(kept[k] == b);
                    }
                }
            }
            assert forall|k1: int, k2: int| 0 <= k1 < k2 < self.clients_by_socket@.len()
                implies (#[trigger] self.clients_by_socket@[k1]).addr != (#[trigger] self.clients_by_socket@[k2]).addr by {
                if k2 == kept.len() {
                    assert(kept.contains(kept[k1]));
                    assert(pre.clients_by_socket@.contains(kept[k1]));
                    if kept[k1].addr == addr {
                        assert(pre.session_at_peer(addr, kept[k1].session_id));
                    }
                } else {
                    assert(kept[k1] == self.clients_by_socket@[k1]);
                }
            }
            lemma_rebind_keeps_wf(pre, *self, i as int, Some(addr));
            assert(self.clients_by_socket@[kept.len() as int] == SocketBinding { addr, session_id: s });
        }
        true
    }

    /// Forgets the UDP peer of the client at index `i` and puts it back in the probe set.
    fn unbind(&mut self, i: usize)
        requires
            old(self).wf(),
            i < old(self).clients@.len(),
        ensures
            final(self).wf(),
            final(self).clients@ == old(self).clients@.update(
                i as int,
                Client { udp_socket_addr: None, ..old(self).clients@[i as int] },
            ),
            forall|x: u32| #[trigger] final(self).clients_without_udp@.contains(x) <==> (
                old(self).clients_without_udp@.contains(x) || x == old(self).clients@[i as int].session_id),
            forall|b: SocketBinding| #[trigger] final(self).clients_by_socket@.contains(b) <==> (
                old(self).clients_by_socket@.contains(b) && b.session_id != old(self).clients@[i as int].session_id),
            *final(self) == (ServerState { clients: final(self).clients, clients_without_udp: final(self).clients_without_udp,
                clients_by_socket: final(self).clients_by_socket, ..*old(self) }),
    {
        let ghost pre = *self;
        let s = self.clients[i].session_id;
        let _ = self.clients[i].remove_udp_socket();
        insert_value(&mut self.clients_without_udp, s);
        remove_bindings_of(&mut self.clients_by_socket, s);
        proof {
            assert(self.clients@ =~= pre.clients@.update(i as int, Client { udp_socket_addr: None, ..pre.clients@[i as int] }));
            lemma_rebind_keeps_wf(pre, *self, i as int, None);
        }
    }

    /// Unbinds the client bound to UDP peer `addr`, if any.
    pub fn remove_client_by_socket(&mut self, addr: Endpoint)
        requires
            old(self).wf(),
        ensures
            final(self).wf(),
            !old(self).peer_bound(addr) ==> *final(self) == *old(self),
            forall|s: u32| old(self).session_at_peer(addr, s) ==> exists|i: int| {
                &&& #[trigger] old(self).client_at(i, s)
                &&& final(self).clients@ == old(self).clients@.update(i, Client { udp_socket_addr: None, ..old(self).clients@[i] })
                &&& final(self).clients_without_udp@.contains(s)
                &&& !final(self).peer_bound(addr)
            },
            final(self).session_count == old(self).session_count,
    {
        match self.get_client_by_socket(addr) {
            None => {},
            Some(s) => {
                proof {
                    lemma_unique_indices(*self);
                    let q = choose|q: int| 0 <= q < self.clients_by_socket@.len()
                        && self.clients_by_socket@[q] == SocketBinding { addr, session_id: s };
                    assert forall|s2: u32| self.session_at_peer(addr, s2) implies s2 == s by {
                        let q2 = choose|q2: int| 0 <= q2 < self.clients_by_socket@.len()
                            && self.clients_by_socket@[q2] == SocketBinding { addr, session_id: s2 };
                        if q2 != q {
                            if q < q2 {
                                assert(self.clients_by_socket@[q].addr != self.clients_by_socket@[q2].addr);
                            } else {
                                assert(self.clients_by_socket@[q2].addr != self.clients_by_socket@[q].addr);
                            }
                        }
                    }
                    let k = choose|k: int| self.client_at(k, (#[trigger] self.clients_by_socket@[q]).session_id)
                        && self.clients@[k].udp_socket_addr == Some(self.clients_by_socket@[q].addr);
                }
                let i = match self.find_client(s) {
                    None => {
                        return;
                    },
                    Some(i) => i,
                };
                let ghost pre = *self;
                self.unbind(i);
                proof {
                    if self.peer_bound(addr) {
                        let s2 = choose|s2: u32| self.session_at_peer(addr, s2);
                        assert(pre.session_at_peer(addr, s2));
                    }
                }
            },
        }
    }

    /// Re-keys client `s`: its UDP peer is forgotten, it returns to the probe
    /// set, its crypt state gets a fresh key and nonces, and it is sent them.
    pub fn reset_client_crypt(&mut self, s: u32, now: u64) -> (r: Vec<Delivery>)
        requires
            old(self).wf(),
        ensures
            final(self).wf(),
            !old(self).has_session(s) ==> *final(self) == *old(self) && r@.len() == 0,
            forall|x: u32| #[trigger] final(self).has_session(x) == old(self).has_session(x),
            forall|i: int| #[trigger] old(self).client_at(i, s) ==> {
                &&& final(self).clients@ == old(self).clients@.update(i, Client {
                    udp_socket_addr: None,
                    crypt_state: final(self).clients@[i].crypt_state,
                    ..old(self).clients@[i]
                })
                &&& final(self).clients@[i].crypt_state.last_good == now
                &&& final(self).clients@[i].crypt_state.wf()
                &&& forall|k: int| 0 <= k < HISTORY ==> final(self).clients@[i].crypt_state.decrypt_history@[k] == 0
                &&& final(self).clients@[i].crypt_state.good == old(self).clients@[i].crypt_state.good
                &&& final(self).clients@[i].crypt_state.late == old(self).clients@[i].crypt_state.late
                &&& final(self).clients@[i].crypt_state.lost == old(self).clients@[i].crypt_state.lost
                &&& final(self).clients@[i].crypt_state.resync == old(self).clients@[i].crypt_state.resync
                &&& forall|x: u32| #[trigger] final(self).clients_without_udp@.contains(x) <==> (
                    old(self).clients_without_udp@.contains(x) || x == s)
                &&& forall|b: SocketBinding| #[trigger] final(self).clients_by_socket@.contains(b) <==> (
                    old(self).clients_by_socket@.contains(b) && b.session_id != s)
                &&& r@.len() == 1
                &&& r@[0].to == s
                &&& sends_crypt_setup(r@[0], final(self).clients@[i].crypt_state)
            },
            *final(self) == (ServerState { clients: final(self).clients, clients_without_udp: final(self).clients_without_udp,
                clients_by_socket: final(self).clients_by_socket, ..*old(self) }),
    {
        let mut out: Vec<Delivery> = Vec::new();
        proof {
            lemma_unique_indices(*self);
        }
        match self.find_client(s) {
            None => {},
            Some(i) => {
                let ghost pre = *self;
                self.unbind(i);
                let ghost mid = *self;
                self.clients[i].crypt_state.reset(now);
                proof {
                    assert(self.clients@ =~= mid.clients@.update(i as int, self.clients@[i as int]));
                    lemma_client_swap_keeps_wf(mid, *self, i as int);
                    assert(self.clients@ =~= pre.clients@.update(i as int, Client {
                        udp_socket_addr: None,
                        crypt_state: self.clients@[i as int].crypt_state,
                        ..pre.clients@[i as int]
                    }));
                    assert forall|x: u32| #[trigger] self.has_session(x) == pre.has_session(x) by {
                        if self.has_session(x) {
                            let k = choose|k: int| self.client_at(k, x);
                            assert(pre.client_at(k, x));
                        }
                        if pre.has_session(x) {
                            let k = choose|k: int| pre.client_at(k, x);
                            assert(self.client_at(k, x));
                        }
                    }
                }
                let setup = self.clients[i].crypt_state.get_crypt_setup();
                out.push(Delivery { to: s, message: ClientMessage::SendMessage(Arc::new(ControlMessage::CryptSetup(setup))) });
            },
        }
        out
    }
}

/// Dropping client `i` from the registry, from the probe set, from the
/// by-endpoint map and from every resident and listener set keeps the
/// registry well formed.
proof fn lemma_remove_client_keeps_wf(pre: ServerState, post: ServerState, i: int)
    requires
        pre.wf(),
        0 <= i < pre.clients@.len(),
        post == (ServerState { clients: post.clients, clients_without_udp: post.clients_without_udp,
            clients_by_socket: post.clients_by_socket, channels: post.channels, ..pre }),
        post.clients@ == pre.clients@.remove(i),
        post.clients_without_udp@.no_duplicates(),
        forall|x: u32| #[trigger] post.clients_without_udp@.contains(x) <==> (pre.clients_without_udp@.contains(x)
            && x != pre.clients@[i].session_id),
        distinct_addrs(post.clients_by_socket@),
        forall|b: SocketBinding| #[trigger] post.clients_by_socket@.contains(b) <==> (pre.clients_by_socket@.contains(b)
            && b.session_id != pre.clients@[i].session_id),
        post.channels@.len() == pre.channels@.len(),
        forall|j: int| 0 <= j < post.channels@.len() ==> {
            &&& (#[trigger] post.channels@[j]).wf()
            &&& post.channels@[j] == (Channel { clients: post.channels@[j].clients, listeners: post.channels@[j].listeners,
                ..pre.channels@[j] })
            &&& forall|x: u32| #[trigger] post.channels@[j].clients@.contains(x) <==> (pre.channels@[j].clients@.contains(x)
                && x != pre.clients@[i].session_id)
            &&& forall|x: u32| #[trigger] post.channels@[j].listeners@.contains(x) <==> (pre.channels@[j].listeners@.contains(x)
                && x != pre.clients@[i].session_id)
        },
    ensures
        post.wf(),
        forall|x: u32| #[trigger] post.has_session(x) <==> (pre.has_session(x) && x != pre.clients@[i].session_id),
{
    lemma_unique_indices(pre);
    let s = pre.clients@[i].session_id;
    assert forall|k: int| 0 <= k < post.clients@.len() implies #[trigger] post.clients@[k] == pre.clients@[
        if k < i { k } else { k + 1 }] by {}
    assert forall|x: u32| post.has_session(x) <==> (pre.has_session(x) && x != s) by {
        if post.has_session(x) {
            let k = choose|k: int| post.client_at(k, x);
            let kk = if k < i { k } else { k + 1 };
            assert(pre.client_at(kk, x));
            assert(kk != i);
        }
        if pre.has_session(x) && x != s {
            let k = choose|k: int| pre.client_at(k, x);
            assert(k != i);
            if k < i {
                assert(post.client_at(k, x));
            } else {
                assert(post.client_at(k - 1, x));
            }
        }
    }
    assert forall|x: u32| post.has_channel(x) <==> pre.has_channel(x) by {
        if post.has_channel(x) {
            let k = choose|k: int| post.channel_at(k, x);
            assert(pre.channel_at(k, x));
        }
        if pre.has_channel(x) {
            let k = choose|k: int| pre.channel_at(k, x);
            assert(post.channel_at(k, x));
        }
    }
    assert forall|k: int| 0 <= k < post.clients@.len() implies {
        &&& (#[trigger] post.clients@[k]).wf()
        &&& post.clients@[k].session_id < post.session_count
        &&& post.has_channel(post.clients@[k].channel_id)
    } by {
        let kk = if k < i { k } else { k + 1 };
        assert(pre.clients@[kk].wf());
    }
    assert forall|i1: int, i2: int| 0 <= i1 < i2 < post.clients@.len()
        implies (#[trigger] post.clients@[i1]).session_id != (#[trigger] post.clients@[i2]).session_id by {
        let a = if i1 < i { i1 } else { i1 + 1 };
        let b = if i2 < i { i2 } else { i2 + 1 };
        assert(pre.clients@[a].session_id != pre.clients@[b].session_id);
    }
    assert forall|j1: int, j2: int| 0 <= j1 < j2 < post.channels@.len()
        implies (#[trigger] post.channels@[j1]).id != (#[trigger] post.channels@[j2]).id by {
        assert(pre.channels@[j1].id != pre.channels@[j2].id);
    }
    assert forall|j: int| 0 <= j < post.channels@.len() implies {
        &&& (#[trigger] post.channels@[j]).wf()
        &&& post.channels@[j].id < post.channel_count
        &&& forall|x: u32| post.channels@[j].listeners@.contains(x) ==> post.has_session(x)
    } by {
        assert(pre.channels@[j].id < pre.channel_count);
        assert forall|x: u32| post.channels@[j].listeners@.contains(x) implies post.has_session(x) by {
            assert(pre.channels@[j].listeners@.contains(x));
            assert(pre.has_session(x));
        }
    }
    assert(post.channels@[0].id == pre.channels@[0].id);
    assert(post.probe_set_consistent()) by {
        assert forall|x: u32| #[trigger] post.clients_without_udp@.contains(x) <==> exists|k: int|
            post.client_at(k, x) && (#[trigger] post.clients@[k]).udp_socket_addr is None by {
            if post.clients_without_udp@.contains(x) {
                assert(pre.clients_without_udp@.contains(x));
                let k = choose|k: int| pre.client_at(k, x) && pre.clients@[k].udp_socket_addr is None;
                assert(k != i);
                let kk = if k < i { k } else { k - 1 };
                assert(post.client_at(kk, x) && post.clients@[kk].udp_socket_addr is None);
            }
            if exists|k: int| post.client_at(k, x) && (#[trigger] post.clients@[k]).udp_socket_addr is None {
                let k = choose|k: int| post.client_at(k, x) && post.clients@[k].udp_socket_addr is None;
                let kk = if k < i { k } else { k + 1 };
                assert(pre.client_at(kk, x) && pre.clients@[kk].udp_socket_addr is None);
                assert(kk != i);
                assert(pre.clients_without_udp@.contains(x));
            }
        }
    }
    assert(post.udp_maps_consistent()) by {
        assert forall|q: int| 0 <= q < post.clients_by_socket@.len() implies exists|k: int|
            post.client_at(k, (#[trigger] post.clients_by_socket@[q]).session_id)
                && (#[trigger] post.clients@[k]).udp_socket_addr == Some(post.clients_by_socket@[q].addr) by {
            let b = post.clients_by_socket@[q];
            assert(post.clients_by_socket@.contains(b));
            assert(pre.clients_by_socket@.contains(b));
            let qq = choose|qq: int| 0 <= qq < pre.clients_by_socket@.len() && pre.clients_by_socket@[qq] == b;
            let k = choose|k: int| pre.client_at(k, (#[trigger] pre.clients_by_socket@[qq]).session_id)
                && pre.clients@[k].udp_socket_addr == Some(pre.clients_by_socket@[qq].addr);
            assert(k != i);
            let kk = if k < i { k } else { k - 1 };
            assert(post.client_at(kk, b.session_id));
        }
        assert forall|k: int| 0 <= k < post.clients@.len() && (#[trigger] post.clients@[k]).udp_socket_addr is Some
            implies post.clients_by_socket@.contains(SocketBinding {
                addr: post.clients@[k].udp_socket_addr->0,
                session_id: post.clients@[k].session_id,
            }) by {
            let kk = if k < i { k } else { k + 1 };
            assert(pre.clients@[kk].udp_socket_addr is Some);
            assert(pre.clients@[kk].session_id != s);
        }
    }
    assert(post.residents_consistent()) by {
        assert forall|j: int, x: u32| 0 <= j < post.channels@.len() && #[trigger] post.channels@[j].clients@.contains(x)
            implies exists|k: int| post.client_at(k, x) && (#[trigger] post.clients@[k]).channel_id == post.channels@[j].id by {
            assert(pre.channels@[j].clients@.contains(x));
            let k = choose|k: int| pre.client_at(k, x) && pre.clients@[k].channel_id == pre.channels@[j].id;
            assert(k != i);
            let kk = if k < i { k } else { k - 1 };
            assert(post.client_at(kk, x) && post.clients@[kk].channel_id == post.channels@[j].id);
        }
        assert forall|k: int, j: int| 0 <= k < post.clients@.len() && 0 <= j < post.channels@.len()
            && (#[trigger] post.clients@[k]).channel_id == (#[trigger] post.channels@[j]).id
            implies post.channels@[j].clients@.contains(post.clients@[k].session_id) by {
            let kk = if k < i { k } else { k + 1 };
            assert(pre.clients@[kk].channel_id == pre.channels@[j].id);
            assert(pre.channels@[j].clients@.contains(pre.clients@[kk].session_id));
            assert(pre.clients@[kk].session_id != s);
        }
    }
}

/// `d` tells its recipient that session `s` has disconnected.
pub open spec fn announces_removal(d: Delivery, s: u32) -> bool {
    &&& d.message is SendMessage
    &&& *(d.message->SendMessage_0) is UserRemove
    &&& (*(d.message->SendMessage_0))->UserRemove_0.session == s
    &&& (*(d.message->SendMessage_0))->UserRemove_0.reason@ == "disconnected"@
}

impl ServerState {
    /// Removes session `s` from the registry: from the client map, the probe
    /// set, the by-endpoint map and every resident and listener set. The
    /// remaining clients are told; the channel it left is removed (and they
    /// are told) when that leaves it abandoned. Unknown sessions change
    /// nothing, so a second call is harmless.
    pub fn disconnect(&mut self, s: u32) -> (r: Vec<Delivery>)
        requires
            old(self).wf(),
        ensures
            final(self).wf(),
            !old(self).has_session(s) ==> *final(self) == *old(self) && r@.len() == 0,
            old(self).has_session(s) ==> {
                &&& !final(self).has_session(s)
                &&& !final(self).clients_without_udp@.contains(s)
                &&& forall|b: SocketBinding| #[trigger] final(self).clients_by_socket@.contains(b) ==> b.session_id != s
                &&& forall|j: int| 0 <= j < final(self).channels@.len() ==> !(#[trigger] final(self).channels@[j]).clients@.contains(s)
                    && !final(self).channels@[j].listeners@.contains(s)
                &&& exists|i: int| #[trigger] old(self).client_at(i, s) && final(self).clients@ == old(self).clients@.remove(i)
                &&& r@.len() >= final(self).clients@.len()
                &&& forall|q: int| 0 <= q < final(self).clients@.len() ==> (#[trigger] r@[q]).to
                    == final(self).clients@[q].session_id && announces_removal(r@[q], s)
            },
            forall|x: u32| #[trigger] final(self).has_session(x) <==> (old(self).has_session(x) && x != s),
            forall|x: u32| x != s ==> (#[trigger] final(self).clients_without_udp@.contains(x) == old(self).clients_without_udp@.contains(x)),
            forall|b: SocketBinding| #[trigger] final(self).clients_by_socket@.contains(b) ==> old(self).clients_by_socket@.contains(b),
            forall|j: int, x: u32| #[trigger] final(self).client_at(j, x) ==> exists|j0: int| old(self).client_at(j0, x)
                && final(self).clients@[j] == old(self).clients@[j0],
            forall|i: int| #[trigger] old(self).client_at(i, s) ==> {
                let co = old(self).clients@[i].channel_id;
                let n = final(self).clients@.len() as int;
                &&& forall|x: u32| x != co ==> final(self).has_channel(x) == old(self).has_channel(x)
                &&& (final(self).has_channel(co) <==> !left_empty(*old(self), co, s))
                &&& left_empty(*old(self), co, s) ==> r@.len() == 2 * n && is_broadcast(
                    r@.subrange(n, r@.len() as int),
                    final(self).clients@,
                    ControlMessage::ChannelRemove(ChannelRemove { channel_id: co }),
                )
                &&& !left_empty(*old(self), co, s) ==> r@.len() == n
            },
            final(self).session_count == old(self).session_count,
            final(self).channel_count == old(self).channel_count,
            final(self).codec_state == old(self).codec_state,
    {
        let i = match self.find_client(s) {
            None => {
                return Vec::new();
            },
            Some(i) => i,
        };
        proof {
            lemma_unique_indices(*self);
        }
        let ghost pre = *self;
        let co = self.clients[i].channel_id;
        self.clients.remove(i);
        remove_value(&mut self.clients_without_udp, s);
        remove_bindings_of(&mut self.clients_by_socket, s);
        let ghost probe = self.clients_without_udp@;
        let ghost bindings = self.clients_by_socket@;
        let mut j: usize = 0;
        while j < self.channels.len()
            invariant
                j <= self.channels@.len(),
                i < pre.clients@.len(),
                self.clients_without_udp@ == probe,
                self.clients_by_socket@ == bindings,
                self.channels@.len() == pre.channels@.len(),
                self.clients@ == pre.clients@.remove(i as int),
                *self == (ServerState { clients: self.clients, clients_without_udp: self.clients_without_udp,
                    clients_by_socket: self.clients_by_socket, channels: self.channels, ..pre }),
                pre.wf(),
                s == pre.clients@[i as int].session_id,
                forall|k: int| j <= k < self.channels@.len() ==> #[trigger] self.channels@[k] == pre.channels@[k],
                forall|k: int| 0 <= k < j ==> {
                    &&& (#[trigger] self.channels@[k]).wf()
                    &&& self.channels@[k] == (Channel { clients: self.channels@[k].clients,
                        listeners: self.channels@[k].listeners, ..pre.channels@[k] })
                    &&& forall|x: u32| #[trigger] self.channels@[k].clients@.contains(x) <==> (pre.channels@[k].clients@.contains(x)
                        && x != s)
                    &&& forall|x: u32| #[trigger] self.channels@[k].listeners@.contains(x) <==> (pre.channels@[k].listeners@.contains(x)
                        && x != s)
                },
            decreases self.channels@.len() - j,
        {
            assert(pre.channels@[j as int].wf());
            remove_value(&mut self.channels[j].clients, s);
            remove_value(&mut self.channels[j].listeners, s);
            j = j + 1;
        }
        proof {
            lemma_remove_client_keeps_wf(pre, *self, i as int);
        }
        let ghost mid = *self;
        let mut out = self.broadcast_message(ControlMessage::UserRemove(UserRemove {
            session: s,
            reason: "disconnected".to_string(),
        }));
        let ghost first = out@;
        let ghost mid2 = *self;
        let mut rest = self.handle_client_left_channel(co);
        let ghost second = rest@;
        out.append(&mut rest);
        proof {
            lemma_unique_indices(mid);
            assert(pre.has_channel(co));
            let jo = choose|jo: int| pre.channel_at(jo, co);
            assert(mid.channel_at(jo, co));
            assert forall|x: u32| mid.has_channel(x) == pre.has_channel(x) by {
                if pre.has_channel(x) {
                    let k = choose|k: int| pre.channel_at(k, x);
                    assert(mid.channel_at(k, x));
                }
                if mid.has_channel(x) {
                    let k = choose|k: int| mid.channel_at(k, x);
                    assert(pre.channel_at(k, x));
                }
            }
            assert(mid.abandoned(co) <==> left_empty(pre, co, s)) by {
                let emptied = mid.channels@[jo].clients@.len() == 0;
                assert(forall|x: u32| #[trigger] mid.channels@[jo].clients@.contains(x) <==> (pre.channels@[jo].clients@.contains(x)
                    && x != s));
                assert(emptied <==> forall|x: u32| pre.channels@[jo].clients@.contains(x) ==> x == s) by {
                    if !emptied {
                        assert(mid.channels@[jo].clients@.contains(mid.channels@[jo].clients@[0]));
                    } else {
                        assert forall|x: u32| pre.channels@[jo].clients@.contains(x) implies x == s by {
                            if x != s {
                                assert(mid.channels@[jo].clients@.contains(x));
                            }
                        }
                    }
                }
                if mid.abandoned(co) {
                    let j2 = choose|j2: int| #[trigger] mid.channel_at(j2, co) && mid.channels@[j2].temporary
                        && co != ROOT_CHANNEL && mid.channels@[j2].clients@.len() == 0;
                    assert(j2 == jo);
                    assert(pre.channel_at(jo, co));
                }
                if left_empty(pre, co, s) {
                    let j3 = choose|j3: int| #[trigger] pre.channel_at(j3, co) && pre.channels@[j3].temporary
                        && co != ROOT_CHANNEL && forall|x: u32| pre.channels@[j3].clients@.contains(x) ==> x == s;
                    assert(j3 == jo);
                }
            }
            assert(out@.subrange(0, first.len() as int) =~= first);
            assert(out@.subrange(first.len() as int, out@.len() as int) =~= second);
            lemma_channel_drop_keeps_channels(mid, *self, co);
            assert(!mid.has_session(s)) by {
                if mid.has_session(s) {
                    let k = choose|k: int| mid.client_at(k, s);
                    let kk = if k < i { k } else { k + 1 };
                    assert(pre.clients@[kk] == mid.clients@[k]);
                    assert(pre.client_at(kk, s));
                }
            }
            assert(self.clients@ == mid.clients@);
            assert forall|j: int, x: u32| #[trigger] self.client_at(j, x) implies exists|j0: int| pre.client_at(j0, x)
                && self.clients@[j] == pre.clients@[j0] by {
                let j0 = if j < i { j } else { j + 1 };
                assert(pre.client_at(j0, x));
            }
            assert forall|x: u32| #[trigger] self.has_session(x) <==> mid.has_session(x) by {
                if self.has_session(x) {
                    let k = choose|k: int| self.client_at(k, x);
                    assert(mid.client_at(k, x));
                }
                if mid.has_session(x) {
                    let k = choose|k: int| mid.client_at(k, x);
                    assert(self.client_at(k, x));
                }
            }
            assert(!self.has_session(s)) by {
                if self.has_session(s) {
                    let k = choose|k: int| self.client_at(k, s);
                    assert(mid.client_at(k, s));
                }
            }
            assert forall|jj: int| 0 <= jj < self.channels@.len() implies !(#[trigger] self.channels@[jj]).clients@.contains(s)
                && !self.channels@[jj].listeners@.contains(s) by {
                if self.channels@ != mid.channels@ {
                    let j2 = choose|j2: int| #[trigger] mid.channel_at(j2, co) && self.channels@ == mid.channels@.remove(j2);
                    let a = if jj < j2 { jj } else { jj + 1 };
                    assert(self.channels@[jj] == mid.channels@[a]);
                } else {
                    assert(self.channels@[jj] == mid.channels@[jj]);
                }
            }
            assert forall|q: int| 0 <= q < self.clients@.len() implies (#[trigger] out@[q]).to
                == self.clients@[q].session_id && announces_removal(out@[q], s) by {
                assert(out@[q] == first[q]);
                reveal_strlit("disconnected");
            }
        }
        out
    }
}

impl ServerState {
    /// Disconnects the client with session `s`, if it is connected.
    pub fn remove_client_by_session_id(&mut self, s: u32) -> (r: Vec<Delivery>)
        requires
            old(self).wf(),
        ensures
            final(self).wf(),
            !old(self).has_session(s) ==> *final(self) == *old(self) && r@.len() == 0,
            forall|x: u32| #[trigger] final(self).has_session(x) <==> (old(self).has_session(x) && x != s),
            old(self).has_session(s) ==> !final(self).clients_without_udp@.contains(s)
                && forall|j: int| 0 <= j < final(self).channels@.len() ==> !(#[trigger] final(self).channels@[j]).clients@.contains(s)
                && !final(self).channels@[j].listeners@.contains(s),
    {
        self.disconnect(s)
    }
}

} // verus!
