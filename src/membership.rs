use crate::channel::{Channel, ROOT_CHANNEL};
use crate::client::Client;
use crate::idset::{insert_value, remove_value};
use crate::message::{sends_control, ChannelRemove, ClientMessage, ControlMessage, Delivery};
use crate::state::{lemma_unique_indices, MumbleError, ServerState, SocketBinding};
use std::sync::Arc;
use vstd::prelude::*;

verus! {

/// `ds` hands `m` to every client of `clients`, one each, in order.
pub open spec fn is_broadcast(ds: Seq<Delivery>, clients: Seq<Client>, m: ControlMessage) -> bool {
    &&& ds.len() == clients.len()
    &&& forall|q: int| 0 <= q < ds.len() ==> (#[trigger] ds[q]).to == clients[q].session_id && sends_control(ds[q], m)
}

impl ServerState {
    /// Client `x` listens to channel `c`.
    pub open spec fn listens(&self, c: u32, x: u32) -> bool {
        exists|j: int| #[trigger] self.channel_at(j, c) && self.channels@[j].listeners@.contains(x)
    }

    /// `c` is a temporary channel other than the root with no residents.
    pub open spec fn abandoned(&self, c: u32) -> bool {
        exists|j: int| #[trigger] self.channel_at(j, c) && self.channels@[j].temporary && c != ROOT_CHANNEL
            && self.channels@[j].clients@.len() == 0
    }

    /// Hands `msg` to every connected client, in registry order.
    pub fn broadcast_message(&self, msg: ControlMessage) -> (r: Vec<Delivery>)
        ensures
            is_broadcast(r@, self.clients@, msg),
    {
        let shared = Arc::new(msg);
        let mut out: Vec<Delivery> = Vec::new();
        let mut q: usize = 0;
        while q < self.clients.len()
            invariant
                q <= self.clients@.len(),
                *shared == msg,
                out@.len() == q,
                forall|k: int| 0 <= k < q ==> (#[trigger] out@[k]).to == self.clients@[k].session_id
                    && sends_control(out@[k], msg),
            decreases self.clients@.len() - q,
        {
            out.push(Delivery {
                to: self.clients[q].session_id,
                message: ClientMessage::SendMessage(Arc::clone(&shared)),
            });
            q = q + 1;
        }
        out
    }

    /// Removes channel `c` when it is abandoned, and tells every client.
    pub fn handle_client_left_channel(&mut self, c: u32) -> (r: Vec<Delivery>)
        requires
            old(self).wf(),
        ensures
            final(self).wf(),
            !old(self).abandoned(c) ==> *final(self) == *old(self) && r@.len() == 0,
            old(self).abandoned(c) ==> exists|j: int| {
                &&& #[trigger] old(self).channel_at(j, c)
                &&& *final(self) == (ServerState { channels: final(self).channels, ..*old(self) })
                &&& final(self).channels@ == old(self).channels@.remove(j)
                &&& is_broadcast(r@, old(self).clients@, ControlMessage::ChannelRemove(ChannelRemove { channel_id: c }))
            },
    {
        proof {
            lemma_unique_indices(*self);
        }
        let j = match self.find_channel(c) {
            None => {
                return Vec::new();
            },
            Some(j) => j,
        };
        if !self.channels[j].temporary || c == ROOT_CHANNEL || self.channels[j].clients.len() != 0 {
            return Vec::new();
        }
        let ghost pre = *self;
        self.channels.remove(j);
        proof {
            let post = *self;
            assert(j != 0);
            assert forall|k: int, x: u32| pre.client_at(k, x) <==> post.client_at(k, x) by {}
            assert forall|x: u32| pre.has_session(x) <==> post.has_session(x) by {
                if pre.has_session(x) {
                    let k = choose|k: int| pre.client_at(k, x);
                    assert(post.client_at(k, x));
                }
                if post.has_session(x) {
                    let k = choose|k: int| post.client_at(k, x);
                    assert(pre.client_at(k, x));
                }
            }
            assert forall|k: int| 0 <= k < post.clients@.len() implies post.has_channel(
                #[trigger] post.clients@[k].channel_id) by {
                let jj = choose|jj: int| pre.channel_at(jj, pre.clients@[k].channel_id);
                if jj == j as int {
                    assert(pre.channels@[j as int].clients@.contains(pre.clients@[k].session_id));
                } else if jj < j as int {
                    assert(post.channel_at(jj, post.clients@[k].channel_id));
                } else {
                    assert(post.channel_at(jj - 1, post.clients@[k].channel_id));
                }
            }
            assert forall|j1: int, j2: int| 0 <= j1 < j2 < post.channels@.len()
                implies (#[trigger] post.channels@[j1]).id != (#[trigger] post.channels@[j2]).id by {
                let a = if j1 < j as int { j1 } else { j1 + 1 };
                let b = if j2 < j as int { j2 } else { j2 + 1 };
                assert(pre.channels@[a].id != pre.channels@[b].id);
            }
            assert forall|jj: int| 0 <= jj < post.channels@.len() implies {
                &&& (#[trigger] post.channels@[jj]).wf()
                &&& post.channels@[jj].id < post.channel_count
                &&& forall|x: u32| post.channels@[jj].listeners@.contains(x) ==> post.has_session(x)
            } by {
                let a = if jj < j as int { jj } else { jj + 1 };
                assert(post.channels@[jj] == pre.channels@[a]);
                assert(pre.channels@[a].id < pre.channel_count);
            }
            assert(post.probe_set_consistent()) by {
                assert forall|x: u32| #[trigger] post.clients_without_udp@.contains(x) <==> exists|k: int|
                    post.client_at(k, x) && (#[trigger] post.clients@[k]).udp_socket_addr is None by {
                    if post.clients_without_udp@.contains(x) {
                        let k = choose|k: int| pre.client_at(k, x) && pre.clients@[k].udp_socket_addr is None;
                        assert(post.client_at(k, x));
                    }
                }
            }
            assert(post.udp_maps_consistent()) by {
                assert forall|q: int| 0 <= q < post.clients_by_socket@.len() implies exists|k: int|
                    post.client_at(k, (#[trigger] post.clients_by_socket@[q]).session_id)
                        && (#[trigger] post.clients@[k]).udp_socket_addr == Some(post.clients_by_socket@[q].addr) by {
                    let k = choose|k: int| pre.client_at(k, pre.clients_by_socket@[q].session_id)
                        && pre.clients@[k].udp_socket_addr == Some(pre.clients_by_socket@[q].addr);
                    assert(post.client_at(k, post.clients_by_socket@[q].session_id));
                }
            }
            assert(post.residents_consistent()) by {
                assert forall|jj: int, x: u32| 0 <= jj < post.channels@.len() && #[trigger] post.channels@[jj].clients@.contains(x)
                    implies exists|k: int| post.client_at(k, x) && (#[trigger] post.clients@[k]).channel_id == post.channels@[jj].id by {
                    let a = if jj < j as int { jj } else { jj + 1 };
                    assert(post.channels@[jj] == pre.channels@[a]);
                    let k = choose|k: int| pre.client_at(k, x) && pre.clients@[k].channel_id == pre.channels@[a].id;
                    assert(post.client_at(k, x));
                }
                assert forall|k: int, jj: int| 0 <= k < post.clients@.len() && 0 <= jj < post.channels@.len()
                    && (#[trigger] post.clients@[k]).channel_id == (#[trigger] post.channels@[jj]).id
                    implies post.channels@[jj].clients@.contains(post.clients@[k].session_id) by {
                    let a = if jj < j as int { jj } else { jj + 1 };
                    assert(post.channels@[jj] == pre.channels@[a]);
                }
            }
        }
        self.broadcast_message(ControlMessage::ChannelRemove(ChannelRemove { channel_id: c }))
    }
}

/// `c` is a temporary channel other than the root whose residents are at
/// most client `s`: it is left empty when `s` goes.
pub open spec fn left_empty(st: ServerState, c: u32, s: u32) -> bool {
    exists|jo: int| #[trigger] st.channel_at(jo, c) && st.channels@[jo].temporary && c != ROOT_CHANNEL
        && forall|x: u32| st.channels@[jo].clients@.contains(x) ==> x == s
}

/// After an abandoned-channel check on `c`, every other channel is kept,
/// and `c` is kept exactly when it was not abandoned.
pub proof fn lemma_channel_drop_keeps_channels(mid: ServerState, post: ServerState, c: u32)
    requires
        mid.wf(),
        !mid.abandoned(c) ==> post == mid,
        mid.abandoned(c) ==> exists|j: int| #[trigger] mid.channel_at(j, c) && post.channels@ == mid.channels@.remove(j),
    ensures
        forall|x: u32| x != c ==> post.has_channel(x) == mid.has_channel(x),
        post.has_channel(c) <==> (mid.has_channel(c) && !mid.abandoned(c)),
{
    lemma_unique_indices(mid);
    if mid.abandoned(c) {
        let j2 = choose|j2: int| #[trigger] mid.channel_at(j2, c) && post.channels@ == mid.channels@.remove(j2);
        assert forall|x: u32| post.has_channel(x) <==> (mid.has_channel(x) && x != c) by {
            if mid.has_channel(x) && x != c {
                let k = choose|k: int| mid.channel_at(k, x);
                assert(k != j2);
                if k < j2 {
                    assert(post.channel_at(k, x));
                } else {
                    assert(post.channel_at(k - 1, x));
                }
            }
            if post.has_channel(x) {
                let k = choose|k: int| post.channel_at(k, x);
                if k < j2 {
                    assert(mid.channel_at(k, x));
                } else {
                    assert(mid.channel_at(k + 1, x));
                }
                assert(x != c);
            }
        }
    }
}

/// `a` and `b` are the same channel, whatever their residents and listeners.
pub open spec fn same_record(a: Channel, b: Channel) -> bool {
    a.id == b.id && a.parent_id == b.parent_id && a.name@ == b.name@ && a.description@ == b.description@
        && a.temporary == b.temporary
}

/// `d` carries a channel announcement.
pub open spec fn is_channel_state(d: Delivery) -> bool {
    d.message is SendMessage && *(d.message->SendMessage_0) is ChannelState
}

/// `d` announces the state of client `c`.
pub open spec fn announces_user(d: Delivery, c: Client) -> bool {
    &&& d.message is SendMessage
    &&& *(d.message->SendMessage_0) is UserState
    &&& c.user_state_of((*(d.message->SendMessage_0))->UserState_0)
}

impl ServerState {
    /// Moves client `s` into channel `c`.
    ///
    /// Nothing happens when either is unknown or the client is there already.
    /// Otherwise every client is told the mover's new state, and the channel
    /// it left is removed (and every client told) when that leaves it
    /// abandoned.
    #[verifier::rlimit(80)]
    pub fn set_client_channel(&mut self, s: u32, c: u32) -> (r: Vec<Delivery>)
        requires
            old(self).wf(),
        ensures
            final(self).wf(),
            *final(self) == (ServerState { clients: final(self).clients, channels: final(self).channels, ..*old(self) }),
            !old(self).has_session(s) || !old(self).has_channel(c) ==> *final(self) == *old(self) && r@.len() == 0,
            forall|x: u32, d: u32| #[trigger] final(self).listens(d, x) <==> (old(self).listens(d, x) && final(self).has_channel(d)),
            forall|d: u32| final(self).has_channel(d) ==> old(self).has_channel(d),
            forall|j: int| 0 <= j < final(self).channels@.len() ==> exists|j1: int| 0 <= j1 < old(self).channels@.len()
                && same_record(#[trigger] final(self).channels@[j], old(self).channels@[j1]),
            forall|q: int| 0 <= q < r@.len() ==> !is_channel_state(#[trigger] r@[q]),
            forall|i: int| #[trigger] old(self).client_at(i, s) && old(self).has_channel(c) ==> {
                let co = old(self).clients@[i].channel_id;
                let moved = Client { channel_id: c, ..old(self).clients@[i] };
                if co == c {
                    *final(self) == *old(self) && r@.len() == 0
                } else {
                    &&& final(self).clients@ == old(self).clients@.update(i, moved)
                    &&& forall|x: u32| x != co ==> final(self).has_channel(x) == old(self).has_channel(x)
                    &&& final(self).has_channel(co) <==> !(exists|jo: int| #[trigger] old(self).channel_at(jo, co)
                        && old(self).channels@[jo].temporary && co != ROOT_CHANNEL
                        && forall|x: u32| old(self).channels@[jo].clients@.contains(x) ==> x == s)
                    &&& r@.len() >= final(self).clients@.len()
                    &&& forall|q: int| 0 <= q < final(self).clients@.len() ==> (#[trigger] r@[q]).to
                        == final(self).clients@[q].session_id && announces_user(r@[q], moved)
                    &&& r@.len() > final(self).clients@.len() ==> is_broadcast(
                        r@.subrange(final(self).clients@.len() as int, r@.len() as int),
                        final(self).clients@,
                        ControlMessage::ChannelRemove(ChannelRemove { channel_id: co }),
                    )
                }
            },
    {
        proof {
            lemma_unique_indices(*self);
        }
        let i = match self.find_client(s) {
            None => {
                return Vec::new();
            },
            Some(i) => i,
        };
        let jn = match self.find_channel(c) {
            None => {
                return Vec::new();
            },
            Some(j) => j,
        };
        let co = self.clients[i].channel_id;
        if co == c {
            return Vec::new();
        }
        let jo = match self.find_channel(co) {
            None => {
                return Vec::new();
            },
            Some(j) => j,
        };
        let ghost pre = *self;
        let _ = self.clients[i].join_channel(c);
        remove_value(&mut self.channels[jo].clients, s);
        insert_value(&mut self.channels[jn].clients, s);
        proof {
            assert(self.clients@ =~= pre.clients@.update(i as int, Client { channel_id: c, ..pre.clients@[i as int] }));
            lemma_move_keeps_wf(pre, *self, i as int, jo as int, jn as int);
        }
        let ghost mid = *self;
        let user_state = self.clients[i].get_user_state();
        let mut out = self.broadcast_message(ControlMessage::UserState(user_state));
        let ghost first = out@;
        let ghost emptied = self.channels@[jo as int].clients@.len() == 0;
        proof {
            lemma_unique_indices(mid);
            assert(emptied <==> forall|x: u32| pre.channels@[jo as int].clients@.contains(x) ==> x == s) by {
                if !emptied {
                    assert(mid.channels@[jo as int].clients@.contains(mid.channels@[jo as int].clients@[0]));
                }
            }
            assert(mid.abandoned(co) <==> (pre.channels@[jo as int].temporary && co != ROOT_CHANNEL && emptied)) by {
                if mid.abandoned(co) {
                    let j2 = choose|j2: int| #[trigger] mid.channel_at(j2, co) && mid.channels@[j2].temporary
                        && co != ROOT_CHANNEL && mid.channels@[j2].clients@.len() == 0;
                    assert(j2 == jo as int);
                }
                if pre.channels@[jo as int].temporary && co != ROOT_CHANNEL && emptied {
                    assert(mid.channel_at(jo as int, co));
                }
            }
        }
        let mut rest = self.handle_client_left_channel(co);
        let ghost second = rest@;
        out.append(&mut rest);
        proof {
            let post = *self;
            assert(out@.subrange(0, first.len() as int) =~= first);
            assert(out@.subrange(first.len() as int, out@.len() as int) =~= second);
            assert(post.clients@ == mid.clients@);
            assert forall|x: u32| x != co implies post.has_channel(x) == pre.has_channel(x) by {
                assert(mid.has_channel(x) == pre.has_channel(x)) by {
                    if pre.has_channel(x) {
                        let k = choose|k: int| pre.channel_at(k, x);
                        assert(mid.channel_at(k, x));
                    }
                    if mid.has_channel(x) {
                        let k = choose|k: int| mid.channel_at(k, x);
                        assert(pre.channel_at(k, x));
                    }
                }
                if mid.abandoned(co) {
                    let j2 = choose|j2: int| #[trigger] mid.channel_at(j2, co) && post.channels@ == mid.channels@.remove(j2);
                    if mid.has_channel(x) {
                        let k = choose|k: int| mid.channel_at(k, x);
                        assert(k != j2);
                        if k < j2 {
                            assert(post.channel_at(k, x));
                        } else {
                            assert(post.channel_at(k - 1, x));
                        }
                    }
                    if post.has_channel(x) {
                        let k = choose|k: int| post.channel_at(k, x);
                        if k < j2 {
                            assert(mid.channel_at(k, x));
                        } else {
                            assert(mid.channel_at(k + 1, x));
                        }
                    }
                }
            }
            let gone = exists|j3: int| #[trigger] pre.channel_at(j3, co) && pre.channels@[j3].temporary
                && co != ROOT_CHANNEL && forall|x: u32| pre.channels@[j3].clients@.contains(x) ==> x == s;
            assert(gone <==> mid.abandoned(co)) by {
                if gone {
                    let j3 = choose|j3: int| #[trigger] pre.channel_at(j3, co) && pre.channels@[j3].temporary
                        && co != ROOT_CHANNEL && forall|x: u32| pre.channels@[j3].clients@.contains(x) ==> x == s;
                    assert(j3 == jo as int);
                }
                if mid.abandoned(co) {
                    assert(pre.channel_at(jo as int, co));
                }
            }
            assert(post.has_channel(co) <==> !mid.abandoned(co)) by {
                if mid.abandoned(co) {
                    let j2 = choose|j2: int| #[trigger] mid.channel_at(j2, co) && post.channels@ == mid.channels@.remove(j2);
                    if post.has_channel(co) {
                        let k = choose|k: int| post.channel_at(k, co);
                        if k < j2 {
                            assert(mid.channel_at(k, co));
                        } else {
                            assert(mid.channel_at(k + 1, co));
                        }
                    }
                } else {
                    assert(post.channel_at(jo as int, co));
                }
            }
            assert forall|q: int| 0 <= q < post.clients@.len() implies (#[trigger] out@[q]).to
                == post.clients@[q].session_id && announces_user(out@[q], Client { channel_id: c, ..pre.clients@[i as int] }) by {
                assert(out@[q] == first[q]);
            }
            assert forall|x: u32, d: u32| mid.listens(d, x) <==> pre.listens(d, x) by {
                if mid.listens(d, x) {
                    let k = choose|k: int| #[trigger] mid.channel_at(k, d) && mid.channels@[k].listeners@.contains(x);
                    assert(pre.channel_at(k, d));
                }
                if pre.listens(d, x) {
                    let k = choose|k: int| #[trigger] pre.channel_at(k, d) && pre.channels@[k].listeners@.contains(x);
                    assert(mid.channel_at(k, d));
                }
            }
            assert forall|d: u32| mid.has_channel(d) <==> pre.has_channel(d) by {
                if pre.has_channel(d) {
                    let k = choose|k: int| pre.channel_at(k, d);
                    assert(mid.channel_at(k, d));
                }
                if mid.has_channel(d) {
                    let k = choose|k: int| mid.channel_at(k, d);
                    assert(pre.channel_at(k, d));
                }
            }
            lemma_channel_drop_keeps_listens(mid, post);
            assert forall|j: int| 0 <= j < mid.channels@.len() implies same_record(#[trigger] mid.channels@[j], pre.channels@[j]) by {}
            assert forall|j: int| 0 <= j < post.channels@.len() implies exists|j1: int| 0 <= j1 < pre.channels@.len()
                && same_record(#[trigger] post.channels@[j], pre.channels@[j1]) by {
                if post.channels@ == mid.channels@ {
                    assert(same_record(post.channels@[j], pre.channels@[j]));
                } else {
                    let j2 = choose|j2: int| #[trigger] mid.channel_at(j2, co) && post.channels@ == mid.channels@.remove(j2);
                    let a = if j < j2 { j } else { j + 1 };
                    assert(post.channels@[j] == mid.channels@[a]);
                    assert(same_record(post.channels@[j], pre.channels@[a]));
                }
            }
            assert forall|q: int| 0 <= q < out@.len() implies !is_channel_state(#[trigger] out@[q]) by {
                if q < first.len() {
                    assert(out@[q] == first[q]);
                } else {
                    assert(out@[q] == second[q - first.len()]);
                }
            }
        }
        out
    }
}

impl ServerState {
    /// Channel `j` is the first whose name is `name`.
    pub open spec fn first_named(&self, j: int, name: Seq<char>) -> bool {
        &&& 0 <= j < self.channels@.len()
        &&& self.channels@[j].name@ == name
        &&& forall|k: int| 0 <= k < j ==> (#[trigger] self.channels@[k]).name@ != name
    }

    /// Some channel is named `name`.
    pub open spec fn has_channel_named(&self, name: Seq<char>) -> bool {
        exists|j: int| 0 <= j < self.channels@.len() && (#[trigger] self.channels@[j]).name@ == name
    }

    /// The first channel named `name`.
    pub fn get_channel_by_name(&self, name: &str) -> (r: Option<u32>)
        ensures
            r is Some ==> exists|j: int| #[trigger] self.first_named(j, name@) && self.channels@[j].id == r->0,
            r is None ==> !self.has_channel_named(name@),
    {
        let key = name.to_owned();
        let mut j: usize = 0;
        while j < self.channels.len()
            invariant
                j <= self.channels@.len(),
                key@ == name@,
                forall|k: int| 0 <= k < j ==> (#[trigger] self.channels@[k]).name@ != name@,
            decreases self.channels@.len() - j,
        {
            if self.channels[j].name == key {
                assert(self.first_named(j as int, name@));
                return Some(self.channels[j].id);
            }
            j = j + 1;
        }
        None
    }

    /// Creates a channel with the next channel id, without residents or listeners.
    pub fn add_channel(&mut self, parent: u32, name: String, description: String, temporary: bool) -> (r: Result<u32, MumbleError>)
        requires
            old(self).wf(),
        ensures
            final(self).wf(),
            old(self).channel_count == u32::MAX <==> r == Err::<u32, MumbleError>(MumbleError::ChannelIdsExhausted),
            r is Err ==> *final(self) == *old(self),
            old(self).channel_count < u32::MAX ==> r is Ok,
            r is Ok ==> {
                let c = final(self).channels@.last();
                &&& r->Ok_0 == old(self).channel_count
                &&& final(self).channel_count == old(self).channel_count + 1
                &&& *final(self) == (ServerState { channels: final(self).channels, channel_count: final(self).channel_count, ..*old(self) })
                &&& final(self).channels@.drop_last() == old(self).channels@
                &&& final(self).channels@.len() == old(self).channels@.len() + 1
                &&& c.id == r->Ok_0 && c.parent_id == Some(parent) && c.name@ == name@
                &&& c.description@ == description@ && c.temporary == temporary
                &&& c.clients@.len() == 0 && c.listeners@.len() == 0
            },
    {
        if self.channel_count == u32::MAX {
            return Err(MumbleError::ChannelIdsExhausted);
        }
        let ghost pre = *self;
        let id = self.get_free_channel_id();
        self.channels.push(Channel::new(id, Some(parent), name, description, temporary));
        proof {
            let post = *self;
            lemma_unique_indices(pre);
            assert(post.channels@.drop_last() =~= pre.channels@);
            assert forall|k: int, x: u32| pre.client_at(k, x) <==> post.client_at(k, x) by {}
            assert forall|x: u32| pre.has_session(x) implies post.has_session(x) by {
                if pre.has_session(x) {
                    let k = choose|k: int| pre.client_at(k, x);
                    assert(post.client_at(k, x));
                }
            }
            assert forall|x: u32| post.has_session(x) implies pre.has_session(x) by {
                if post.has_session(x) {
                    let k = choose|k: int| post.client_at(k, x);
                    assert(pre.client_at(k, x));
                }
            }
            assert forall|k: int| 0 <= k < post.clients@.len() implies {
                &&& (#[trigger] post.clients@[k]).wf()
                &&& post.clients@[k].session_id < post.session_count
                &&& post.has_channel(post.clients@[k].channel_id)
            } by {
                let j = choose|j: int| pre.channel_at(j, pre.clients@[k].channel_id);
                assert(post.channel_at(j, post.clients@[k].channel_id));
            }
            assert forall|j: int| 0 <= j < post.channels@.len() implies {
                &&& (#[trigger] post.channels@[j]).wf()
                &&& post.channels@[j].id < post.channel_count
                &&& forall|x: u32| post.channels@[j].listeners@.contains(x) ==> post.has_session(x)
            } by {
                if j < pre.channels@.len() {
                    assert(pre.channels@[j] == post.channels@[j]);
                    assert(pre.channels@[j].id < pre.channel_count);
                }
            }
            assert forall|j1: int, j2: int| 0 <= j1 < j2 < post.channels@.len()
                implies (#[trigger] post.channels@[j1]).id != (#[trigger] post.channels@[j2]).id by {
                assert(pre.channels@[j1].id < pre.channel_count);
                if j2 < pre.channels@.len() {
                    assert(pre.channels@[j1].id != pre.channels@[j2].id);
                }
            }
            assert(post.probe_set_consistent()) by {
                assert forall|x: u32| #[trigger] post.clients_without_udp@.contains(x) <==> exists|k: int|
                    post.client_at(k, x) && (#[trigger] post.clients@[k]).udp_socket_addr is None by {
                    if post.clients_without_udp@.contains(x) {
                        let k = choose|k: int| pre.client_at(k, x) && pre.clients@[k].udp_socket_addr is None;
                        assert(post.client_at(k, x));
                    }
                }
            }
            assert(post.udp_maps_consistent()) by {
                assert forall|q: int| 0 <= q < post.clients_by_socket@.len() implies exists|k: int|
                    post.client_at(k, (#[trigger] post.clients_by_socket@[q]).session_id)
                        && (#[trigger] post.clients@[k]).udp_socket_addr == Some(post.clients_by_socket@[q].addr) by {
                    let k = choose|k: int| pre.client_at(k, pre.clients_by_socket@[q].session_id)
                        && pre.clients@[k].udp_socket_addr == Some(pre.clients_by_socket@[q].addr);
                    assert(post.client_at(k, post.clients_by_socket@[q].session_id));
                }
            }
            assert(post.residents_consistent()) by {
                assert forall|j: int, x: u32| 0 <= j < post.channels@.len() && #[trigger] post.channels@[j].clients@.contains(x)
                    implies exists|k: int| post.client_at(k, x) && (#[trigger] post.clients@[k]).channel_id == post.channels@[j].id by {
                    assert(j < pre.channels@.len());
                    assert(pre.channels@[j] == post.channels@[j]);
                    let k = choose|k: int| pre.client_at(k, x) && pre.clients@[k].channel_id == pre.channels@[j].id;
                    assert(post.client_at(k, x));
                }
                assert forall|k: int, j: int| 0 <= k < post.clients@.len() && 0 <= j < post.channels@.len()
                    && (#[trigger] post.clients@[k]).channel_id == (#[trigger] post.channels@[j]).id
                    implies post.channels@[j].clients@.contains(post.clients@[k].session_id) by {
                    let jj = choose|jj: int| pre.channel_at(jj, pre.clients@[k].channel_id);
                    if j == pre.channels@.len() {
                        assert(pre.channels@[jj].id < pre.channel_count);
                    } else {
                        assert(pre.channels@[j] == post.channels@[j]);
                    }
                }
            }
        }
        Ok(id)
    }
}

impl ServerState {
    /// Adds (`on`) or removes client `s` as a listener of channel `c`; an
    /// unknown channel, or an unknown client to add, changes nothing.
    pub fn set_listener(&mut self, c: u32, s: u32, on: bool)
        requires
            old(self).wf(),
        ensures
            final(self).wf(),
            *final(self) == (ServerState { channels: final(self).channels, ..*old(self) }),
            forall|d: u32| #[trigger] final(self).has_channel(d) == old(self).has_channel(d),
            final(self).channels@.len() == old(self).channels@.len(),
            forall|j: int| 0 <= j < old(self).channels@.len() ==> #[trigger] final(self).channels@[j] == (Channel {
                listeners: final(self).channels@[j].listeners,
                ..old(self).channels@[j]
            }),
            forall|d: u32, x: u32| #[trigger] final(self).listens(d, x) <==> if d == c && x == s && old(self).has_channel(c)
                && (old(self).has_session(s) || !on) {
                on
            } else {
                old(self).listens(d, x)
            },
    {
        proof {
            lemma_unique_indices(*self);
        }
        let j = match self.find_channel(c) {
            None => {
                return;
            },
            Some(j) => j,
        };
        if on && self.find_client(s).is_none() {
            return;
        }
        let ghost pre = *self;
        if on {
            insert_value(&mut self.channels[j].listeners, s);
        } else {
            remove_value(&mut self.channels[j].listeners, s);
        }
        proof {
            let post = *self;
            assert(post.channels@ == pre.channels@.update(j as int, post.channels@[j as int]));
            assert forall|d: u32| #[trigger] post.has_channel(d) == pre.has_channel(d) by {
                if pre.has_channel(d) {
                    let k = choose|k: int| pre.channel_at(k, d);
                    assert(post.channel_at(k, d));
                }
                if post.has_channel(d) {
                    let k = choose|k: int| post.channel_at(k, d);
                    assert(pre.channel_at(k, d));
                }
            }
            assert forall|d: u32, x: u32| #[trigger] post.listens(d, x) <==> if d == c && x == s {
                on
            } else {
                pre.listens(d, x)
            } by {
                if post.listens(d, x) {
                    let k = choose|k: int| #[trigger] post.channel_at(k, d) && post.channels@[k].listeners@.contains(x);
                    assert(pre.channel_at(k, d));
                }
                if pre.listens(d, x) && !(d == c && x == s) {
                    let k = choose|k: int| #[trigger] pre.channel_at(k, d) && pre.channels@[k].listeners@.contains(x);
                    assert(post.channel_at(k, d));
                }
                if d == c && x == s && on {
                    assert(post.channel_at(j as int, d));
                }
            }
            assert forall|k: int, x: u32| pre.client_at(k, x) <==> post.client_at(k, x) by {}
            assert forall|jj: int| 0 <= jj < post.channels@.len() implies {
                &&& (#[trigger] post.channels@[jj]).wf()
                &&& post.channels@[jj].id < post.channel_count
                &&& forall|x: u32| post.channels@[jj].listeners@.contains(x) ==> post.has_session(x)
            } by {
                assert(pre.channels@[jj].id < pre.channel_count);
                assert forall|x: u32| post.channels@[jj].listeners@.contains(x) implies post.has_session(x) by {
                    if jj == j as int && x == s {
                        let k = choose|k: int| pre.client_at(k, x);
                        assert(post.client_at(k, x));
                    } else {
                        assert(pre.channels@[jj].listeners@.contains(x));
                        assert(pre.has_session(x));
                        let k = choose|k: int| pre.client_at(k, x);
                        assert(post.client_at(k, x));
                    }
                }
            }
            assert forall|k: int| 0 <= k < post.clients@.len() implies post.has_channel(#[trigger] post.clients@[k].channel_id) by {
                assert(pre.has_channel(pre.clients@[k].channel_id));
            }
            assert forall|j1: int, j2: int| 0 <= j1 < j2 < post.channels@.len()
                implies (#[trigger] post.channels@[j1]).id != (#[trigger] post.channels@[j2]).id by {
                assert(pre.channels@[j1].id != pre.channels@[j2].id);
            }
            assert(post.probe_set_consistent()) by {
                assert forall|x: u32| #[trigger] post.clients_without_udp@.contains(x) <==> exists|k: int|
                    post.client_at(k, x) && (#[trigger] post.clients@[k]).udp_socket_addr is None by {
                    if post.clients_without_udp@.contains(x) {
                        let k = choose|k: int| pre.client_at(k, x) && pre.clients@[k].udp_socket_addr is None;
                        assert(post.client_at(k, x));
                    }
                }
            }
            assert(post.udp_maps_consistent()) by {
                assert forall|q: int| 0 <= q < post.clients_by_socket@.len() implies exists|k: int|
                    post.client_at(k, (#[trigger] post.clients_by_socket@[q]).session_id)
                        && (#[trigger] post.clients@[k]).udp_socket_addr == Some(post.clients_by_socket@[q].addr) by {
                    let k = choose|k: int| pre.client_at(k, pre.clients_by_socket@[q].session_id)
                        && pre.clients@[k].udp_socket_addr == Some(pre.clients_by_socket@[q].addr);
                    assert(post.client_at(k, post.clients_by_socket@[q].session_id));
                }
            }
            assert(post.residents_consistent()) by {
                assert forall|jj: int, x: u32| 0 <= jj < post.channels@.len() && #[trigger] post.channels@[jj].clients@.contains(x)
                    implies exists|k: int| post.client_at(k, x) && (#[trigger] post.clients@[k]).channel_id == post.channels@[jj].id by {
                    assert(pre.channels@[jj].clients@ == post.channels@[jj].clients@);
                    let k = choose|k: int| pre.client_at(k, x) && pre.clients@[k].channel_id == pre.channels@[jj].id;
                    assert(post.client_at(k, x));
                }
                assert forall|k: int, jj: int| 0 <= k < post.clients@.len() && 0 <= jj < post.channels@.len()
                    && (#[trigger] post.clients@[k]).channel_id == (#[trigger] post.channels@[jj]).id
                    implies post.channels@[jj].clients@.contains(post.clients@[k].session_id) by {
                    assert(pre.channels@[jj].clients@ == post.channels@[jj].clients@);
                }
            }
        }
    }
}

/// Moving client `i` from channel `jo` to channel `jn`, with both resident
/// sets updated, keeps the registry well formed.
proof fn lemma_move_keeps_wf(pre: ServerState, post: ServerState, i: int, jo: int, jn: int)
    requires
        pre.wf(),
        0 <= i < pre.clients@.len(),
        0 <= jo < pre.channels@.len(),
        0 <= jn < pre.channels@.len(),
        jo != jn,
        pre.channels@[jo].id == pre.clients@[i].channel_id,
        post == (ServerState { clients: post.clients, channels: post.channels, ..pre }),
        post.clients@ == pre.clients@.update(i, Client { channel_id: pre.channels@[jn].id, ..pre.clients@[i] }),
        post.channels@.len() == pre.channels@.len(),
        forall|j: int| 0 <= j < pre.channels@.len() && j != jo && j != jn ==> post.channels@[j] == pre.channels@[j],
        post.channels@[jo].wf() && post.channels@[jn].wf(),
        post.channels@[jo].id == pre.channels@[jo].id && post.channels@[jn].id == pre.channels@[jn].id,
        post.channels@[jo].temporary == pre.channels@[jo].temporary,
        post.channels@[jn].temporary == pre.channels@[jn].temporary,
        post.channels@[jo].listeners@ == pre.channels@[jo].listeners@,
        post.channels@[jn].listeners@ == pre.channels@[jn].listeners@,
        forall|x: u32| #[trigger] post.channels@[jo].clients@.contains(x) <==> (pre.channels@[jo].clients@.contains(x)
            && x != pre.clients@[i].session_id),
        forall|x: u32| #[trigger] post.channels@[jn].clients@.contains(x) <==> (pre.channels@[jn].clients@.contains(x)
            || x == pre.clients@[i].session_id),
    ensures
        post.wf(),
{
    lemma_unique_indices(pre);
    let s = pre.clients@[i].session_id;
    assert forall|k: int, x: u32| pre.client_at(k, x) <==> post.client_at(k, x) by {}
    assert forall|x: u32| pre.has_session(x) <==> post.has_session(x) by {
        if pre.has_session(x) {
            let k = choose|k: int| pre.client_at(k, x);
            assert(post.client_at(k, x));
        }
        if post.has_session(x) {
            let k = choose|k: int| post.client_at(k, x);
            assert(pre.client_at(k, x));
        }
    }
    assert forall|x: u32| pre.has_channel(x) <==> post.has_channel(x) by {
        if pre.has_channel(x) {
            let k = choose|k: int| pre.channel_at(k, x);
            assert(post.channel_at(k, x));
        }
        if post.has_channel(x) {
            let k = choose|k: int| post.channel_at(k, x);
            assert(pre.channel_at(k, x));
        }
    }
    assert forall|k: int| 0 <= k < post.clients@.len() implies {
        &&& (#[trigger] post.clients@[k]).wf()
        &&& post.clients@[k].session_id < post.session_count
        &&& post.has_channel(post.clients@[k].channel_id)
    } by {
        if k == i {
            assert(pre.channel_at(jn, post.clients@[k].channel_id));
        } else {
            assert(pre.has_channel(pre.clients@[k].channel_id));
        }
    }
    assert forall|i1: int, i2: int| 0 <= i1 < i2 < post.clients@.len()
        implies (#[trigger] post.clients@[i1]).session_id != (#[trigger] post.clients@[i2]).session_id by {
        assert(pre.clients@[i1].session_id != pre.clients@[i2].session_id);
    }
    assert forall|j1: int, j2: int| 0 <= j1 < j2 < post.channels@.len()
        implies (#[trigger] post.channels@[j1]).id != (#[trigger] post.channels@[j2]).id by {
        assert(pre.channels@[j1].id != pre.channels@[j2].id);
    }
    assert forall|j: int| 0 <= j < post.channels@.len() implies {
        &&& (#[trigger] post.channels@[j]).wf()
        &&& post.channels@[j].id < post.channel_count
        &&& forall|x: u32| post.channels@[j].listeners@.contains(x) ==> post.has_session(x)
    } by {
        assert(pre.channels@[j].id < pre.channel_count);
        assert(pre.channels@[j].wf());
    }
    assert(post.channels@[0].id == ROOT_CHANNEL && !post.channels@[0].temporary);
    assert(post.probe_set_consistent()) by {
        assert forall|x: u32| #[trigger] post.clients_without_udp@.contains(x) <==> exists|k: int|
            post.client_at(k, x) && (#[trigger] post.clients@[k]).udp_socket_addr is None by {
            if post.clients_without_udp@.contains(x) {
                let k = choose|k: int| pre.client_at(k, x) && pre.clients@[k].udp_socket_addr is None;
                assert(post.client_at(k, x) && post.clients@[k].udp_socket_addr is None);
            }
            if exists|k: int| post.client_at(k, x) && (#[trigger] post.clients@[k]).udp_socket_addr is None {
                let k = choose|k: int| post.client_at(k, x) && post.clients@[k].udp_socket_addr is None;
                assert(pre.client_at(k, x) && pre.clients@[k].udp_socket_addr is None);
            }
        }
    }
    assert(post.udp_maps_consistent()) by {
        assert forall|q: int| 0 <= q < post.clients_by_socket@.len() implies exists|k: int|
            post.client_at(k, (#[trigger] post.clients_by_socket@[q]).session_id)
                && (#[trigger] post.clients@[k]).udp_socket_addr == Some(post.clients_by_socket@[q].addr) by {
            let k = choose|k: int| pre.client_at(k, pre.clients_by_socket@[q].session_id)
                && pre.clients@[k].udp_socket_addr == Some(pre.clients_by_socket@[q].addr);
            assert(post.client_at(k, post.clients_by_socket@[q].session_id));
        }
        assert forall|k: int| 0 <= k < post.clients@.len() && (#[trigger] post.clients@[k]).udp_socket_addr is Some
            implies post.clients_by_socket@.contains(SocketBinding {
                addr: post.clients@[k].udp_socket_addr->0,
                session_id: post.clients@[k].session_id,
            }) by {
            assert(pre.clients@[k].udp_socket_addr is Some);
        }
    }
    assert(post.residents_consistent()) by {
        assert forall|j: int, x: u32| 0 <= j < post.channels@.len() && #[trigger] post.channels@[j].clients@.contains(x)
            implies exists|k: int| post.client_at(k, x) && (#[trigger] post.clients@[k]).channel_id == post.channels@[j].id by {
            if j == jn && x == s {
                assert(post.client_at(i, x));
            } else {
                assert(pre.channels@[j].clients@.contains(x));
                let k = choose|k: int| pre.client_at(k, x) && pre.clients@[k].channel_id == pre.channels@[j].id;
                if k == i {
                    assert(j == jo);
                } else {
                    assert(post.client_at(k, x) && post.clients@[k].channel_id == post.channels@[j].id);
                }
            }
        }
        assert forall|k: int, j: int| 0 <= k < post.clients@.len() && 0 <= j < post.channels@.len()
            && (#[trigger] post.clients@[k]).channel_id == (#[trigger] post.channels@[j]).id
            implies post.channels@[j].clients@.contains(post.clients@[k].session_id) by {
            if k == i {
                assert(pre.channel_at(j, pre.channels@[jn].id));
            } else {
                assert(pre.clients@[k].channel_id == pre.channels@[j].id);
                assert(pre.channels@[j].clients@.contains(pre.clients@[k].session_id));
                assert(pre.clients@[k].session_id != s);
            }
        }
    }
}

/// Dropping at most one channel keeps what is heard on the others.
proof fn lemma_channel_drop_keeps_listens(mid: ServerState, post: ServerState)
    requires
        mid.wf(),
        post.channels@ == mid.channels@ || exists|j2: int| 0 <= j2 < mid.channels@.len() && post.channels@ == mid.channels@.remove(j2),
    ensures
        forall|x: u32, d: u32| #[trigger] post.listens(d, x) <==> (mid.listens(d, x) && post.has_channel(d)),
        forall|d: u32| post.has_channel(d) ==> mid.has_channel(d),
{
    lemma_unique_indices(mid);
    if post.channels@ == mid.channels@ {
        assert forall|x: u32, d: u32| #[trigger] post.listens(d, x) <==> (mid.listens(d, x) && post.has_channel(d)) by {
            if post.listens(d, x) {
                let k = choose|k: int| #[trigger] post.channel_at(k, d) && post.channels@[k].listeners@.contains(x);
                assert(mid.channel_at(k, d));
            }
            if mid.listens(d, x) {
                let k = choose|k: int| #[trigger] mid.channel_at(k, d) && mid.channels@[k].listeners@.contains(x);
                assert(post.channel_at(k, d));
            }
        }
        assert forall|d: u32| post.has_channel(d) implies mid.has_channel(d) by {
            let k = choose|k: int| post.channel_at(k, d);
            assert(mid.channel_at(k, d));
        }
    } else {
        let j2 = choose|j2: int| 0 <= j2 < mid.channels@.len() && post.channels@ == mid.channels@.remove(j2);
        assert forall|x: u32, d: u32| #[trigger] post.listens(d, x) <==> (mid.listens(d, x) && post.has_channel(d)) by {
            if post.listens(d, x) {
                let k = choose|k: int| #[trigger] post.channel_at(k, d) && post.channels@[k].listeners@.contains(x);
                let kk = if k < j2 { k } else { k + 1 };
                assert(mid.channel_at(kk, d));
            }
            if mid.listens(d, x) && post.has_channel(d) {
                let k = choose|k: int| #[trigger] mid.channel_at(k, d) && mid.channels@[k].listeners@.contains(x);
                let kp = choose|kp: int| post.channel_at(kp, d);
                let kk = if kp < j2 { kp } else { kp + 1 };
                assert(mid.channel_at(kk, d));
                assert(kk == k);
                assert(post.channels@[kp] == mid.channels@[k]);
            }
        }
        assert forall|d: u32| post.has_channel(d) implies mid.has_channel(d) by {
            let k = choose|k: int| post.channel_at(k, d);
            let kk = if k < j2 { k } else { k + 1 };
            assert(mid.channel_at(kk, d));
        }
    }
}

} // verus!
