use crate::channel::{Channel, ROOT_CHANNEL};
use crate::client::{Client, Endpoint};
use crate::codec::CodecState;
use crate::crypt::CryptState;
use crate::idset::{insert_value, remove_value};
use vstd::prelude::*;

verus! {

/// Most clients the server holds at once.
pub const MAX_CLIENTS: usize = 4096;

/// One entry of the by-endpoint map: the client bound to a UDP peer.
#[derive(Debug, Clone, Copy, PartialEq, Eq, Structural)]
pub struct SocketBinding {
    pub addr: Endpoint,
    pub session_id: u32,
}

/// Why the registry refused a request.
#[derive(Debug, Clone, Copy, PartialEq, Eq, Structural)]
pub enum MumbleError {
    /// The registry holds its largest number of clients.
    ServerFull,
    /// Every session id has been handed out.
    SessionIdsExhausted,
    /// Every channel id has been handed out.
    ChannelIdsExhausted,
    /// No connected client has the given session.
    UnknownSession,
    /// No channel has the given id.
    ChannelDoesntExist,
}

/// The registry of connected clients and channels.
///
/// `clients` is keyed by session id, `clients_without_udp` is the probe set
/// (clients whose UDP peer is not yet known), `clients_by_socket` maps bound
/// UDP peers to sessions, and `channels` is keyed by channel id.
#[derive(Debug)]
pub struct ServerState {
    pub clients: Vec<Client>,
    pub clients_without_udp: Vec<u32>,
    pub clients_by_socket: Vec<SocketBinding>,
    pub channels: Vec<Channel>,
    pub codec_state: CodecState,
    /// The next session id to hand out.
    pub session_count: u32,
    /// The next channel id to hand out.
    pub channel_count: u32,
}

impl ServerState {
    pub open spec fn has_session(&self, s: u32) -> bool {
        exists|i: int| #[trigger] self.client_at(i, s)
    }

    pub open spec fn has_channel(&self, c: u32) -> bool {
        exists|j: int| #[trigger] self.channel_at(j, c)
    }

    /// The client at index `i` has session `s`.
    pub open spec fn client_at(&self, i: int, s: u32) -> bool {
        0 <= i < self.clients@.len() && self.clients@[i].session_id == s
    }

    /// The channel at index `j` has id `c`.
    pub open spec fn channel_at(&self, j: int, c: u32) -> bool {
        0 <= j < self.channels@.len() && self.channels@[j].id == c
    }

    /// The probe set holds exactly the connected clients with no UDP peer.
    pub open spec fn probe_set_consistent(&self) -> bool {
        &&& self.clients_without_udp@.no_duplicates()
        &&& forall|s: u32| #[trigger] self.clients_without_udp@.contains(s) <==> exists|i: int|
            self.client_at(i, s) && (#[trigger] self.clients@[i]).udp_socket_addr is None
    }

    /// The by-endpoint map holds exactly the bound peers of connected clients.
    pub open spec fn udp_maps_consistent(&self) -> bool {
        &&& forall|k1: int, k2: int|
            0 <= k1 < k2 < self.clients_by_socket@.len() ==> (#[trigger] self.clients_by_socket@[k1]).addr
                != (#[trigger] self.clients_by_socket@[k2]).addr
        &&& forall|k: int| 0 <= k < self.clients_by_socket@.len() ==> exists|i: int|
            self.client_at(i, (#[trigger] self.clients_by_socket@[k]).session_id)
                && (#[trigger] self.clients@[i]).udp_socket_addr == Some(self.clients_by_socket@[k].addr)
        &&& forall|i: int| 0 <= i < self.clients@.len() && (#[trigger] self.clients@[i]).udp_socket_addr is Some
            ==> self.clients_by_socket@.contains(SocketBinding {
                addr: self.clients@[i].udp_socket_addr->0,
                session_id: self.clients@[i].session_id,
            })
    }

    /// Every channel's residents are exactly the clients whose current channel it is.
    pub open spec fn residents_consistent(&self) -> bool {
        &&& forall|j: int, s: u32| 0 <= j < self.channels@.len() && #[trigger] self.channels@[j].clients@.contains(s)
            ==> exists|i: int| self.client_at(i, s) && (#[trigger] self.clients@[i]).channel_id == self.channels@[j].id
        &&& forall|i: int, j: int| 0 <= i < self.clients@.len() && 0 <= j < self.channels@.len()
            && (#[trigger] self.clients@[i]).channel_id == (#[trigger] self.channels@[j]).id
            ==> self.channels@[j].clients@.contains(self.clients@[i].session_id)
    }

    pub open spec fn wf(&self) -> bool {
        &&& self.clients@.len() <= MAX_CLIENTS
        &&& self.session_count >= 1
        &&& self.channel_count >= 1
        &&& forall|i1: int, i2: int| 0 <= i1 < i2 < self.clients@.len()
            ==> (#[trigger] self.clients@[i1]).session_id != (#[trigger] self.clients@[i2]).session_id
        &&& forall|i: int| 0 <= i < self.clients@.len() ==> {
            &&& (#[trigger] self.clients@[i]).wf()
            &&& self.clients@[i].session_id < self.session_count
            &&& self.has_channel(self.clients@[i].channel_id)
        }
        &&& forall|j1: int, j2: int| 0 <= j1 < j2 < self.channels@.len()
            ==> (#[trigger] self.channels@[j1]).id != (#[trigger] self.channels@[j2]).id
        &&& forall|j: int| 0 <= j < self.channels@.len() ==> {
            &&& (#[trigger] self.channels@[j]).wf()
            &&& self.channels@[j].id < self.channel_count
            &&& forall|s: u32| self.channels@[j].listeners@.contains(s) ==> self.has_session(s)
        }
        &&& self.channels@.len() > 0
        &&& self.channels@[0].id == ROOT_CHANNEL
        &&& !self.channels@[0].temporary
        &&& self.probe_set_consistent()
        &&& self.udp_maps_consistent()
        &&& self.residents_consistent()
    }

    pub fn new() -> (r: ServerState)
        ensures
            r.wf(),
            r.clients@.len() == 0,
            r.channels@.len() == 1,
            r.channels@[0].name@ == "Root"@,
            r.session_count == 1,
            r.channel_count == 1,
    {
        let root = Channel::new(
            ROOT_CHANNEL,
            Some(ROOT_CHANNEL),
            "Root".to_string(),
            "Root channel".to_string(),
            false,
        );
        let mut channels: Vec<Channel> = Vec::new();
        channels.push(root);
        let r = ServerState {
            clients: Vec::new(),
            clients_without_udp: Vec::new(),
            clients_by_socket: Vec::new(),
            channels,
            codec_state: CodecState::default(),
            session_count: 1,
            channel_count: 1,
        };
        assert(r.clients_without_udp@.no_duplicates());
        r
    }

    /// Hands out the next session id; ids strictly increase.
    pub fn get_free_session_id(&mut self) -> (r: u32)
        requires
            old(self).wf(),
            old(self).session_count < u32::MAX,
        ensures
            final(self).wf(),
            r == old(self).session_count,
            *final(self) == (ServerState { session_count: (r + 1) as u32, ..*old(self) }),
    {
        let ghost pre = *self;
        let r = self.session_count;
        self.session_count = r + 1;
        proof {
            lemma_counters_keep_wf(pre, *self);
        }
        r
    }

    /// Hands out the next channel id; ids strictly increase.
    pub fn get_free_channel_id(&mut self) -> (r: u32)
        requires
            old(self).wf(),
            old(self).channel_count < u32::MAX,
        ensures
            final(self).wf(),
            r == old(self).channel_count,
            *final(self) == (ServerState { channel_count: (r + 1) as u32, ..*old(self) }),
    {
        let ghost pre = *self;
        let r = self.channel_count;
        self.channel_count = r + 1;
        proof {
            lemma_counters_keep_wf(pre, *self);
        }
        r
    }

    /// Registers a client that completed the handshake: it gets the next
    /// session id, starts in the root channel and joins the probe set.
    pub fn add_client(&mut self, name: String, codecs: Vec<i32>, crypt_state: CryptState, now: u64) -> (r: Result<u32, MumbleError>)
        requires
            old(self).wf(),
            crypt_state.wf(),
        ensures
            final(self).wf(),
            old(self).clients@.len() >= MAX_CLIENTS ==> r == Err::<u32, MumbleError>(MumbleError::ServerFull),
            old(self).clients@.len() < MAX_CLIENTS && old(self).session_count == u32::MAX
                ==> r == Err::<u32, MumbleError>(MumbleError::SessionIdsExhausted),
            r is Err ==> *final(self) == *old(self),
            old(self).clients@.len() < MAX_CLIENTS && old(self).session_count < u32::MAX ==> r is Ok,
            r is Ok ==> {
                let s = r->Ok_0;
                let c = final(self).clients@.last();
                &&& s == old(self).session_count
                &&& final(self).session_count == s + 1
                &&& final(self).channel_count == old(self).channel_count
                &&& final(self).clients@.drop_last() == old(self).clients@
                &&& final(self).clients@.len() == old(self).clients@.len() + 1
                &&& c.session_id == s && c.name@ == name@ && c.codecs@ == codecs@
                &&& c.channel_id == ROOT_CHANNEL && !c.mute && !c.deaf
                &&& c.udp_socket_addr is None && c.last_ping == now && c.crypt_state == crypt_state
                &&& final(self).clients_without_udp@ == old(self).clients_without_udp@.push(s)
                &&& final(self).clients_by_socket@ == old(self).clients_by_socket@
                &&& final(self).codec_state == old(self).codec_state
                &&& final(self).channels@.len() == old(self).channels@.len()
                &&& final(self).channels@[0].clients@ == old(self).channels@[0].clients@.push(s)
                &&& final(self).channels@[0].listeners@ == old(self).channels@[0].listeners@
            },
    {
        if self.clients.len() >= MAX_CLIENTS {
            return Err(MumbleError::ServerFull);
        }
        if self.session_count == u32::MAX {
            return Err(MumbleError::SessionIdsExhausted);
        }
        let ghost pre = *self;
        let session_id = self.get_free_session_id();
        proof {
            assert(!pre.has_session(session_id));
            assert(!pre.clients_without_udp@.contains(session_id));
            assert(!pre.channels@[0].clients@.contains(session_id));
        }
        let client = Client::new(name, session_id, ROOT_CHANNEL, codecs, crypt_state, now);
        self.clients.push(client);
        self.clients_without_udp.push(session_id);
        insert_value(&mut self.channels[0].clients, session_id);
        proof {
            let post = *self;
            assert(post.clients@.drop_last() =~= pre.clients@);
            assert(post.clients_without_udp@.no_duplicates());
            assert forall|i: int| 0 <= i < post.clients@.len() implies post.has_channel(
                #[trigger] post.clients@[i].channel_id) by {
                if i < pre.clients@.len() {
                    assert(pre.clients@[i] == post.clients@[i]);
                    assert(pre.has_channel(pre.clients@[i].channel_id));
                    let j = choose|j: int| pre.channel_at(j, pre.clients@[i].channel_id);
                    assert(post.channel_at(j, post.clients@[i].channel_id));
                } else {
                    assert(post.channel_at(0, post.clients@[i].channel_id));
                }
            }
            assert(post.probe_set_consistent()) by {
                assert forall|x: u32| #[trigger] post.clients_without_udp@.contains(x) <==> exists|i: int|
                    post.client_at(i, x) && (#[trigger] post.clients@[i]).udp_socket_addr is None by {
                    if post.clients_without_udp@.contains(x) {
                        if x == session_id {
                            assert(post.client_at(pre.clients@.len() as int, x));
                        } else {
                            assert(pre.clients_without_udp@.contains(x));
                            let i = choose|i: int| pre.client_at(i, x) && pre.clients@[i].udp_socket_addr is None;
                            assert(post.clients@[i] == pre.clients@[i]);
                        }
                    }
                    if exists|i: int| post.client_at(i, x) && (#[trigger] post.clients@[i]).udp_socket_addr is None {
                        let i = choose|i: int| post.client_at(i, x) && post.clients@[i].udp_socket_addr is None;
                        if i < pre.clients@.len() {
                            assert(pre.clients@[i] == post.clients@[i]);
                            assert(pre.clients_without_udp@.contains(x));
                            assert(post.clients_without_udp@[pre.clients_without_udp@.index_of(x)] == x);
                        } else {
                            assert(post.clients_without_udp@.last() == x);
                        }
                    }
                }
            }
            assert(post.udp_maps_consistent()) by {
                assert forall|k: int| 0 <= k < post.clients_by_socket@.len() implies exists|i: int|
                    post.client_at(i, (#[trigger] post.clients_by_socket@[k]).session_id)
                        && (#[trigger] post.clients@[i]).udp_socket_addr == Some(post.clients_by_socket@[k].addr) by {
                    let i = choose|i: int| pre.client_at(i, pre.clients_by_socket@[k].session_id)
                        && pre.clients@[i].udp_socket_addr == Some(pre.clients_by_socket@[k].addr);
                    assert(post.clients@[i] == pre.clients@[i]);
                }
                assert forall|i: int| 0 <= i < post.clients@.len() && (#[trigger] post.clients@[i]).udp_socket_addr is Some
                    implies post.clients_by_socket@.contains(SocketBinding {
                        addr: post.clients@[i].udp_socket_addr->0,
                        session_id: post.clients@[i].session_id,
                    }) by {
                    assert(i < pre.clients@.len());
                    assert(post.clients@[i] == pre.clients@[i]);
                }
            }
            assert(post.residents_consistent()) by {
                assert forall|j: int, x: u32| 0 <= j < post.channels@.len() && #[trigger] post.channels@[j].clients@.contains(x)
                    implies exists|i: int| post.client_at(i, x) && (#[trigger] post.clients@[i]).channel_id == post.channels@[j].id by {
                    if j == 0 && x == session_id {
                        assert(post.client_at(pre.clients@.len() as int, x));
                    } else {
                        assert(pre.channels@[j].clients@.contains(x));
                        let i = choose|i: int| pre.client_at(i, x) && pre.clients@[i].channel_id == pre.channels@[j].id;
                        assert(post.clients@[i] == pre.clients@[i]);
                    }
                }
                assert forall|i: int, j: int| 0 <= i < post.clients@.len() && 0 <= j < post.channels@.len()
                    && (#[trigger] post.clients@[i]).channel_id == (#[trigger] post.channels@[j]).id
                    implies post.channels@[j].clients@.contains(post.clients@[i].session_id) by {
                    if i < pre.clients@.len() {
                        assert(pre.clients@[i] == post.clients@[i]);
                        assert(pre.channels@[j].clients@.contains(pre.clients@[i].session_id));
                    } else {
                        assert(j == 0);
                    }
                }
            }
            assert forall|j: int| 0 <= j < post.channels@.len() implies (forall|x: u32|
                (#[trigger] post.channels@[j]).listeners@.contains(x) ==> post.has_session(x)) by {
                assert forall|x: u32| post.channels@[j].listeners@.contains(x) implies post.has_session(x) by {
                    assert(pre.channels@[j].listeners@ == post.channels@[j].listeners@);
                    assert(pre.channels@[j].id < pre.channel_count);
                    assert(pre.has_session(x));
                    let i = choose|i: int| pre.client_at(i, x);
                    assert(post.client_at(i, x));
                }
            }
        }
        Ok(session_id)
    }

    /// Index of the client with session `s`.
    pub fn find_client(&self, s: u32) -> (r: Option<usize>)
        requires
            self.wf(),
        ensures
            r is Some ==> self.client_at(r->0 as int, s),
            r is None ==> !self.has_session(s),
    {
        let mut i: usize = 0;
        while i < self.clients.len()
            invariant
                i <= self.clients@.len(),
                forall|k: int| 0 <= k < i ==> (#[trigger] self.clients@[k]).session_id != s,
            decreases self.clients@.len() - i,
        {
            if self.clients[i].session_id == s {
                return Some(i);
            }
            i = i + 1;
        }
        None
    }

    /// Index of the channel with id `c`.
    pub fn find_channel(&self, c: u32) -> (r: Option<usize>)
        requires
            self.wf(),
        ensures
            r is Some ==> self.channel_at(r->0 as int, c),
            r is None ==> !self.has_channel(c),
    {
        let mut j: usize = 0;
        while j < self.channels.len()
            invariant
                j <= self.channels@.len(),
                forall|k: int| 0 <= k < j ==> (#[trigger] self.channels@[k]).id != c,
            decreases self.channels@.len() - j,
        {
            if self.channels[j].id == c {
                return Some(j);
            }
            j = j + 1;
        }
        None
    }
}

/// Replacing a client by a well-formed one with the same session, channel and
/// UDP peer keeps the registry well formed.
pub proof fn lemma_client_swap_keeps_wf(pre: ServerState, post: ServerState, i: int)
    requires
        pre.wf(),
        0 <= i < pre.clients@.len(),
        post == (ServerState { clients: post.clients, ..pre }),
        post.clients@ == pre.clients@.update(i, post.clients@[i]),
        post.clients@[i].wf(),
        post.clients@[i].session_id == pre.clients@[i].session_id,
        post.clients@[i].channel_id == pre.clients@[i].channel_id,
        post.clients@[i].udp_socket_addr == pre.clients@[i].udp_socket_addr,
    ensures
        post.wf(),
{
    assert forall|k: int, x: u32| pre.client_at(k, x) <==> post.client_at(k, x) by {}
    assert forall|x: u32| pre.has_session(x) <==> post.has_session(x) by {
        if pre.has_session(x) {
            let k = choose|k: int| pre.client_at(k, x);
            assert(post.client_at(k, x));
        }
        if post.has_session(x) {
            let k = choose|k: int| post.client_at(k, x);
            assert(pre.client_at(k, x));
        }
    }
    assert forall|k: int| 0 <= k < post.clients@.len() implies {
        &&& (#[trigger] post.clients@[k]).wf()
        &&& post.clients@[k].session_id < post.session_count
        &&& post.has_channel(post.clients@[k].channel_id)
    } by {
        assert(pre.clients@[k].wf());
        let j = choose|j: int| pre.channel_at(j, pre.clients@[k].channel_id);
        assert(post.channel_at(j, post.clients@[k].channel_id));
    }
    assert(post.probe_set_consistent()) by {
        assert forall|x: u32| #[trigger] post.clients_without_udp@.contains(x) <==> exists|k: int|
            post.client_at(k, x) && (#[trigger] post.clients@[k]).udp_socket_addr is None by {
            if post.clients_without_udp@.contains(x) {
                let k = choose|k: int| pre.client_at(k, x) && pre.clients@[k].udp_socket_addr is None;
                assert(post.client_at(k, x) && post.clients@[k].udp_socket_addr is None);
            }
            if exists|k: int| post.client_at(k, x) && (#[trigger] post.clients@[k]).udp_socket_addr is None {
                let k = choose|k: int| post.client_at(k, x) && post.clients@[k].udp_socket_addr is None;
                assert(pre.client_at(k, x) && pre.clients@[k].udp_socket_addr is None);
            }
        }
    }
    assert(post.udp_maps_consistent()) by {
        assert forall|q: int| 0 <= q < post.clients_by_socket@.len() implies exists|k: int|
            post.client_at(k, (#[trigger] post.clients_by_socket@[q]).session_id)
                && (#[trigger] post.clients@[k]).udp_socket_addr == Some(post.clients_by_socket@[q].addr) by {
            let k = choose|k: int| pre.client_at(k, pre.clients_by_socket@[q].session_id)
                && pre.clients@[k].udp_socket_addr == Some(pre.clients_by_socket@[q].addr);
            assert(post.client_at(k, post.clients_by_socket@[q].session_id));
        }
        assert forall|k: int| 0 <= k < post.clients@.len() && (#[trigger] post.clients@[k]).udp_socket_addr is Some
            implies post.clients_by_socket@.contains(SocketBinding {
                addr: post.clients@[k].udp_socket_addr->0,
                session_id: post.clients@[k].session_id,
            }) by {
            assert(pre.clients@[k].udp_socket_addr is Some);
        }
    }
    assert(post.residents_consistent()) by {
        assert forall|j: int, x: u32| 0 <= j < post.channels@.len() && #[trigger] post.channels@[j].clients@.contains(x)
            implies exists|k: int| post.client_at(k, x) && (#[trigger] post.clients@[k]).channel_id == post.channels@[j].id by {
            let k = choose|k: int| pre.client_at(k, x) && pre.clients@[k].channel_id == pre.channels@[j].id;
            assert(post.client_at(k, x) && post.clients@[k].channel_id == post.channels@[j].id);
        }
        assert forall|k: int, j: int| 0 <= k < post.clients@.len() && 0 <= j < post.channels@.len()
            && (#[trigger] post.clients@[k]).channel_id == (#[trigger] post.channels@[j]).id
            implies post.channels@[j].clients@.contains(post.clients@[k].session_id) by {
            assert(pre.clients@[k].channel_id == pre.channels@[j].id);
        }
    }
    assert forall|j: int| 0 <= j < post.channels@.len() implies (forall|x: u32|
        (#[trigger] post.channels@[j]).listeners@.contains(x) ==> post.has_session(x)) by {
        assert(pre.channels@[j].id < pre.channel_count);
    }
    assert forall|i1: int, i2: int| 0 <= i1 < i2 < post.clients@.len()
        implies (#[trigger] post.clients@[i1]).session_id != (#[trigger] post.clients@[i2]).session_id by {
        assert(pre.clients@[i1].session_id != pre.clients@[i2].session_id);
    }
}

/// Session ids and channel ids each name at most one entry.
pub proof fn lemma_unique_indices(st: ServerState)
    requires
        st.wf(),
    ensures
        forall|i1: int, i2: int, x: u32| st.client_at(i1, x) && st.client_at(i2, x) ==> i1 == i2,
        forall|j1: int, j2: int, c: u32| st.channel_at(j1, c) && st.channel_at(j2, c) ==> j1 == j2,
{
    assert forall|i1: int, i2: int, x: u32| st.client_at(i1, x) && st.client_at(i2, x) implies i1 == i2 by {
        if i1 < i2 {
            assert(st.clients@[i1].session_id != st.clients@[i2].session_id);
        } else if i2 < i1 {
            assert(st.clients@[i2].session_id != st.clients@[i1].session_id);
        }
    }
    assert forall|j1: int, j2: int, c: u32| st.channel_at(j1, c) && st.channel_at(j2, c) implies j1 == j2 by {
        if j1 < j2 {
            assert(st.channels@[j1].id != st.channels@[j2].id);
        } else if j2 < j1 {
            assert(st.channels@[j2].id != st.channels@[j1].id);
        }
    }
}

/// Raising the id counters or changing the codec preference keeps the
/// registry well formed.
pub proof fn lemma_counters_keep_wf(pre: ServerState, post: ServerState)
    requires
        pre.wf(),
        post == (ServerState { codec_state: post.codec_state, session_count: post.session_count,
            channel_count: post.channel_count, ..pre }),
        post.session_count >= pre.session_count,
        post.channel_count >= pre.channel_count,
    ensures
        post.wf(),
{
    assert forall|k: int, x: u32| pre.client_at(k, x) == post.client_at(k, x) by {}
    assert forall|j: int, c: u32| pre.channel_at(j, c) == post.channel_at(j, c) by {}
    assert forall|x: u32| pre.has_session(x) == post.has_session(x) by {
        if pre.has_session(x) {
            let k = choose|k: int| pre.client_at(k, x);
            assert(post.client_at(k, x));
        }
        if post.has_session(x) {
            let k = choose|k: int| post.client_at(k, x);
            assert(pre.client_at(k, x));
        }
    }
    assert forall|c: u32| pre.has_channel(c) == post.has_channel(c) by {
        if pre.has_channel(c) {
            let k = choose|k: int| pre.channel_at(k, c);
            assert(post.channel_at(k, c));
        }
        if post.has_channel(c) {
            let k = choose|k: int| post.channel_at(k, c);
            assert(pre.channel_at(k, c));
        }
    }
    assert(post.probe_set_consistent()) by {
        assert forall|x: u32| #[trigger] post.clients_without_udp@.contains(x) <==> exists|k: int|
            post.client_at(k, x) && (#[trigger] post.clients@[k]).udp_socket_addr is None by {
            if post.clients_without_udp@.contains(x) {
                let k = choose|k: int| pre.client_at(k, x) && pre.clients@[k].udp_socket_addr is None;
                assert(post.client_at(k, x));
            }
            if exists|k: int| post.client_at(k, x) && (#[trigger] post.clients@[k]).udp_socket_addr is None {
                let k = choose|k: int| post.client_at(k, x) && post.clients@[k].udp_socket_addr is None;
                assert(pre.client_at(k, x));
            }
        }
    }
    assert(post.udp_maps_consistent()) by {
        assert forall|q: int| 0 <= q < post.clients_by_socket@.len() implies exists|k: int|
            post.client_at(k, (#[trigger] post.clients_by_socket@[q]).session_id)
                && (#[trigger] post.clients@[k]).udp_socket_addr == Some(post.clients_by_socket@[q].addr) by {
            let k = choose|k: int| pre.client_at(k, pre.clients_by_socket@[q].session_id)
                && pre.clients@[k].udp_socket_addr == Some(pre.clients_by_socket@[q].addr);
            assert(post.client_at(k, post.clients_by_socket@[q].session_id));
        }
    }
    assert(post.residents_consistent()) by {
        assert forall|j: int, x: u32| 0 <= j < post.channels@.len() && #[trigger] post.channels@[j].clients@.contains(x)
            implies exists|k: int| post.client_at(k, x) && (#[trigger] post.clients@[k]).channel_id == post.channels@[j].id by {
            let k = choose|k: int| pre.client_at(k, x) && pre.clients@[k].channel_id == pre.channels@[j].id;
            assert(post.client_at(k, x));
        }
    }
    assert forall|j: int| 0 <= j < post.channels@.len() implies {
        &&& (#[trigger] post.channels@[j]).wf()
        &&& post.channels@[j].id < post.channel_count
        &&& forall|x: u32| post.channels@[j].listeners@.contains(x) ==> post.has_session(x)
    } by {
        assert(pre.channels@[j].id < pre.channel_count);
    }
    assert forall|k: int| 0 <= k < post.clients@.len() implies {
        &&& (#[trigger] post.clients@[k]).wf()
        &&& post.clients@[k].session_id < post.session_count
        &&& post.has_channel(post.clients@[k].channel_id)
    } by {
        assert(pre.has_channel(pre.clients@[k].channel_id));
    }
}

} // verus!
