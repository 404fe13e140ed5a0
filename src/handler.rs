use crate::channel::{Channel, ROOT_CHANNEL};
use crate::client::Client;
use crate::crypt::{sat_add, CryptState};
use crate::codec::{plurality_choice, plurality_version, CodecState};
use crate::membership::is_broadcast;
use crate::fanout::lemma_prefix_step;
use crate::membership::{announces_user, is_channel_state, left_empty, same_record};
use crate::message::{
    sends_control, sends_crypt_setup, ChannelState, ClientMessage, ControlMessage, Delivery, Ping, UserState,
    VoiceTargetRequest,
};
use std::sync::Arc;
use crate::state::{lemma_client_swap_keeps_wf, lemma_unique_indices, MumbleError, ServerState};
use crate::target::{requested_channels, requested_sessions, VoiceTarget, TARGET_SLOTS};
use vstd::prelude::*;
use vstd::string::StringSliceAdditionalSpecFns;

verus! {

/// Highest voice-target id a client may configure.
pub const MAX_TARGET_ID: u32 = 30;

/// Longest channel name accepted, in bytes of UTF-8.
pub const MAX_CHANNEL_NAME: usize = 512;

/// `d` carries the announcement of a channel with this id, parent, name and
/// temporary flag.
pub open spec fn announces_channel(d: Delivery, id: u32, parent: Option<u32>, name: Seq<char>, temporary: bool) -> bool {
    &&& d.message is SendMessage
    &&& *(d.message->SendMessage_0) is ChannelState
    &&& {
        let st = (*(d.message->SendMessage_0))->ChannelState_0;
        &&& st.channel_id == Some(id)
        &&& st.parent == parent
        &&& st.name is Some && st.name->0@ == name
        &&& st.temporary == Some(temporary)
    }
}

/// Length of `name` in bytes of UTF-8, as `str::len` reports it.
pub open spec fn name_byte_len(name: Seq<char>) -> usize {
    vstd::utf8::encode_utf8(name).len() as usize
}

/// Codec versions advertised by `clients`, client after client.
pub open spec fn advertised(clients: Seq<Client>) -> Seq<i32>
    decreases clients.len(),
{
    if clients.len() == 0 {
        Seq::empty()
    } else {
        advertised(clients.drop_last()) + clients.last().codecs@
    }
}

/// A channel request that asks for the creation of a temporary channel
/// under an existing parent, with a name of acceptable length.
pub open spec fn creation_request_ok(st: ServerState, req: ChannelState) -> bool {
    &&& req.channel_id is None
    &&& req.parent is Some
    &&& req.name is Some
    &&& req.temporary == Some(true)
    &&& name_byte_len(req.name->0@) <= MAX_CHANNEL_NAME
    &&& st.has_channel(req.parent->0)
}

/// Client `s` is connected and resides in channel `c`.
pub open spec fn resides_in(st: ServerState, s: u32, c: u32) -> bool {
    exists|i: int| #[trigger] st.client_at(i, s) && st.clients@[i].channel_id == c
}

impl ServerState {
    /// Sets the mute flag of the client with session `s`; false when there is none.
    pub fn set_client_mute(&mut self, s: u32, mute: bool) -> (found: bool)
        requires
            old(self).wf(),
        ensures
            final(self).wf(),
            found == old(self).has_session(s),
            !found ==> *final(self) == *old(self),
            found ==> exists|i: int| old(self).client_at(i, s) && final(self).clients@ == old(self).clients@.update(
                i,
                Client { mute, ..old(self).clients@[i] },
            ),
            *final(self) == (ServerState { clients: final(self).clients, ..*old(self) }),
    {
        match self.find_client(s) {
            None => false,
            Some(i) => {
                let ghost pre = *self;
                self.clients[i].set_mute(mute);
                proof {
                    assert(self.clients@ =~= pre.clients@.update(i as int, self.clients@[i as int]));
                    lemma_client_swap_keeps_wf(pre, *self, i as int);
                }
                true
            },
        }
    }

    /// Sets the deaf flag of the client with session `s`; false when there is none.
    pub fn set_client_deaf(&mut self, s: u32, deaf: bool) -> (found: bool)
        requires
            old(self).wf(),
        ensures
            final(self).wf(),
            found == old(self).has_session(s),
            !found ==> *final(self) == *old(self),
            found ==> exists|i: int| old(self).client_at(i, s) && final(self).clients@ == old(self).clients@.update(
                i,
                Client { deaf, ..old(self).clients@[i] },
            ),
            *final(self) == (ServerState { clients: final(self).clients, ..*old(self) }),
    {
        match self.find_client(s) {
            None => false,
            Some(i) => {
                let ghost pre = *self;
                self.clients[i].set_deaf(deaf);
                proof {
                    assert(self.clients@ =~= pre.clients@.update(i as int, self.clients@[i as int]));
                    lemma_client_swap_keeps_wf(pre, *self, i as int);
                }
                true
            },
        }
    }

    /// A control-plane ping from `s`: notes the time and answers with the
    /// same timestamp and the sender's crypt counters.
    pub fn handle_ping(&mut self, s: u32, ping: &Ping, now: u64) -> (r: Vec<Delivery>)
        requires
            old(self).wf(),
        ensures
            final(self).wf(),
            !old(self).has_session(s) ==> *final(self) == *old(self) && r@.len() == 0,
            forall|i: int| #[trigger] old(self).client_at(i, s) ==> {
                let c = old(self).clients@[i];
                &&& final(self).clients@ == old(self).clients@.update(i, Client { last_ping: now, ..c })
                &&& r@.len() == 1
                &&& r@[0].to == s
                &&& sends_control(r@[0], ControlMessage::Ping(Ping {
                    timestamp: ping.timestamp,
                    good: c.crypt_state.good,
                    late: c.crypt_state.late,
                    lost: c.crypt_state.lost,
                    resync: c.crypt_state.resync,
                }))
            },
            *final(self) == (ServerState { clients: final(self).clients, ..*old(self) }),
    {
        proof {
            lemma_unique_indices(*self);
        }
        let mut out: Vec<Delivery> = Vec::new();
        match self.find_client(s) {
            None => out,
            Some(i) => {
                let ghost pre = *self;
                self.clients[i].last_ping = now;
                proof {
                    assert(self.clients@ =~= pre.clients@.update(i as int, self.clients@[i as int]));
                    lemma_client_swap_keeps_wf(pre, *self, i as int);
                }
                let c = &self.clients[i].crypt_state;
                let reply = Ping { timestamp: ping.timestamp, good: c.good, late: c.late, lost: c.lost, resync: c.resync };
                out.push(Delivery { to: s, message: ClientMessage::SendMessage(Arc::new(ControlMessage::Ping(reply))) });
                out
            },
        }
    }

    /// A CryptSetup from `s`: a nonce it carries becomes the sender's decrypt
    /// nonce; without one, the sender is sent its current crypt parameters.
    pub fn handle_crypt_setup(&mut self, s: u32, client_nonce: &Option<Vec<u8>>) -> (r: Vec<Delivery>)
        requires
            old(self).wf(),
        ensures
            final(self).wf(),
            !old(self).has_session(s) ==> *final(self) == *old(self) && r@.len() == 0,
            forall|i: int| #[trigger] old(self).client_at(i, s) ==> if client_nonce is Some {
                &&& r@.len() == 0
                &&& final(self).clients@ == old(self).clients@.update(i, Client { crypt_state: final(self).clients@[i].crypt_state, ..old(self).clients@[i] })
                &&& client_nonce->0@.len() == 16 ==> final(self).clients@[i].crypt_state.decrypt_iv@ == client_nonce->0@
                    && final(self).clients@[i].crypt_state == (CryptState {
                        decrypt_iv: final(self).clients@[i].crypt_state.decrypt_iv,
                        resync: sat_add(old(self).clients@[i].crypt_state.resync, 1),
                        ..old(self).clients@[i].crypt_state
                    })
                &&& client_nonce->0@.len() != 16 ==> final(self).clients@[i].crypt_state == old(self).clients@[i].crypt_state
            } else {
                &&& *final(self) == *old(self)
                &&& r@.len() == 1
                &&& r@[0].to == s
                &&& sends_crypt_setup(r@[0], old(self).clients@[i].crypt_state)
            },
            *final(self) == (ServerState { clients: final(self).clients, ..*old(self) }),
    {
        proof {
            lemma_unique_indices(*self);
        }
        let mut out: Vec<Delivery> = Vec::new();
        let i = match self.find_client(s) {
            None => {
                return out;
            },
            Some(i) => i,
        };
        match client_nonce {
            Some(n) => {
                let ghost pre = *self;
                self.clients[i].crypt_state.set_decrypt_nonce(n.as_slice());
                proof {
                    assert(self.clients@ =~= pre.clients@.update(i as int, self.clients@[i as int]));
                    lemma_client_swap_keeps_wf(pre, *self, i as int);
                }
            },
            None => {
                let setup = self.clients[i].crypt_state.get_crypt_setup();
                out.push(Delivery { to: s, message: ClientMessage::SendMessage(Arc::new(ControlMessage::CryptSetup(setup))) });
            },
        }
        out
    }

    /// A voice-target request from `s`: ids outside 1 to 30 are ignored
    /// (the request succeeds and nothing changes); otherwise slot `id - 1`,
    /// where the client has one, is rewritten to the sessions and channels
    /// that the request names.
    pub fn handle_voice_target(&mut self, s: u32, req: &VoiceTargetRequest) -> (r: Result<(), MumbleError>)
        requires
            old(self).wf(),
        ensures
            final(self).wf(),
            (req.id < 1 || req.id > MAX_TARGET_ID) ==> r is Ok && *final(self) == *old(self),
            1 <= req.id <= MAX_TARGET_ID && !old(self).has_session(s) ==> r == Err::<(), MumbleError>(
                MumbleError::UnknownSession),
            1 <= req.id <= MAX_TARGET_ID && old(self).has_session(s) ==> r is Ok,
            (r is Err || req.id as int > TARGET_SLOTS) ==> *final(self) == *old(self),
            r is Ok && 1 <= req.id && req.id as int <= TARGET_SLOTS ==> exists|i: int| {
                &&& old(self).client_at(i, s)
                &&& final(self).clients@ == old(self).clients@.update(i, final(self).clients@[i])
                &&& final(self).clients@[i] == (Client { targets: final(self).clients@[i].targets, ..old(self).clients@[i] })
                &&& final(self).clients@[i].targets@ == old(self).clients@[i].targets@.update(
                    req.id - 1,
                    final(self).clients@[i].targets@[req.id - 1],
                )
                &&& final(self).clients@[i].targets@[req.id - 1].session_set() == requested_sessions(req.targets@)
                &&& final(self).clients@[i].targets@[req.id - 1].channel_set() == requested_channels(req.targets@)
            },
            *final(self) == (ServerState { clients: final(self).clients, ..*old(self) }),
    {
        if req.id < 1 || req.id > MAX_TARGET_ID {
            return Ok(());
        }
        let i = match self.find_client(s) {
            None => {
                return Err(MumbleError::UnknownSession);
            },
            Some(i) => i,
        };
        if req.id as usize > TARGET_SLOTS {
            return Ok(());
        }
        let slot = (req.id - 1) as usize;
        let target = VoiceTarget::from_items(&req.targets);
        let ghost pre = *self;
        self.clients[i].targets.set(slot, target);
        proof {
            assert(self.clients@ =~= pre.clients@.update(i as int, self.clients@[i as int]));
            lemma_client_swap_keeps_wf(pre, *self, i as int);
        }
        Ok(())
    }

    /// A channel request from `s`. Only the creation of a temporary channel
    /// is honoured. When a channel of that name exists, its state is sent to
    /// `s` alone and `s` moves into it; otherwise a channel with the next id
    /// is created, announced to every client, and `s` moves into it.
    pub fn handle_channel_state(&mut self, s: u32, req: &ChannelState) -> (r: Vec<Delivery>)
        requires
            old(self).wf(),
        ensures
            final(self).wf(),
            !(creation_request_ok(*old(self), *req) && old(self).has_session(s)) ==> *final(self) == *old(self) && r@.len() == 0,
            creation_request_ok(*old(self), *req) && old(self).has_session(s) && old(self).has_channel_named(req.name->0@)
                ==> exists|j: int| {
                &&& #[trigger] old(self).first_named(j, req.name->0@)
                &&& r@.len() >= 1
                &&& r@[0].to == s
                &&& announces_channel(r@[0], old(self).channels@[j].id, old(self).channels@[j].parent_id,
                    req.name->0@, old(self).channels@[j].temporary)
                &&& resides_in(*final(self), s, old(self).channels@[j].id)
                &&& forall|x: u32| #[trigger] final(self).has_channel(x) ==> old(self).has_channel(x)
                &&& final(self).channel_count == old(self).channel_count
                &&& forall|q: int| 0 <= q < r@.len() && is_channel_state(#[trigger] r@[q]) ==> r@[q].to == s
            },
            creation_request_ok(*old(self), *req) && old(self).has_session(s) && !old(self).has_channel_named(req.name->0@)
                && old(self).channel_count == u32::MAX ==> *final(self) == *old(self) && r@.len() == 0,
            creation_request_ok(*old(self), *req) && old(self).has_session(s) && !old(self).has_channel_named(req.name->0@)
                && old(self).channel_count < u32::MAX ==> {
                let k = old(self).channel_count;
                &&& final(self).channel_count == k + 1
                &&& final(self).has_channel(k)
                &&& resides_in(*final(self), s, k)
                &&& r@.len() >= old(self).clients@.len()
                &&& forall|q: int| 0 <= q < old(self).clients@.len() ==> (#[trigger] r@[q]).to == old(self).clients@[q].session_id
                    && announces_channel(r@[q], k, req.parent, req.name->0@, true)
                &&& forall|q: int| old(self).clients@.len() <= q < r@.len() ==> !is_channel_state(#[trigger] r@[q])
                &&& !old(self).has_channel(k)
                &&& forall|x: u32| x != k ==> (#[trigger] final(self).has_channel(x) ==> old(self).has_channel(x))
                &&& exists|j: int| #[trigger] final(self).channel_at(j, k) && final(self).channels@[j].name@ == req.name->0@
                    && final(self).channels@[j].parent_id == req.parent && final(self).channels@[j].temporary
            },
            final(self).session_count == old(self).session_count,
    {
        let mut out: Vec<Delivery> = Vec::new();
        if req.channel_id.is_some() {
            return out;
        }
        let parent = match req.parent {
            None => {
                return out;
            },
            Some(p) => p,
        };
        let name = match &req.name {
            None => {
                return out;
            },
            Some(n) => n,
        };
        match req.temporary {
            Some(true) => {},
            _ => {
                return out;
            },
        }
        let name_str: &str = name.as_str();
        let name_len = name_str.len();
        assert(name_len == name_str.spec_bytes().len() as usize);
        if name_len > MAX_CHANNEL_NAME {
            return out;
        }
        assert(vstd::utf8::encode_utf8(name@).len() as usize <= MAX_CHANNEL_NAME);
        assert(req.temporary == Some(true));
        if self.find_channel(parent).is_none() {
            return out;
        }
        let i = match self.find_client(s) {
            None => {
                return out;
            },
            Some(i) => i,
        };
        proof {
            lemma_unique_indices(*self);
        }
        match self.get_channel_by_name(name.as_str()) {
            Some(c) => {
                proof {
                    let j1 = choose|j1: int| #[trigger] self.first_named(j1, name@) && self.channels@[j1].id == c;
                    assert(self.channel_at(j1, c));
                }
                let j = match self.find_channel(c) {
                    None => {
                        return out;
                    },
                    Some(j) => j,
                };
                let ghost j0 = choose|j0: int| #[trigger] self.first_named(j0, name@) && self.channels@[j0].id == c;
                assert(j0 == j as int);
                let state = self.channels[j].get_channel_state();
                out.push(Delivery { to: s, message: ClientMessage::SendMessage(Arc::new(ControlMessage::ChannelState(state))) });
                let ghost pre = *self;
                let ghost first = out@;
                let mut moved = self.set_client_channel(s, c);
                let ghost second = moved@;
                out.append(&mut moved);
                proof {
                    assert forall|q: int| 0 <= q < out@.len() && is_channel_state(#[trigger] out@[q]) implies out@[q].to == s by {
                        if q >= 1 {
                            assert(out@[q] == second[q - 1]);
                        }
                    }
                    assert(pre.client_at(i as int, s));
                    assert(pre.has_channel(c)) by {
                        assert(pre.channel_at(j as int, c));
                    }
                    assert(self.client_at(i as int, s));
                    assert(out@[0].to == s);
                }
            },
            None => {
                let description = match &req.description {
                    None => String::new(),
                    Some(d) => d.clone(),
                };
                let k = match self.add_channel(parent, name.clone(), description, true) {
                    Err(_) => {
                        return out;
                    },
                    Ok(k) => k,
                };
                let jk = self.channels.len() - 1;
                assert(self.channel_at(jk as int, k));
                let state = self.channels[jk].get_channel_state();
                out = self.broadcast_message(ControlMessage::ChannelState(state));
                let ghost first = out@;
                let ghost pre = *self;
                proof {
                    lemma_unique_indices(pre);
                    assert(pre.client_at(i as int, s));
                    assert(pre.has_channel(k));
                }
                let mut moved = self.set_client_channel(s, k);
                let ghost second = moved@;
                out.append(&mut moved);
                proof {
                    assert forall|q: int| first.len() <= q < out@.len() implies !is_channel_state(#[trigger] out@[q]) by {
                        assert(out@[q] == second[q - first.len()]);
                    }
                    assert(!old(self).has_channel(k)) by {
                        if old(self).has_channel(k) {
                            let j = choose|j: int| old(self).channel_at(j, k);
                        }
                    }
                    assert forall|x: u32| x != k implies (#[trigger] self.has_channel(x) ==> old(self).has_channel(x)) by {
                        if self.has_channel(x) {
                            assert(pre.has_channel(x));
                            let j = choose|j: int| pre.channel_at(j, x);
                            assert(j < old(self).channels@.len());
                            assert(old(self).channel_at(j, x));
                        }
                    }
                    assert(self.has_channel(k));
                    let jf = choose|jf: int| self.channel_at(jf, k);
                    let j1 = choose|j1: int| 0 <= j1 < pre.channels@.len() && same_record(#[trigger] self.channels@[jf], pre.channels@[j1]);
                    assert(pre.channel_at(j1, k));
                    assert(pre.channel_at(jk as int, k));
                    assert(j1 == jk as int);
                    assert(self.channel_at(jf, k) && self.channels@[jf].name@ == req.name->0@);
                    assert(self.client_at(i as int, s));
                    assert forall|q: int| 0 <= q < pre.clients@.len() implies (#[trigger] out@[q]).to == pre.clients@[q].session_id
                        && announces_channel(out@[q], k, req.parent, req.name->0@, true) by {
                        assert(out@[q] == first[q]);
                    }
                    if pre.clients@[i as int].channel_id != k {
                        assert(self.has_channel(k));
                    }
                }
            },
        }
        out
    }


    /// A state request from `s`, honoured only when it names `s` itself:
    /// the mute and deaf flags it carries are taken, the listener sets are
    /// edited (additions first, then removals; unknown channels are
    /// skipped), and last the client moves to the channel it names, if that
    /// channel exists.
    pub fn handle_user_state(&mut self, s: u32, req: &UserState) -> (r: Vec<Delivery>)
        requires
            old(self).wf(),
        ensures
            final(self).wf(),
            !(req.session == Some(s) && old(self).has_session(s)) ==> *final(self) == *old(self) && r@.len() == 0,
            req.session == Some(s) && old(self).has_session(s) ==> {
                &&& exists|i: int| #[trigger] final(self).client_at(i, s)
                    && final(self).clients@[i].mute == (if req.mute is Some { req.mute->0 } else { old(self).clients@[i].mute })
                    && final(self).clients@[i].deaf == (if req.deaf is Some { req.deaf->0 } else { old(self).clients@[i].deaf })
                &&& req.channel_id is Some && old(self).has_channel(req.channel_id->0) ==> resides_in(*final(self), s, req.channel_id->0)
                &&& forall|d: u32| #[trigger] final(self).has_channel(d) ==> (final(self).listens(d, s) <==> (
                    !req.listening_channel_remove@.contains(d) && (req.listening_channel_add@.contains(d) || old(self).listens(d, s))))
                &&& forall|d: u32, x: u32| x != s ==> (#[trigger] final(self).listens(d, x) <==> (old(self).listens(d, x)
                    && final(self).has_channel(d)))
                &&& final(self).clients@.len() == old(self).clients@.len()
                &&& forall|j: int| 0 <= j < old(self).clients@.len() && old(self).clients@[j].session_id != s
                    ==> #[trigger] final(self).clients@[j] == old(self).clients@[j]
                &&& forall|i: int| #[trigger] old(self).client_at(i, s) ==> {
                    let co = old(self).clients@[i].channel_id;
                    let moves = req.channel_id is Some && old(self).has_channel(req.channel_id->0) && req.channel_id->0 != co;
                    &&& final(self).client_at(i, s)
                    &&& !moves ==> final(self).clients@[i].channel_id == co && r@.len() == 0
                        && forall|x: u32| #[trigger] final(self).has_channel(x) == old(self).has_channel(x)
                    &&& moves ==> (forall|x: u32| x != co ==> #[trigger] final(self).has_channel(x) == old(self).has_channel(x))
                        && (final(self).has_channel(co) <==> !left_empty(*old(self), co, s))
                }
            },
            final(self).session_count == old(self).session_count,
    {
        let mut out: Vec<Delivery> = Vec::new();
        if req.session != Some(s) {
            return out;
        }
        let i = match self.find_client(s) {
            None => {
                return out;
            },
            Some(i) => i,
        };
        proof {
            lemma_unique_indices(*self);
        }
        let ghost pre = *self;
        self.clients[i].update(req);
        proof {
            assert(self.clients@ =~= pre.clients@.update(i as int, self.clients@[i as int]));
            lemma_client_swap_keeps_wf(pre, *self, i as int);
            assert(self.channels@ == pre.channels@);
            assert forall|d: u32| #[trigger] self.has_channel(d) == pre.has_channel(d) by {
                if pre.has_channel(d) {
                    let k = choose|k: int| pre.channel_at(k, d);
                    assert(self.channel_at(k, d));
                }
                if self.has_channel(d) {
                    let k = choose|k: int| self.channel_at(k, d);
                    assert(pre.channel_at(k, d));
                }
            }
            assert forall|d: u32, x: u32| #[trigger] self.listens(d, x) == pre.listens(d, x) by {
                if pre.listens(d, x) {
                    let k = choose|k: int| #[trigger] pre.channel_at(k, d) && pre.channels@[k].listeners@.contains(x);
                    assert(self.channel_at(k, d));
                }
                if self.listens(d, x) {
                    let k = choose|k: int| #[trigger] self.channel_at(k, d) && self.channels@[k].listeners@.contains(x);
                    assert(pre.channel_at(k, d));
                }
            }
            assert(self.client_at(i as int, s));
        }
        let ghost flagged = *self;
        let mut k: usize = 0;
        while k < req.listening_channel_add.len()
            invariant
                self.wf(),
                self.clients@ == flagged.clients@,
                self.session_count == pre.session_count,
                self.client_at(i as int, s),
                self.channels@.len() == pre.channels@.len(),
                forall|j: int| 0 <= j < pre.channels@.len() ==> #[trigger] self.channels@[j] == (Channel {
                    listeners: self.channels@[j].listeners,
                    ..pre.channels@[j]
                }),
                k <= req.listening_channel_add@.len(),
                forall|d: u32| #[trigger] self.has_channel(d) == pre.has_channel(d),
                forall|d: u32, x: u32| #[trigger] self.listens(d, x) <==> if x == s && pre.has_channel(d)
                    && req.listening_channel_add@.subrange(0, k as int).contains(d) {
                    true
                } else {
                    pre.listens(d, x)
                },
            decreases req.listening_channel_add@.len() - k,
        {
            let c = req.listening_channel_add[k];
            proof {
                lemma_prefix_step(req.listening_channel_add@, k as int);
                assert(self.has_session(s)) by {
                    assert(self.client_at(i as int, s));
                }
            }
            self.set_listener(c, s, true);
            k = k + 1;
        }
        proof {
            assert(req.listening_channel_add@.subrange(0, req.listening_channel_add@.len() as int) =~= req.listening_channel_add@);
        }
        let ghost added = *self;
        let mut k: usize = 0;
        while k < req.listening_channel_remove.len()
            invariant
                self.wf(),
                self.clients@ == flagged.clients@,
                self.session_count == pre.session_count,
                self.client_at(i as int, s),
                self.channels@.len() == pre.channels@.len(),
                forall|j: int| 0 <= j < pre.channels@.len() ==> #[trigger] self.channels@[j] == (Channel {
                    listeners: self.channels@[j].listeners,
                    ..pre.channels@[j]
                }),
                k <= req.listening_channel_remove@.len(),
                forall|d: u32| #[trigger] self.has_channel(d) == pre.has_channel(d),
                forall|d: u32, x: u32| #[trigger] self.listens(d, x) <==> if x == s && pre.has_channel(d)
                    && req.listening_channel_remove@.subrange(0, k as int).contains(d) {
                    false
                } else {
                    added.listens(d, x)
                },
            decreases req.listening_channel_remove@.len() - k,
        {
            let c = req.listening_channel_remove[k];
            proof {
                lemma_prefix_step(req.listening_channel_remove@, k as int);
            }
            self.set_listener(c, s, false);
            k = k + 1;
        }
        proof {
            assert(req.listening_channel_remove@.subrange(0, req.listening_channel_remove@.len() as int)
                =~= req.listening_channel_remove@);
            assert(self.client_at(i as int, s));
        }
        let ghost edited = *self;
        match req.channel_id {
            None => {},
            Some(c) => {
                out = self.set_client_channel(s, c);
            },
        }
        proof {
            let post = *self;
            assert(edited.client_at(i as int, s));
            assert(post.client_at(i as int, s));
            assert forall|d: u32| #[trigger] post.has_channel(d) implies (post.listens(d, s) <==> (
                !req.listening_channel_remove@.contains(d) && (req.listening_channel_add@.contains(d) || pre.listens(d, s)))) by {
                assert(edited.has_channel(d));
                assert(post.listens(d, s) == edited.listens(d, s));
                if pre.listens(d, s) {
                    let jj = choose|jj: int| #[trigger] pre.channel_at(jj, d) && pre.channels@[jj].listeners@.contains(s);
                    assert(pre.has_channel(d));
                }
            }
            assert forall|d: u32, x: u32| x != s implies (#[trigger] post.listens(d, x) <==> (pre.listens(d, x)
                && post.has_channel(d))) by {
                assert(post.listens(d, x) <==> (edited.listens(d, x) && post.has_channel(d)));
                if post.has_channel(d) {
                    assert(edited.has_channel(d));
                }
                if pre.listens(d, x) {
                    let jj = choose|jj: int| #[trigger] pre.channel_at(jj, d) && pre.channels@[jj].listeners@.contains(x);
                    assert(pre.has_channel(d));
                }
            }
            if req.channel_id is Some {
                let c = req.channel_id->0;
                if pre.has_channel(c) {
                    assert(edited.has_channel(c));
                    if edited.clients@[i as int].channel_id == c {
                        assert(post.client_at(i as int, s) && post.clients@[i as int].channel_id == c);
                    }
                }
            }
            assert forall|j: int| 0 <= j < pre.clients@.len() && pre.clients@[j].session_id != s
                implies #[trigger] post.clients@[j] == pre.clients@[j] by {
                assert(j != i as int);
            }
            let co = pre.clients@[i as int].channel_id;
            assert(edited.clients@[i as int].channel_id == co);
            assert forall|x: u32| #[trigger] edited.has_channel(x) == pre.has_channel(x) by {}
            assert(left_empty(edited, co, s) == left_empty(pre, co, s)) by {
                if left_empty(edited, co, s) {
                    let jo = choose|jo: int| #[trigger] edited.channel_at(jo, co) && edited.channels@[jo].temporary
                        && co != ROOT_CHANNEL && forall|x: u32| edited.channels@[jo].clients@.contains(x) ==> x == s;
                    assert(pre.channel_at(jo, co));
                }
                if left_empty(pre, co, s) {
                    let jo = choose|jo: int| #[trigger] pre.channel_at(jo, co) && pre.channels@[jo].temporary
                        && co != ROOT_CHANNEL && forall|x: u32| pre.channels@[jo].clients@.contains(x) ==> x == s;
                    assert(edited.channel_at(jo, co));
                }
            }
            assert forall|i2: int| #[trigger] pre.client_at(i2, s) implies i2 == i as int by {}
        }
        out
    }


    /// Codec versions advertised by the connected clients, client after client.
    pub fn advertised_codecs(&self) -> (r: Vec<i32>)
        ensures
            r@ == advertised(self.clients@),
    {
        let mut all: Vec<i32> = Vec::new();
        let mut q: usize = 0;
        while q < self.clients.len()
            invariant
                q <= self.clients@.len(),
                all@ == advertised(self.clients@.subrange(0, q as int)),
            decreases self.clients@.len() - q,
        {
            let codecs = &self.clients[q].codecs;
            let ghost before = all@;
            let mut m: usize = 0;
            while m < codecs.len()
                invariant
                    m <= codecs@.len(),
                    all@ == before + codecs@.subrange(0, m as int),
                decreases codecs@.len() - m,
            {
                all.push(codecs[m]);
                proof {
                    assert(codecs@.subrange(0, m + 1) =~= codecs@.subrange(0, m as int).push(codecs@[m as int]));
                }
                m = m + 1;
            }
            proof {
                assert(codecs@.subrange(0, codecs@.len() as int) =~= codecs@);
                assert(self.clients@.subrange(0, q + 1).drop_last() =~= self.clients@.subrange(0, q as int));
            }
            q = q + 1;
        }
        assert(self.clients@.subrange(0, self.clients@.len() as int) =~= self.clients@);
        all
    }

    /// Codec negotiation when client `s` joins: the versions advertised by
    /// all connected clients are tallied. When the plurality is the current
    /// version, `s` alone is sent the current decision; otherwise the other
    /// slot becomes preferred with the new version and every client is told.
    pub fn check_codec(&mut self, s: u32) -> (r: Vec<Delivery>)
        requires
            old(self).wf(),
        ensures
            final(self).wf(),
            exists|v: i32| #[trigger] plurality_choice(advertised(old(self).clients@), old(self).codec_state.version(), v) && if v
                == old(self).codec_state.version() {
                &&& *final(self) == *old(self)
                &&& r@.len() == 1
                &&& r@[0].to == s
                &&& sends_control(r@[0], ControlMessage::CodecVersion(old(self).codec_state.codec_version()))
            } else {
                &&& *final(self) == (ServerState { codec_state: old(self).codec_state.switched_to(v), ..*old(self) })
                &&& is_broadcast(r@, old(self).clients@, ControlMessage::CodecVersion(final(self).codec_state.codec_version()))
            },
    {
        let current = self.codec_state.get_version();
        let all = self.advertised_codecs();
        let v = plurality_version(&all, current);
        assert(plurality_choice(all@, current, v));
        if v == current {
            let mut out: Vec<Delivery> = Vec::new();
            let cv = self.codec_state.get_codec_version();
            out.push(Delivery { to: s, message: ClientMessage::SendMessage(Arc::new(ControlMessage::CodecVersion(cv))) });
            return out;
        }
        let ghost pre = *self;
        self.codec_state.switch_to(v);
        proof {
            crate::state::lemma_counters_keep_wf(pre, *self);
        }
        let cv = self.codec_state.get_codec_version();
        self.broadcast_message(ControlMessage::CodecVersion(cv))
    }

}

} // verus!
