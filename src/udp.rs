use crate::message::{sends_crypt_setup, ClientMessage, ControlMessage, Delivery};
use crate::state::{ServerState, SocketBinding, MAX_CLIENTS};
use crate::client::{Client, Endpoint};
use crate::status::copy_ids;
use crate::state::lemma_client_swap_keeps_wf;
use crate::crypt::{after_refusal, decrypt_error, next_nonce, opened, opens, sat_add, sealed_datagram, CryptState};
use crate::voice::{audio_frame, decode_voice, decodes, encode_voice, frame_kind, ping_timestamp, voice_bytes, VoicePacket, KIND_PING};
use vstd::prelude::*;

verus! {

/// Bandwidth each client may use, in bits per second.
pub const MAX_BANDWIDTH: u32 = 144_000;

/// Length of an anonymous server-list ping.
pub const ANON_PING_LEN: usize = 12;

/// Length of the answer to an anonymous ping.
pub const ANON_PING_REPLY_LEN: usize = 24;

/// Late packets a client may send before its crypt state is reset.
pub const MAX_LATE: u32 = 100;

/// Why a voice datagram could not be decrypted.
#[derive(Debug, Clone, Copy, PartialEq, Eq, Structural)]
pub enum DecryptError {
    /// The datagram is too short to hold a header.
    Eof,
    /// The nonce was seen before.
    Repeat,
    /// The nonce is too far behind the window.
    Late,
    /// The authentication tag does not match.
    Mac,
}

/// What a datagram on the shared UDP socket is, before any decryption.
#[derive(Debug, Clone, Copy, PartialEq, Eq, Structural)]
pub enum Datagram {
    /// Too short to be anything.
    Invalid,
    /// An anonymous server-list ping carrying a client timestamp.
    AnonymousPing { timestamp: u64 },
    /// Presumably an encrypted voice frame.
    Voice,
}

/// The eight bytes of `b` from `at` on, read as a little-endian integer.
pub open spec fn le_u64_at(b: Seq<u8>, at: int) -> u64 {
    (b[at] as u64) | ((b[at + 1] as u64) << 8u64) | ((b[at + 2] as u64) << 16u64) | ((b[at + 3] as u64) << 24u64)
        | ((b[at + 4] as u64) << 32u64) | ((b[at + 5] as u64) << 40u64) | ((b[at + 6] as u64) << 48u64)
        | ((b[at + 7] as u64) << 56u64)
}

/// Big-endian bytes of `v`.
pub open spec fn be_bytes32(v: u32) -> Seq<u8> {
    seq![(v >> 24u32) as u8, (v >> 16u32) as u8, (v >> 8u32) as u8, v as u8]
}

/// Little-endian bytes of `v`.
pub open spec fn le_bytes64(v: u64) -> Seq<u8> {
    seq![v as u8, (v >> 8u64) as u8, (v >> 16u64) as u8, (v >> 24u64) as u8,
        (v >> 32u64) as u8, (v >> 40u64) as u8, (v >> 48u64) as u8, (v >> 56u64) as u8]
}

/// The answer to an anonymous ping.
pub open spec fn ping_reply_bytes(protocol_version: u32, timestamp: u64, clients: u32) -> Seq<u8> {
    be_bytes32(protocol_version) + le_bytes64(timestamp) + be_bytes32(clients) + be_bytes32(MAX_CLIENTS as u32)
        + be_bytes32(MAX_BANDWIDTH)
}

/// Sorts a received datagram: at most one byte is invalid; twelve bytes
/// whose first four are zero are an anonymous ping; anything else is taken
/// for a voice frame.
pub fn classify_datagram(buf: &[u8]) -> (r: Datagram)
    ensures
        buf@.len() <= 1 ==> r == Datagram::Invalid,
        buf@.len() == ANON_PING_LEN && buf@[0] == 0 && buf@[1] == 0 && buf@[2] == 0 && buf@[3] == 0
            ==> r == (Datagram::AnonymousPing { timestamp: le_u64_at(buf@, 4) }),
        buf@.len() > 1 && !(buf@.len() == ANON_PING_LEN && buf@[0] == 0 && buf@[1] == 0 && buf@[2] == 0 && buf@[3] == 0)
            ==> r == Datagram::Voice,
{
    if buf.len() <= 1 {
        return Datagram::Invalid;
    }
    if buf.len() == ANON_PING_LEN && buf[0] == 0 && buf[1] == 0 && buf[2] == 0 && buf[3] == 0 {
        let timestamp = (buf[4] as u64) | ((buf[5] as u64) << 8u64) | ((buf[6] as u64) << 16u64) | ((buf[7] as u64)
            << 24u64) | ((buf[8] as u64) << 32u64) | ((buf[9] as u64) << 40u64) | ((buf[10] as u64) << 48u64) | ((
        buf[11] as u64) << 56u64);
        return Datagram::AnonymousPing { timestamp };
    }
    Datagram::Voice
}

fn push_be32(out: &mut Vec<u8>, v: u32)
    ensures
        final(out)@ == old(out)@ + be_bytes32(v),
{
    out.push((v >> 24u32) as u8);
    out.push((v >> 16u32) as u8);
    out.push((v >> 8u32) as u8);
    out.push(v as u8);
    assert(final(out)@ =~= old(out)@ + be_bytes32(v));
}

/// The 24-byte status block that answers an anonymous ping: protocol
/// version, the echoed timestamp, the client count, the client limit and
/// the bandwidth limit.
pub fn ping_reply(protocol_version: u32, timestamp: u64, clients: u32) -> (r: Vec<u8>)
    ensures
        r@ == ping_reply_bytes(protocol_version, timestamp, clients),
        r@.len() == ANON_PING_REPLY_LEN,
{
    let mut out: Vec<u8> = Vec::new();
    push_be32(&mut out, protocol_version);
    let ghost head = out@;
    out.push(timestamp as u8);
    out.push((timestamp >> 8u64) as u8);
    out.push((timestamp >> 16u64) as u8);
    out.push((timestamp >> 24u64) as u8);
    out.push((timestamp >> 32u64) as u8);
    out.push((timestamp >> 40u64) as u8);
    out.push((timestamp >> 48u64) as u8);
    out.push((timestamp >> 56u64) as u8);
    assert(out@ =~= head + le_bytes64(timestamp));
    push_be32(&mut out, clients);
    push_be32(&mut out, MAX_CLIENTS as u32);
    push_be32(&mut out, MAX_BANDWIDTH);
    assert(out@ =~= ping_reply_bytes(protocol_version, timestamp, clients));
    out
}

/// A failed decrypt calls for a crypt reset: a repeat never does, a late
/// packet does once more than the allowed number were late, and every
/// other failure does.
pub open spec fn calls_for_reset(err: DecryptError, late: u32) -> bool {
    match err {
        DecryptError::Repeat => false,
        DecryptError::Late => late > MAX_LATE,
        _ => true,
    }
}

/// Whether a failed decrypt calls for a crypt reset.
pub fn needs_crypt_reset(err: DecryptError, late: u32) -> (r: bool)
    ensures
        r == calls_for_reset(err, late),
{
    match err {
        DecryptError::Repeat => false,
        DecryptError::Late => late > MAX_LATE,
        _ => true,
    }
}

impl ServerState {
    /// A datagram from client `s` failed to decrypt: when the failure calls
    /// for it, the client is re-keyed and unbound from its UDP peer;
    /// otherwise the datagram is dropped and nothing changes.
    pub fn handle_decrypt_error(&mut self, s: u32, err: DecryptError, late: u32, now: u64) -> (r: Vec<Delivery>)
        requires
            old(self).wf(),
        ensures
            final(self).wf(),
            forall|x: u32| #[trigger] final(self).has_session(x) == old(self).has_session(x),
            !calls_for_reset(err, late) ==> *final(self) == *old(self) && r@.len() == 0,
            calls_for_reset(err, late) && !old(self).has_session(s) ==> *final(self) == *old(self) && r@.len() == 0,
            calls_for_reset(err, late) ==> forall|i: int| #[trigger] old(self).client_at(i, s) ==> {
                &&& final(self).clients@[i].udp_socket_addr is None
                &&& final(self).clients_without_udp@.contains(s)
                &&& forall|b: SocketBinding| #[trigger] final(self).clients_by_socket@.contains(b) ==> b.session_id != s
                &&& r@.len() == 1
                &&& r@[0].to == s
                &&& sends_crypt_setup(r@[0], final(self).clients@[i].crypt_state)
            },
            final(self).session_count == old(self).session_count,
    {
        if needs_crypt_reset(err, late) {
            self.reset_client_crypt(s, now)
        } else {
            Vec::new()
        }
    }

    /// What to do with a frame that decrypted under client `s`'s state: a
    /// ping is echoed to its sender as it is; audio, stamped with `s`, goes to
    /// `s`'s own queue to be routed.
    pub fn voice_frame_action(s: u32, packet: VoicePacket) -> (r: FrameAction)
        ensures
            packet is Ping ==> r == FrameAction::Echo(packet),
            packet is Audio ==> r is Route && r->Route_0.to == s && r->Route_0.message == ClientMessage::RouteVoicePacket(
                packet.client_bound(s),
            ),
    {
        match packet {
            VoicePacket::Ping { timestamp } => FrameAction::Echo(VoicePacket::Ping { timestamp }),
            audio => FrameAction::Route(Delivery { to: s, message: ClientMessage::RouteVoicePacket(audio.into_client_bound(s)) }),
        }
    }
}

/// What becomes of a decrypted voice-plane frame.
#[derive(Debug)]
pub enum FrameAction {
    /// Send this ping back to its sender.
    Echo(VoicePacket),
    /// Queue this envelope.
    Route(Delivery),
}

/// What the receiver does with plaintext `p` that client `s` opened, its
/// crypt state holding `key` and encrypt nonce `enc_iv`: an unreadable
/// frame is dropped; a ping is echoed, sealed with the next encrypt nonce;
/// audio, stamped with `s`, goes to `s`'s queue to be routed.
pub open spec fn frame_outcome(s: u32, key: Seq<u8>, enc_iv: Seq<u8>, p: Seq<u8>, r: DatagramOutcome) -> bool {
    if !decodes(p) {
        r is Ignore
    } else if frame_kind(p) == KIND_PING {
        r is Reply && r->Reply_0@ == sealed_datagram(key, next_nonce(enc_iv), voice_bytes(VoicePacket::Ping {
            timestamp: ping_timestamp(p),
        }))
    } else {
        &&& r is Deliver
        &&& r->Deliver_0@.len() == 1
        &&& r->Deliver_0@[0].to == s
        &&& r->Deliver_0@[0].message is RouteVoicePacket
        &&& audio_frame(p, r->Deliver_0@[0].message->RouteVoicePacket_0, s)
    }
}

/// A datagram that is neither too short nor an anonymous ping.
pub open spec fn is_voice_datagram(b: Seq<u8>) -> bool {
    b.len() > 1 && !(b.len() == ANON_PING_LEN && b[0] == 0 && b[1] == 0 && b[2] == 0 && b[3] == 0)
}

/// What the UDP receiver does with a datagram.
#[derive(Debug)]
pub enum DatagramOutcome {
    /// Drop it.
    Ignore,
    /// Send these bytes back to the datagram's sender.
    Reply(Vec<u8>),
    /// Hand these envelopes to the clients' queues.
    Deliver(Vec<Delivery>),
}

impl ServerState {
    /// Decrypts `buf` under the crypt state of the client at index `i`.
    fn decrypt_at(&mut self, i: usize, buf: &[u8], now: u64) -> (r: Result<Vec<u8>, DecryptError>)
        requires
            old(self).wf(),
            i < old(self).clients@.len(),
        ensures
            final(self).wf(),
            final(self).clients@.len() == old(self).clients@.len(),
            final(self).clients@ == old(self).clients@.update(
                i as int,
                Client { crypt_state: final(self).clients@[i as int].crypt_state, ..old(self).clients@[i as int] },
            ),
            *final(self) == (ServerState { clients: final(self).clients, ..*old(self) }),
            forall|x: u32| #[trigger] final(self).has_session(x) == old(self).has_session(x),
            forall|k: int, x: u32| #[trigger] final(self).client_at(k, x) == old(self).client_at(k, x),
            r is Ok <==> opens(old(self).clients@[i as int].crypt_state, buf@),
            r is Ok ==> r->Ok_0@ == opened(old(self).clients@[i as int].crypt_state, buf@)
                && final(self).clients@[i as int].crypt_state.raw_key == old(self).clients@[i as int].crypt_state.raw_key
                && final(self).clients@[i as int].crypt_state.encrypt_iv == old(self).clients@[i as int].crypt_state.encrypt_iv
                && final(self).clients@[i as int].crypt_state.good == sat_add(old(self).clients@[i as int].crypt_state.good, 1),
            r is Err ==> r->Err_0 == decrypt_error(old(self).clients@[i as int].crypt_state, buf@)
                && final(self).clients@[i as int].crypt_state == after_refusal(old(self).clients@[i as int].crypt_state, buf@),
    {
        let ghost pre = *self;
        let r = self.clients[i].crypt_state.decrypt(buf, now);
        proof {
            assert(self.clients@ =~= pre.clients@.update(i as int, self.clients@[i as int]));
            lemma_client_swap_keeps_wf(pre, *self, i as int);
            assert forall|k: int, x: u32| #[trigger] self.client_at(k, x) == pre.client_at(k, x) by {}
            assert forall|x: u32| #[trigger] self.has_session(x) == pre.has_session(x) by {
                if pre.has_session(x) {
                    let k = choose|k: int| pre.client_at(k, x);
                    assert(self.client_at(k, x));
                }
                if self.has_session(x) {
                    let k = choose|k: int| self.client_at(k, x);
                    assert(pre.client_at(k, x));
                }
            }
        }
        r
    }

    /// Tries `buf` against the crypt state of client `s`; on success binds
    /// `s` to `addr`.
    fn try_probe(&mut self, s: u32, buf: &[u8], addr: Endpoint, now: u64) -> (r: Option<Vec<u8>>)
        requires
            old(self).wf(),
            !old(self).peer_bound(addr),
        ensures
            final(self).wf(),
            forall|x: u32| #[trigger] final(self).has_session(x) == old(self).has_session(x),
            !old(self).has_session(s) ==> r is None && *final(self) == *old(self),
            forall|i: int| #[trigger] old(self).client_at(i, s) ==> (r is Some <==> opens(old(self).clients@[i].crypt_state, buf@))
                && (r is Some ==> r->0@ == opened(old(self).clients@[i].crypt_state, buf@)
                    && final(self).clients@[i].crypt_state.raw_key == old(self).clients@[i].crypt_state.raw_key
                    && final(self).clients@[i].crypt_state.encrypt_iv == old(self).clients@[i].crypt_state.encrypt_iv),
            final(self).clients@.len() == old(self).clients@.len(),
            forall|j: int| 0 <= j < old(self).clients@.len() && old(self).clients@[j].session_id != s
                ==> #[trigger] final(self).clients@[j] == old(self).clients@[j],
            forall|j: int| 0 <= j < old(self).clients@.len() ==> (#[trigger] final(self).clients@[j]).session_id
                == old(self).clients@[j].session_id,
            r is Some ==> final(self).session_at_peer(addr, s) && !final(self).clients_without_udp@.contains(s)
                && (forall|x: u32| x != s ==> (#[trigger] final(self).clients_without_udp@.contains(x)
                    == old(self).clients_without_udp@.contains(x)))
                && (forall|b: SocketBinding| #[trigger] final(self).clients_by_socket@.contains(b) <==> (
                    (old(self).clients_by_socket@.contains(b) && b.session_id != s) || b == SocketBinding { addr, session_id: s })),
            r is None ==> final(self).clients_without_udp == old(self).clients_without_udp
                && final(self).clients_by_socket == old(self).clients_by_socket
                && (forall|j: int| 0 <= j < old(self).clients@.len() ==> (#[trigger] final(self).clients@[j]).udp_socket_addr
                    == old(self).clients@[j].udp_socket_addr),
    {
        proof {
            crate::state::lemma_unique_indices(*self);
        }
        let i = match self.find_client(s) {
            None => {
                return None;
            },
            Some(i) => i,
        };
        let ghost pre = *self;
        match self.decrypt_at(i, buf, now) {
            Ok(plain) => {
                let ghost before = *self;
                assert(!before.peer_bound(addr)) by {
                    if before.peer_bound(addr) {
                        let x = choose|x: u32| before.session_at_peer(addr, x);
                        assert(pre.session_at_peer(addr, x));
                    }
                }
                assert(before.has_session(s)) by {
                    assert(before.client_at(i as int, s));
                }
                let bound = self.set_client_socket(s, addr);
                proof {
                    crate::state::lemma_unique_indices(before);
                    let i2 = choose|i2: int| #[trigger] before.client_at(i2, s) && self.clients@ == before.clients@.update(
                        i2,
                        Client { udp_socket_addr: Some(addr), ..before.clients@[i2] },
                    );
                    assert(i2 == i as int);
                    assert forall|x: u32| #[trigger] self.has_session(x) == before.has_session(x) by {
                        if before.has_session(x) {
                            let k2 = choose|k2: int| before.client_at(k2, x);
                            assert(self.client_at(k2, x));
                        }
                        if self.has_session(x) {
                            let k2 = choose|k2: int| self.client_at(k2, x);
                            assert(before.client_at(k2, x));
                        }
                    }
                }
                Some(plain)
            },
            Err(_) => {
                proof {
                    if self.peer_bound(addr) {
                        let x = choose|x: u32| self.session_at_peer(addr, x);
                        assert(pre.session_at_peer(addr, x));
                    }
                }
                None
            },
        }
    }

    /// Some probe before position `n` of `probes` is a client whose crypt
    /// state accepts `buf`.
    pub open spec fn probe_opens(&self, probes: Seq<u32>, n: int, buf: Seq<u8>) -> bool {
        exists|m: int, j: int| 0 <= m < n && #[trigger] self.client_at(j, probes[m]) && opens(self.clients@[j].crypt_state, buf)
    }

    /// Tries `buf` against the crypt state of every client in the probe
    /// set, in order. The first whose state accepts it is bound to `addr`
    /// and returned with the plaintext; when none does, the probe set, the
    /// by-endpoint map and every client's peer are left as they were.
    pub fn find_client_with_decrypt(&mut self, buf: &[u8], addr: Endpoint, now: u64) -> (r: Option<(u32, Vec<u8>)>)
        requires
            old(self).wf(),
            !old(self).peer_bound(addr),
        ensures
            final(self).wf(),
            forall|x: u32| #[trigger] final(self).has_session(x) == old(self).has_session(x),
            old(self).probe_opens(old(self).clients_without_udp@, old(self).clients_without_udp@.len() as int, buf@) ==> r is Some,
            r is Some ==> {
                let s = r->0 .0;
                &&& exists|n: int| 0 <= n < old(self).clients_without_udp@.len()
                    && old(self).clients_without_udp@[n] == s
                    && !old(self).probe_opens(old(self).clients_without_udp@, n, buf@)
                &&& forall|i: int| #[trigger] old(self).client_at(i, s) ==> opens(old(self).clients@[i].crypt_state, buf@)
                    && r->0 .1@ == opened(old(self).clients@[i].crypt_state, buf@)
                    && final(self).client_at(i, s)
                    && final(self).clients@[i].crypt_state.raw_key == old(self).clients@[i].crypt_state.raw_key
                    && final(self).clients@[i].crypt_state.encrypt_iv == old(self).clients@[i].crypt_state.encrypt_iv
                &&& final(self).session_at_peer(addr, s)
                &&& !final(self).clients_without_udp@.contains(s)
                &&& forall|x: u32| x != s ==> (#[trigger] final(self).clients_without_udp@.contains(x)
                    == old(self).clients_without_udp@.contains(x))
                &&& forall|b: SocketBinding| #[trigger] final(self).clients_by_socket@.contains(b) <==> (
                    (old(self).clients_by_socket@.contains(b) && b.session_id != s) || b == SocketBinding { addr, session_id: s })
            },
            r is None ==> final(self).clients_without_udp == old(self).clients_without_udp
                && final(self).clients_by_socket == old(self).clients_by_socket
                && final(self).clients@.len() == old(self).clients@.len()
                && (forall|j: int| 0 <= j < old(self).clients@.len() ==> (#[trigger] final(self).clients@[j]).udp_socket_addr
                    == old(self).clients@[j].udp_socket_addr),
    {
        let probes = copy_ids(&self.clients_without_udp);
        let ghost pre = *self;
        proof {
            crate::state::lemma_unique_indices(pre);
        }
        let mut k: usize = 0;
        while k < probes.len()
            invariant
                self.wf(),
                pre == *old(self),
                pre.wf(),
                probes@ == pre.clients_without_udp@,
                probes@.no_duplicates(),
                !self.peer_bound(addr),
                forall|x: u32| #[trigger] self.has_session(x) == pre.has_session(x),
                self.clients_without_udp == pre.clients_without_udp,
                self.clients_by_socket == pre.clients_by_socket,
                self.clients@.len() == pre.clients@.len(),
                forall|j: int| 0 <= j < pre.clients@.len() ==> (#[trigger] self.clients@[j]).session_id
                    == pre.clients@[j].session_id && self.clients@[j].udp_socket_addr == pre.clients@[j].udp_socket_addr,
                forall|j: int| 0 <= j < pre.clients@.len() && !probes@.subrange(0, k as int).contains(pre.clients@[j].session_id)
                    ==> #[trigger] self.clients@[j] == pre.clients@[j],
                !pre.probe_opens(probes@, k as int, buf@),
                forall|i1: int, i2: int, x: u32| pre.client_at(i1, x) && pre.client_at(i2, x) ==> i1 == i2,
            decreases probes@.len() - k,
        {
            let s = probes[k];
            let ghost before = *self;
            proof {
                crate::fanout::lemma_prefix_step(probes@, k as int);
                assert(!probes@.subrange(0, k as int).contains(s)) by {
                    if probes@.subrange(0, k as int).contains(s) {
                        let q = choose|q: int| 0 <= q < k && probes@.subrange(0, k as int)[q] == s;
                        assert(probes@[q] == probes@[k as int]);
                    }
                }
                assert forall|i: int| #[trigger] before.client_at(i, s) implies pre.client_at(i, s)
                    && before.clients@[i] == pre.clients@[i] by {}
            }
            match self.try_probe(s, buf, addr, now) {
                Some(plain) => {
                    proof {
                        assert(probes@[k as int] == s);
                        assert forall|i: int| #[trigger] pre.client_at(i, s) implies opens(pre.clients@[i].crypt_state, buf@)
                            && plain@ == opened(pre.clients@[i].crypt_state, buf@)
                            && self.client_at(i, s)
                            && self.clients@[i].crypt_state.raw_key == pre.clients@[i].crypt_state.raw_key
                            && self.clients@[i].crypt_state.encrypt_iv == pre.clients@[i].crypt_state.encrypt_iv by {
                            assert(before.client_at(i, s));
                        }
                    }
                    return Some((s, plain));
                },
                None => {
                    proof {
                        if self.peer_bound(addr) {
                            let x = choose|x: u32| self.session_at_peer(addr, x);
                            assert(before.session_at_peer(addr, x));
                        }
                        assert(!pre.probe_opens(probes@, k + 1, buf@)) by {
                            if pre.probe_opens(probes@, k + 1, buf@) {
                                let (m, j) = choose|m: int, j: int| 0 <= m < k + 1 && #[trigger] pre.client_at(j, probes@[m])
                                    && opens(pre.clients@[j].crypt_state, buf@);
                                if m < k {
                                    assert(pre.probe_opens(probes@, k as int, buf@));
                                } else {
                                    assert(before.client_at(j, s));
                                }
                            }
                        }
                        assert forall|j: int| 0 <= j < pre.clients@.len() && !probes@.subrange(0, k + 1).contains(pre.clients@[j].session_id)
                            implies #[trigger] self.clients@[j] == pre.clients@[j] by {
                            assert(before.clients@[j].session_id != s);
                        }
                    }
                },
            }
            k = k + 1;
        }
        None
    }

    /// Encrypts `plain` under the crypt state of the client at index `i`.
    fn encrypt_at(&mut self, i: usize, plain: &[u8]) -> (r: Vec<u8>)
        requires
            old(self).wf(),
            i < old(self).clients@.len(),
        ensures
            final(self).wf(),
            r@ == sealed_datagram(
                old(self).clients@[i as int].crypt_state.raw_key@,
                next_nonce(old(self).clients@[i as int].crypt_state.encrypt_iv@),
                plain@,
            ),
            final(self).clients@ == old(self).clients@.update(i as int, Client {
                crypt_state: CryptState {
                    encrypt_iv: final(self).clients@[i as int].crypt_state.encrypt_iv,
                    ..old(self).clients@[i as int].crypt_state
                },
                ..old(self).clients@[i as int]
            }),
            final(self).clients@[i as int].crypt_state.encrypt_iv@ == next_nonce(old(self).clients@[i as int].crypt_state.encrypt_iv@),
            *final(self) == (ServerState { clients: final(self).clients, ..*old(self) }),
            forall|x: u32| #[trigger] final(self).has_session(x) == old(self).has_session(x),
    {
        let ghost pre = *self;
        let r = self.clients[i].crypt_state.encrypt(plain);
        proof {
            assert(self.clients@ =~= pre.clients@.update(i as int, self.clients@[i as int]));
            lemma_client_swap_keeps_wf(pre, *self, i as int);
            assert forall|x: u32| #[trigger] self.has_session(x) == pre.has_session(x) by {
                if pre.has_session(x) {
                    let k = choose|k: int| pre.client_at(k, x);
                    assert(self.client_at(k, x));
                }
                if self.has_session(x) {
                    let k = choose|k: int| self.client_at(k, x);
                    assert(pre.client_at(k, x));
                }
            }
        }
        r
    }

    /// Handles one datagram from `addr` on the shared socket: answers an
    /// anonymous ping with the status block; otherwise finds the sender by
    /// its bound peer (or by trial decryption over the probe set), decrypts,
    /// and echoes a voice ping or queues audio for routing. A failed
    /// decrypt from a bound peer may reset the sender's crypt state.
    pub fn handle_datagram(&mut self, buf: &[u8], addr: Endpoint, protocol_version: u32, now: u64) -> (r: DatagramOutcome)
        requires
            old(self).wf(),
        ensures
            final(self).wf(),
            forall|x: u32| #[trigger] final(self).has_session(x) == old(self).has_session(x),
            buf@.len() <= 1 ==> r is Ignore && *final(self) == *old(self),
            buf@.len() == ANON_PING_LEN && buf@[0] == 0 && buf@[1] == 0 && buf@[2] == 0 && buf@[3] == 0 ==> *final(self)
                == *old(self) && r is Reply && r->Reply_0@ == ping_reply_bytes(
                protocol_version,
                le_u64_at(buf@, 4),
                old(self).clients@.len() as u32,
            ),
            is_voice_datagram(buf@) ==> forall|s: u32, i: int| old(self).session_at_peer(addr, s) && #[trigger] old(self).client_at(i, s)
                ==> {
                let cs = old(self).clients@[i].crypt_state;
                if opens(cs, buf@) {
                    &&& frame_outcome(s, cs.raw_key@, cs.encrypt_iv@, opened(cs, buf@), r)
                    &&& final(self).clients@[i].crypt_state.good == sat_add(cs.good, 1)
                    &&& final(self).clients_without_udp == old(self).clients_without_udp
                    &&& final(self).clients_by_socket == old(self).clients_by_socket
                } else {
                    let reset = calls_for_reset(decrypt_error(cs, buf@), after_refusal(cs, buf@).late);
                    &&& r is Deliver
                    &&& (r->Deliver_0@.len() > 0 <==> reset)
                    &&& reset ==> {
                        &&& r->Deliver_0@.len() == 1
                        &&& r->Deliver_0@[0].to == s
                        &&& sends_crypt_setup(r->Deliver_0@[0], final(self).clients@[i].crypt_state)
                        &&& final(self).clients@[i].udp_socket_addr is None
                        &&& final(self).clients_without_udp@.contains(s)
                        &&& forall|b: SocketBinding| #[trigger] final(self).clients_by_socket@.contains(b) ==> b.session_id != s
                    }
                    &&& !reset ==> final(self).clients_without_udp == old(self).clients_without_udp
                        && final(self).clients_by_socket == old(self).clients_by_socket
                        && final(self).clients@[i].crypt_state == after_refusal(cs, buf@)
                }
            },
            is_voice_datagram(buf@) && !old(self).peer_bound(addr) && !old(self).probe_opens(
                old(self).clients_without_udp@,
                old(self).clients_without_udp@.len() as int,
                buf@,
            ) ==> r is Ignore && final(self).clients_without_udp == old(self).clients_without_udp
                && final(self).clients_by_socket == old(self).clients_by_socket
                && final(self).clients@.len() == old(self).clients@.len()
                && (forall|j: int| 0 <= j < old(self).clients@.len() ==> (#[trigger] final(self).clients@[j]).udp_socket_addr
                    == old(self).clients@[j].udp_socket_addr),
            is_voice_datagram(buf@) && !old(self).peer_bound(addr) && old(self).probe_opens(
                old(self).clients_without_udp@,
                old(self).clients_without_udp@.len() as int,
                buf@,
            ) ==> exists|n: int, i: int| #![trigger old(self).client_at(i, old(self).clients_without_udp@[n])]
                0 <= n < old(self).clients_without_udp@.len()
                && !old(self).probe_opens(old(self).clients_without_udp@, n, buf@)
                && old(self).client_at(i, old(self).clients_without_udp@[n])
                && opens(old(self).clients@[i].crypt_state, buf@)
                && frame_outcome(
                    old(self).clients_without_udp@[n],
                    old(self).clients@[i].crypt_state.raw_key@,
                    old(self).clients@[i].crypt_state.encrypt_iv@,
                    opened(old(self).clients@[i].crypt_state, buf@),
                    r,
                )
                && final(self).session_at_peer(addr, old(self).clients_without_udp@[n])
                && !final(self).clients_without_udp@.contains(old(self).clients_without_udp@[n]),
    {
        match classify_datagram(buf) {
            Datagram::Invalid => {
                return DatagramOutcome::Ignore;
            },
            Datagram::AnonymousPing { timestamp } => {
                return DatagramOutcome::Reply(ping_reply(protocol_version, timestamp, self.clients.len() as u32));
            },
            Datagram::Voice => {},
        }
        let ghost pre = *self;
        proof {
            crate::state::lemma_unique_indices(pre);
        }
        match self.get_client_by_socket(addr) {
            Some(s) => {
                let i = match self.find_client(s) {
                    None => {
                        proof {
                            let q = choose|q: int| 0 <= q < pre.clients_by_socket@.len()
                                && pre.clients_by_socket@[q] == SocketBinding { addr, session_id: s };
                            let k = choose|k: int| pre.client_at(k, (#[trigger] pre.clients_by_socket@[q]).session_id)
                                && pre.clients@[k].udp_socket_addr == Some(pre.clients_by_socket@[q].addr);
                            assert(pre.client_at(k, s));
                        }
                        return DatagramOutcome::Ignore;
                    },
                    Some(i) => i,
                };
                proof {
                    assert forall|s2: u32| pre.session_at_peer(addr, s2) implies s2 == s by {
                        let q = choose|q: int| 0 <= q < pre.clients_by_socket@.len()
                            && pre.clients_by_socket@[q] == SocketBinding { addr, session_id: s };
                        let q2 = choose|q2: int| 0 <= q2 < pre.clients_by_socket@.len()
                            && pre.clients_by_socket@[q2] == SocketBinding { addr, session_id: s2 };
                        if q < q2 {
                            assert(pre.clients_by_socket@[q].addr != pre.clients_by_socket@[q2].addr);
                        } else if q2 < q {
                            assert(pre.clients_by_socket@[q2].addr != pre.clients_by_socket@[q].addr);
                        }
                    }
                }
                match self.decrypt_at(i, buf, now) {
                    Ok(p) => {
                        let ghost mid = *self;
                        assert(mid.client_at(i as int, s));
                        let r = self.finish_frame(i, s, &p);
                        r
                    },
                    Err(e) => {
                        let late = self.clients[i].crypt_state.late;
                        let ghost mid = *self;
                        assert(mid.client_at(i as int, s));
                        let ds = self.handle_decrypt_error(s, e, late, now);
                        DatagramOutcome::Deliver(ds)
                    },
                }
            },
            None => match self.find_client_with_decrypt(buf, addr, now) {
                None => DatagramOutcome::Ignore,
                Some((s, plain)) => {
                    let ghost mid = *self;
                    let i = match self.find_client(s) {
                        None => {
                            proof {
                                let n = choose|n: int| 0 <= n < pre.clients_without_udp@.len()
                                    && pre.clients_without_udp@[n] == s
                                    && !pre.probe_opens(pre.clients_without_udp@, n, buf@);
                                assert(pre.clients_without_udp@.contains(s));
                                let k = choose|k: int| pre.client_at(k, s) && (#[trigger] pre.clients@[k]).udp_socket_addr is None;
                                assert(mid.client_at(k, s));
                            }
                            return DatagramOutcome::Ignore;
                        },
                        Some(i) => i,
                    };
                    proof {
                        crate::state::lemma_unique_indices(mid);
                        let n = choose|n: int| 0 <= n < pre.clients_without_udp@.len()
                            && pre.clients_without_udp@[n] == s
                            && !pre.probe_opens(pre.clients_without_udp@, n, buf@);
                        assert(pre.clients_without_udp@.contains(s));
                        let k = choose|k: int| pre.client_at(k, s) && (#[trigger] pre.clients@[k]).udp_socket_addr is None;
                        assert(mid.client_at(k, s));
                        assert(k == i as int);
                    }
                    let r = self.finish_frame(i, s, &plain);
                    proof {
                        let n = choose|n: int| 0 <= n < pre.clients_without_udp@.len()
                            && pre.clients_without_udp@[n] == s
                            && !pre.probe_opens(pre.clients_without_udp@, n, buf@);
                        assert(pre.client_at(i as int, s));
                        if self.peer_bound(addr) {}
                        assert(self.session_at_peer(addr, s));
                    }
                    r
                },
            },
        }
    }

    /// Finishes a datagram that client `s`, at index `i`, opened to `plain`.
    fn finish_frame(&mut self, i: usize, s: u32, plain: &Vec<u8>) -> (r: DatagramOutcome)
        requires
            old(self).wf(),
            old(self).client_at(i as int, s),
        ensures
            final(self).wf(),
            forall|x: u32| #[trigger] final(self).has_session(x) == old(self).has_session(x),
            frame_outcome(
                s,
                old(self).clients@[i as int].crypt_state.raw_key@,
                old(self).clients@[i as int].crypt_state.encrypt_iv@,
                plain@,
                r,
            ),
            *final(self) == (ServerState { clients: final(self).clients, ..*old(self) }),
            final(self).clients@.len() == old(self).clients@.len(),
            final(self).clients@[i as int] == (Client {
                crypt_state: CryptState {
                    encrypt_iv: final(self).clients@[i as int].crypt_state.encrypt_iv,
                    ..old(self).clients@[i as int].crypt_state
                },
                ..old(self).clients@[i as int]
            }),
            forall|j: int| 0 <= j < old(self).clients@.len() && j != i ==> #[trigger] final(self).clients@[j] == old(self).clients@[j],
    {
        let packet = match decode_voice(plain.as_slice()) {
            None => {
                return DatagramOutcome::Ignore;
            },
            Some(p) => p,
        };
        match ServerState::voice_frame_action(s, packet) {
            FrameAction::Echo(ping) => {
                let bytes = encode_voice(&ping);
                DatagramOutcome::Reply(self.encrypt_at(i, &bytes))
            },
            FrameAction::Route(d) => {
                let mut out: Vec<Delivery> = Vec::new();
                out.push(d);
                DatagramOutcome::Deliver(out)
            },
        }
    }
}

impl ServerState {
    /// The datagram that carries `packet` to client `s` over UDP, sealed
    /// under its crypt state, with the peer to send it to; `None` when the
    /// client has no bound peer (the frame then goes through the control
    /// channel) or is unknown.
    pub fn seal_voice_for(&mut self, s: u32, packet: &VoicePacket) -> (r: Option<(Endpoint, Vec<u8>)>)
        requires
            old(self).wf(),
        ensures
            final(self).wf(),
            forall|x: u32| #[trigger] final(self).has_session(x) == old(self).has_session(x),
            !old(self).has_session(s) ==> r is None,
            *final(self) == (ServerState { clients: final(self).clients, ..*old(self) }),
            r is None ==> *final(self) == *old(self),
            forall|i: int| #[trigger] old(self).client_at(i, s) && r is Some ==> final(self).clients@ == old(self).clients@.update(
                i,
                Client {
                    crypt_state: CryptState {
                        encrypt_iv: final(self).clients@[i].crypt_state.encrypt_iv,
                        ..old(self).clients@[i].crypt_state
                    },
                    ..old(self).clients@[i]
                },
            ) && final(self).clients@[i].crypt_state.encrypt_iv@ == next_nonce(old(self).clients@[i].crypt_state.encrypt_iv@),
            forall|i: int| #[trigger] old(self).client_at(i, s) ==> (r is Some <==> old(self).clients@[i].udp_socket_addr is Some)
                && (r is Some ==> Some(r->0 .0) == old(self).clients@[i].udp_socket_addr && r->0 .1@ == sealed_datagram(
                old(self).clients@[i].crypt_state.raw_key@,
                next_nonce(old(self).clients@[i].crypt_state.encrypt_iv@),
                voice_bytes(*packet),
            )),
    {
        proof {
            crate::state::lemma_unique_indices(*self);
        }
        let i = match self.find_client(s) {
            None => {
                return None;
            },
            Some(i) => i,
        };
        match self.clients[i].udp_socket_addr {
            None => None,
            Some(addr) => {
                let bytes = encode_voice(packet);
                let sealed = self.encrypt_at(i, &bytes);
                Some((addr, sealed))
            },
        }
    }
}

} // verus!
