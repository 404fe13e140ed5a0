use crate::codec::CodecVersion;
use crate::crypt::{CryptSetup, CryptState};
use crate::voice::VoicePacket;
use std::sync::Arc;
use vstd::prelude::*;

verus! {

/// Announces a channel, or asks for one to be created.
#[derive(Debug)]
pub struct ChannelState {
    pub channel_id: Option<u32>,
    pub parent: Option<u32>,
    pub name: Option<String>,
    pub description: Option<String>,
    pub temporary: Option<bool>,
    pub position: Option<i32>,
}

/// Announces a client's state, or asks for the sender's own state to change.
#[derive(Debug)]
pub struct UserState {
    pub session: Option<u32>,
    pub user_id: Option<u32>,
    pub name: Option<String>,
    pub channel_id: Option<u32>,
    pub mute: Option<bool>,
    pub deaf: Option<bool>,
    pub listening_channel_add: Vec<u32>,
    pub listening_channel_remove: Vec<u32>,
}

/// Tells clients that a session has left.
#[derive(Debug)]
pub struct UserRemove {
    pub session: u32,
    pub reason: String,
}

/// Tells clients that a channel is gone.
#[derive(Debug, Clone, Copy, PartialEq, Eq, Structural)]
pub struct ChannelRemove {
    pub channel_id: u32,
}

/// One entry of a voice-target request: sessions, and at most one channel.
#[derive(Debug)]
pub struct TargetItem {
    pub session: Vec<u32>,
    pub channel_id: Option<u32>,
}

/// A client's request to rewrite one of its whisper slots.
#[derive(Debug)]
pub struct VoiceTargetRequest {
    pub id: u32,
    pub targets: Vec<TargetItem>,
}

/// Control-plane ping: the echoed timestamp and the sender's crypt counters.
#[derive(Debug, Clone, Copy, PartialEq, Eq, Structural)]
pub struct Ping {
    pub timestamp: u64,
    pub good: u32,
    pub late: u32,
    pub lost: u32,
    pub resync: u32,
}

/// Completes the handshake: the client's session and the server's limits.
#[derive(Debug)]
pub struct ServerSync {
    pub session: u32,
    pub max_bandwidth: u32,
    pub welcome_text: String,
}

/// Server-wide limits on text messages.
#[derive(Debug, Clone, Copy, PartialEq, Eq, Structural)]
pub struct ServerConfig {
    pub allow_html: bool,
    pub message_length: u32,
    pub image_message_length: u32,
}

/// A control message for one client's TLS stream.
#[derive(Debug)]
pub enum ControlMessage {
    ChannelState(ChannelState),
    ChannelRemove(ChannelRemove),
    UserState(UserState),
    UserRemove(UserRemove),
    CodecVersion(CodecVersion),
    Ping(Ping),
    ServerSync(ServerSync),
    ServerConfig(ServerConfig),
    /// The key and nonces of the recipient's crypt state.
    CryptSetup(CryptSetup),
}

/// An envelope on a client's outbound queue.
#[derive(Debug)]
pub enum ClientMessage {
    /// A frame that arrived on the control channel, to be routed.
    RouteVoicePacket(VoicePacket),
    /// A frame to deliver to this client, shared among all its recipients.
    SendVoicePacket(Arc<VoicePacket>),
    /// A control message to write on this client's stream.
    SendMessage(Arc<ControlMessage>),
    /// Close this client's queue.
    Disconnect,
}

/// `d` carries the control message `m`.
pub open spec fn sends_control(d: Delivery, m: ControlMessage) -> bool {
    d.message is SendMessage && *(d.message->SendMessage_0) == m
}

/// `d` carries the key and nonces of crypt state `c`.
pub open spec fn sends_crypt_setup(d: Delivery, c: CryptState) -> bool {
    &&& d.message is SendMessage
    &&& *(d.message->SendMessage_0) is CryptSetup
    &&& {
        let cs = (*(d.message->SendMessage_0))->CryptSetup_0;
        cs.key@ == c.raw_key@ && cs.client_nonce@ == c.decrypt_iv@ && cs.server_nonce@ == c.encrypt_iv@
    }
}

/// `d` carries crypt parameters.
pub open spec fn is_crypt_setup(d: Delivery) -> bool {
    d.message is SendMessage && *(d.message->SendMessage_0) is CryptSetup
}

/// One envelope for the outbound queue of the client with session `to`.
#[derive(Debug)]
pub struct Delivery {
    pub to: u32,
    pub message: ClientMessage,
}

} // verus!
