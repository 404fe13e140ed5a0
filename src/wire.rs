use vstd::prelude::*;

verus! {

/// Length of a control-frame header: a 16-bit kind and a 32-bit length.
pub const HEADER_LEN: usize = 6;

/// Kinds of control message, by their code on the wire.
#[derive(Debug, Clone, Copy, PartialEq, Eq, Structural)]
pub enum MessageKind {
    Version,
    UDPTunnel,
    Authenticate,
    Ping,
    Reject,
    ServerSync,
    ChannelRemove,
    ChannelState,
    UserRemove,
    UserState,
    BanList,
    TextMessage,
    PermissionDenied,
    ACL,
    QueryUsers,
    CryptSetup,
    ContextActionModify,
    ContextAction,
    UserList,
    VoiceTarget,
    PermissionQuery,
    CodecVersion,
    UserStats,
    RequestBlob,
    ServerConfig,
    SuggestConfig,
}

/// The wire code of each kind.
pub open spec fn kind_code(k: MessageKind) -> u16 {
    match k {
        MessageKind::Version => 0,
        MessageKind::UDPTunnel => 1,
        MessageKind::Authenticate => 2,
        MessageKind::Ping => 3,
        MessageKind::Reject => 4,
        MessageKind::ServerSync => 5,
        MessageKind::ChannelRemove => 6,
        MessageKind::ChannelState => 7,
        MessageKind::UserRemove => 8,
        MessageKind::UserState => 9,
        MessageKind::BanList => 10,
        MessageKind::TextMessage => 11,
        MessageKind::PermissionDenied => 12,
        MessageKind::ACL => 13,
        MessageKind::QueryUsers => 14,
        MessageKind::CryptSetup => 15,
        MessageKind::ContextActionModify => 16,
        MessageKind::ContextAction => 17,
        MessageKind::UserList => 18,
        MessageKind::VoiceTarget => 19,
        MessageKind::PermissionQuery => 20,
        MessageKind::CodecVersion => 21,
        MessageKind::UserStats => 22,
        MessageKind::RequestBlob => 23,
        MessageKind::ServerConfig => 24,
        MessageKind::SuggestConfig => 25,
    }
}

impl MessageKind {
    pub fn code(self) -> (r: u16)
        ensures
            r == kind_code(self),
    {
        match self {
            MessageKind::Version => 0,
            MessageKind::UDPTunnel => 1,
            MessageKind::Authenticate => 2,
            MessageKind::Ping => 3,
            MessageKind::Reject => 4,
            MessageKind::ServerSync => 5,
            MessageKind::ChannelRemove => 6,
            MessageKind::ChannelState => 7,
            MessageKind::UserRemove => 8,
            MessageKind::UserState => 9,
            MessageKind::BanList => 10,
            MessageKind::TextMessage => 11,
            MessageKind::PermissionDenied => 12,
            MessageKind::ACL => 13,
            MessageKind::QueryUsers => 14,
            MessageKind::CryptSetup => 15,
            MessageKind::ContextActionModify => 16,
            MessageKind::ContextAction => 17,
            MessageKind::UserList => 18,
            MessageKind::VoiceTarget => 19,
            MessageKind::PermissionQuery => 20,
            MessageKind::CodecVersion => 21,
            MessageKind::UserStats => 22,
            MessageKind::RequestBlob => 23,
            MessageKind::ServerConfig => 24,
            MessageKind::SuggestConfig => 25,
        }
    }

    /// The kind with wire code `c`; codes past the last kind have none.
    pub fn from_code(c: u16) -> (r: Option<MessageKind>)
        ensures
            r is Some <==> c <= 25,
            r is Some ==> kind_code(r->0) == c,
    {
        match c {
            0 => Some(MessageKind::Version),
            1 => Some(MessageKind::UDPTunnel),
            2 => Some(MessageKind::Authenticate),
            3 => Some(MessageKind::Ping),
            4 => Some(MessageKind::Reject),
            5 => Some(MessageKind::ServerSync),
            6 => Some(MessageKind::ChannelRemove),
            7 => Some(MessageKind::ChannelState),
            8 => Some(MessageKind::UserRemove),
            9 => Some(MessageKind::UserState),
            10 => Some(MessageKind::BanList),
            11 => Some(MessageKind::TextMessage),
            12 => Some(MessageKind::PermissionDenied),
            13 => Some(MessageKind::ACL),
            14 => Some(MessageKind::QueryUsers),
            15 => Some(MessageKind::CryptSetup),
            16 => Some(MessageKind::ContextActionModify),
            17 => Some(MessageKind::ContextAction),
            18 => Some(MessageKind::UserList),
            19 => Some(MessageKind::VoiceTarget),
            20 => Some(MessageKind::PermissionQuery),
            21 => Some(MessageKind::CodecVersion),
            22 => Some(MessageKind::UserStats),
            23 => Some(MessageKind::RequestBlob),
            24 => Some(MessageKind::ServerConfig),
            25 => Some(MessageKind::SuggestConfig),
            _ => None,
        }
    }
}

/// Header bytes of a frame: the kind, then the payload length, both big-endian.
pub open spec fn header_bytes(kind: u16, len: u32) -> Seq<u8> {
    seq![(kind >> 8u16) as u8, kind as u8, (len >> 24u32) as u8, (len >> 16u32) as u8, (len >> 8u32) as u8, len as u8]
}

/// The kind code read from a header.
pub open spec fn header_kind(b: Seq<u8>) -> u16 {
    ((b[0] as u16) << 8u16) | (b[1] as u16)
}

/// The payload length read from a header.
pub open spec fn header_len(b: Seq<u8>) -> u32 {
    ((b[2] as u32) << 24u32) | ((b[3] as u32) << 16u32) | ((b[4] as u32) << 8u32) | (b[5] as u32)
}

/// The header of a frame of `kind` whose payload is `len` bytes long.
pub fn encode_header(kind: u16, len: u32) -> (r: Vec<u8>)
    ensures
        r@ == header_bytes(kind, len),
{
    let mut out: Vec<u8> = Vec::new();
    out.push((kind >> 8u16) as u8);
    out.push(kind as u8);
    out.push((len >> 24u32) as u8);
    out.push((len >> 16u32) as u8);
    out.push((len >> 8u32) as u8);
    out.push(len as u8);
    assert(out@ =~= header_bytes(kind, len));
    out
}

/// Reads the kind code and payload length at the start of `buf`; `None`
/// when fewer than six bytes are there.
pub fn parse_header(buf: &[u8]) -> (r: Option<(u16, u32)>)
    ensures
        buf@.len() < HEADER_LEN ==> r is None,
        buf@.len() >= HEADER_LEN ==> r == Some((header_kind(buf@), header_len(buf@))),
{
    if buf.len() < HEADER_LEN {
        return None;
    }
    let kind = ((buf[0] as u16) << 8u16) | (buf[1] as u16);
    let len = ((buf[2] as u32) << 24u32) | ((buf[3] as u32) << 16u32) | ((buf[4] as u32) << 8u32) | (buf[5] as u32);
    Some((kind, len))
}

/// Reading back an encoded header gives its kind and length.
pub proof fn lemma_header_round_trip(kind: u16, len: u32)
    ensures
        header_kind(header_bytes(kind, len)) == kind,
        header_len(header_bytes(kind, len)) == len,
{
    let b = header_bytes(kind, len);
    assert(b[0] == (kind >> 8u16) as u8 && b[1] == kind as u8);
    assert(b[2] == (len >> 24u32) as u8 && b[3] == (len >> 16u32) as u8 && b[4] == (len >> 8u32) as u8 && b[5] == len as u8);
    assert((((((kind >> 8u16) as u8) as u16) << 8u16) | ((kind as u8) as u16)) == kind) by (bit_vector);
    assert((((((len >> 24u32) as u8) as u32) << 24u32) | ((((len >> 16u32) as u8) as u32) << 16u32) | ((((len >> 8u32) as u8)
        as u32) << 8u32) | ((len as u8) as u32)) == len) by (bit_vector);
}

} // verus!
