use vstd::prelude::*;

verus! {

/// Target value of a frame spoken to the sender's current channel.
pub const TARGET_CHANNEL: u8 = 0;

/// Target value of a frame that is sent back to its sender only.
pub const TARGET_LOOPBACK: u8 = 31;

/// A decrypted voice-plane frame.
///
/// A frame read from a client carries no session (it is zero); the server
/// stamps the sender's session on it before routing it to others.
#[derive(Debug)]
pub enum VoicePacket {
    /// A voice-plane ping, echoed back to its sender.
    Ping { timestamp: u64 },
    /// An audio frame for the given target (0 to 31).
    Audio { kind: u8, target: u8, session_id: u32, seq_num: u64, payload: Vec<u8> },
}

impl VoicePacket {
    pub open spec fn is_audio(&self) -> bool {
        self is Audio
    }

    /// The same frame with the sender's session stamped on it.
    pub open spec fn client_bound(self, session_id: u32) -> VoicePacket {
        match self {
            VoicePacket::Ping { timestamp } => VoicePacket::Ping { timestamp },
            VoicePacket::Audio { kind, target, session_id: _, seq_num, payload } => {
                VoicePacket::Audio { kind, target, session_id, seq_num, payload }
            },
        }
    }

    pub fn into_client_bound(self, session_id: u32) -> (r: VoicePacket)
        ensures
            r == self.client_bound(session_id),
    {
        match self {
            VoicePacket::Ping { timestamp } => VoicePacket::Ping { timestamp },
            VoicePacket::Audio { kind, target, session_id: _, seq_num, payload } => {
                VoicePacket::Audio { kind, target, session_id, seq_num, payload }
            },
        }
    }
}

/// Codec kind of a voice-plane ping.
pub const KIND_PING: u8 = 1;

/// Mumble's variable-length encoding of `v`: one to five bytes by size,
/// or a 0xF4 marker and eight bytes.
pub open spec fn varint_bytes(v: u64) -> Seq<u8> {
    if v < 0x80 {
        seq![v as u8]
    } else if v < 0x4000 {
        seq![((v >> 8u64) | 0x80) as u8, v as u8]
    } else if v < 0x20_0000 {
        seq![((v >> 16u64) | 0xC0) as u8, (v >> 8u64) as u8, v as u8]
    } else if v < 0x1000_0000 {
        seq![((v >> 24u64) | 0xE0) as u8, (v >> 16u64) as u8, (v >> 8u64) as u8, v as u8]
    } else if v < 0x1_0000_0000 {
        seq![0xF0u8, (v >> 24u64) as u8, (v >> 16u64) as u8, (v >> 8u64) as u8, v as u8]
    } else {
        seq![0xF4u8, (v >> 56u64) as u8, (v >> 48u64) as u8, (v >> 40u64) as u8, (v >> 32u64) as u8,
            (v >> 24u64) as u8, (v >> 16u64) as u8, (v >> 8u64) as u8, v as u8]
    }
}

/// Big-endian value of `n` bytes of `b` from `at` on.
pub open spec fn be_value(b: Seq<u8>, at: int, n: nat) -> u64
    decreases n,
{
    if n == 0 {
        0
    } else {
        (be_value(b, at, (n - 1) as nat) << 8u64) | (b[at + n - 1] as u64)
    }
}

/// Number of bytes of the varint whose first byte is `f`; `None` for the
/// negative forms, which this server never reads.
pub open spec fn varint_len(f: u8) -> Option<nat> {
    if f & 0x80 == 0 {
        Some(1)
    } else if f & 0xC0 == 0x80 {
        Some(2)
    } else if f & 0xE0 == 0xC0 {
        Some(3)
    } else if f & 0xF0 == 0xE0 {
        Some(4)
    } else if f & 0xFC == 0xF0 {
        Some(5)
    } else if f & 0xFC == 0xF4 {
        Some(9)
    } else {
        None
    }
}

/// The value of the varint at `at` in `b` and the index after it.
pub open spec fn varint_at(b: Seq<u8>, at: int) -> Option<(u64, int)> {
    if at < 0 || at >= b.len() {
        None
    } else {
        let f = b[at];
        match varint_len(f) {
            None => None,
            Some(n) => if at + n > b.len() {
                None
            } else {
                let v: u64 = if n == 1 {
                    (f & 0x7F) as u64
                } else if n == 2 {
                    (((f & 0x3F) as u64) << 8u64) | (b[at + 1] as u64)
                } else if n == 3 {
                    (((f & 0x1F) as u64) << 16u64) | ((b[at + 1] as u64) << 8u64) | (b[at + 2] as u64)
                } else if n == 4 {
                    (((f & 0x0F) as u64) << 24u64) | ((b[at + 1] as u64) << 16u64) | ((b[at + 2] as u64) << 8u64)
                        | (b[at + 3] as u64)
                } else {
                    be_value(b, at + 1, (n - 1) as nat)
                };
                Some((v, at + n))
            },
        }
    }
}

fn be_read(b: &[u8], at: usize, n: usize) -> (r: u64)
    requires
        at + n <= b@.len(),
    ensures
        r == be_value(b@, at as int, n as nat),
{
    let len = b.len();
    let mut r: u64 = 0;
    let mut k: usize = 0;
    while k < n
        invariant
            k <= n,
            len == b@.len(),
            at + n <= b@.len(),
            r == be_value(b@, at as int, k as nat),
        decreases n - k,
    {
        assert(at + k < b@.len());
        let byte = b[at + k];
        let next: u64 = (r << 8u64) | (byte as u64);
        r = next;
        k = k + 1;
    }
    r
}

/// Reads the varint at `at`: its value and the index after it.
pub fn read_varint(b: &[u8], at: usize) -> (r: Option<(u64, usize)>)
    ensures
        r is None <==> varint_at(b@, at as int) is None,
        r is Some ==> varint_at(b@, at as int) == Some((r->0 .0, r->0 .1 as int)),
{
    if at >= b.len() {
        return None;
    }
    let f = b[at];
    let n: usize = if f & 0x80 == 0 {
        1
    } else if f & 0xC0 == 0x80 {
        2
    } else if f & 0xE0 == 0xC0 {
        3
    } else if f & 0xF0 == 0xE0 {
        4
    } else if f & 0xFC == 0xF0 {
        5
    } else if f & 0xFC == 0xF4 {
        9
    } else {
        return None;
    };
    if n > b.len() - at {
        return None;
    }
    let v: u64 = if n == 1 {
        (f & 0x7F) as u64
    } else if n == 2 {
        (((f & 0x3F) as u64) << 8u64) | (b[at + 1] as u64)
    } else if n == 3 {
        (((f & 0x1F) as u64) << 16u64) | ((b[at + 1] as u64) << 8u64) | (b[at + 2] as u64)
    } else if n == 4 {
        (((f & 0x0F) as u64) << 24u64) | ((b[at + 1] as u64) << 16u64) | ((b[at + 2] as u64) << 8u64) | (b[at + 3] as u64)
    } else {
        be_read(b, at + 1, n - 1)
    };
    Some((v, at + n))
}

/// Appends the varint of `v`.
pub fn write_varint(out: &mut Vec<u8>, v: u64)
    ensures
        final(out)@ == old(out)@ + varint_bytes(v),
{
    if v < 0x80 {
        out.push(v as u8);
    } else if v < 0x4000 {
        out.push(((v >> 8u64) | 0x80) as u8);
        out.push(v as u8);
    } else if v < 0x20_0000 {
        out.push(((v >> 16u64) | 0xC0) as u8);
        out.push((v >> 8u64) as u8);
        out.push(v as u8);
    } else if v < 0x1000_0000 {
        out.push(((v >> 24u64) | 0xE0) as u8);
        out.push((v >> 16u64) as u8);
        out.push((v >> 8u64) as u8);
        out.push(v as u8);
    } else if v < 0x1_0000_0000 {
        out.push(0xF0u8);
        out.push((v >> 24u64) as u8);
        out.push((v >> 16u64) as u8);
        out.push((v >> 8u64) as u8);
        out.push(v as u8);
    } else {
        out.push(0xF4u8);
        out.push((v >> 56u64) as u8);
        out.push((v >> 48u64) as u8);
        out.push((v >> 40u64) as u8);
        out.push((v >> 32u64) as u8);
        out.push((v >> 24u64) as u8);
        out.push((v >> 16u64) as u8);
        out.push((v >> 8u64) as u8);
        out.push(v as u8);
    }
    assert(final(out)@ =~= old(out)@ + varint_bytes(v));
}

/// Highest codec kind of an audio frame (Opus).
pub const KIND_MAX: u8 = 4;

/// The client-bound encoding of a frame: the header byte (kind in the top
/// three bits, target in the low five), then for a ping its timestamp, for
/// audio the sender's session, the sequence number and the payload.
pub open spec fn voice_bytes(p: VoicePacket) -> Seq<u8> {
    match p {
        VoicePacket::Ping { timestamp } => seq![(KIND_PING << 5u8) as u8] + varint_bytes(timestamp),
        VoicePacket::Audio { kind, target, session_id, seq_num, payload } => seq![((kind << 5u8) | (target & 0x1F))
            as u8] + varint_bytes(session_id as u64) + varint_bytes(seq_num) + payload@,
    }
}

/// Frame kind in the header byte of `p`.
pub open spec fn frame_kind(p: Seq<u8>) -> u8 {
    (p[0] >> 5u8) as u8
}

/// `p` is a frame this server reads: a ping or an audio frame of a known
/// kind, with its first varint complete.
pub open spec fn decodes(p: Seq<u8>) -> bool {
    p.len() > 0 && frame_kind(p) <= KIND_MAX && varint_at(p, 1) is Some
}

/// `q` is the audio frame `p` carries, stamped with session `s`.
pub open spec fn audio_frame(p: Seq<u8>, q: VoicePacket, s: u32) -> bool {
    &&& p.len() > 0
    &&& frame_kind(p) != KIND_PING && frame_kind(p) <= KIND_MAX
    &&& varint_at(p, 1) is Some
    &&& q is Audio
    &&& q->Audio_kind == frame_kind(p)
    &&& q->Audio_target == p[0] & 0x1F
    &&& q->Audio_session_id == s
    &&& q->Audio_seq_num == varint_at(p, 1)->0 .0
    &&& q->Audio_payload@ == p.subrange(varint_at(p, 1)->0 .1, p.len() as int)
}

/// The timestamp a ping frame `p` carries.
pub open spec fn ping_timestamp(p: Seq<u8>) -> u64 {
    varint_at(p, 1)->0 .0
}

/// Encodes a frame for a client.
pub fn encode_voice(p: &VoicePacket) -> (r: Vec<u8>)
    ensures
        r@ == voice_bytes(*p),
{
    let mut out: Vec<u8> = Vec::new();
    match p {
        VoicePacket::Ping { timestamp } => {
            out.push(KIND_PING << 5u8);
            write_varint(&mut out, *timestamp);
        },
        VoicePacket::Audio { kind, target, session_id, seq_num, payload } => {
            out.push((*kind << 5u8) | (*target & 0x1F));
            write_varint(&mut out, *session_id as u64);
            write_varint(&mut out, *seq_num);
            let ghost before = out@;
            let mut k: usize = 0;
            while k < payload.len()
                invariant
                    k <= payload@.len(),
                    out@ == before + payload@.subrange(0, k as int),
                decreases payload@.len() - k,
            {
                out.push(payload[k]);
                assert(payload@.subrange(0, k + 1) =~= payload@.subrange(0, k as int).push(payload@[k as int]));
                k = k + 1;
            }
            assert(payload@.subrange(0, payload@.len() as int) =~= payload@);
        },
    }
    assert(out@ =~= voice_bytes(*p));
    out
}

/// Decodes a frame read from a client: a ping carries its timestamp; an
/// audio frame (kinds 0, 2, 3 and 4) its target, sequence number and the
/// rest as payload, with no session yet. Other kinds, and truncated
/// varints, give `None`.
pub fn decode_voice(b: &[u8]) -> (r: Option<VoicePacket>)
    ensures
        r is Some <==> decodes(b@),
        r is Some && decodes(b@) && frame_kind(b@) == KIND_PING ==> r == Some(VoicePacket::Ping { timestamp: ping_timestamp(b@) }),
        r is Some && frame_kind(b@) != KIND_PING ==> audio_frame(b@, r->0, 0),
        b@.len() == 0 ==> r is None,
        b@.len() > 0 ==> {
            let h = b@[0];
            let kind = (h >> 5u8) as u8;
            if kind == KIND_PING {
                match varint_at(b@, 1) {
                    None => r is None,
                    Some((ts, _)) => r == Some(VoicePacket::Ping { timestamp: ts }),
                }
            } else if kind > KIND_MAX {
                r is None
            } else {
                match varint_at(b@, 1) {
                    None => r is None,
                    Some((seq, end)) => {
                        &&& r is Some
                        &&& r->0 is Audio
                        &&& r->0->Audio_kind == kind
                        &&& r->0->Audio_target == h & 0x1F
                        &&& r->0->Audio_session_id == 0
                        &&& r->0->Audio_seq_num == seq
                        &&& r->0->Audio_payload@ == b@.subrange(end, b@.len() as int)
                    },
                }
            }
        },
{
    if b.len() == 0 {
        return None;
    }
    let h = b[0];
    let kind = h >> 5u8;
    if kind == KIND_PING {
        return match read_varint(b, 1) {
            None => None,
            Some((ts, _)) => Some(VoicePacket::Ping { timestamp: ts }),
        };
    }
    if kind > KIND_MAX {
        return None;
    }
    match read_varint(b, 1) {
        None => None,
        Some((seq, end)) => {
            let mut payload: Vec<u8> = Vec::new();
            let mut k: usize = end;
            while k < b.len()
                invariant
                    end <= k <= b@.len(),
                    payload@ == b@.subrange(end as int, k as int),
                decreases b@.len() - k,
            {
                payload.push(b[k]);
                assert(b@.subrange(end as int, k + 1) =~= b@.subrange(end as int, k as int).push(b@[k as int]));
                k = k + 1;
            }
            Some(VoicePacket::Audio { kind, target: h & 0x1F, session_id: 0, seq_num: seq, payload })
        },
    }
}

/// A varint reads back as the value it encodes, whatever follows it.
pub proof fn law_varint_round_trip(v: u64, rest: Seq<u8>)
    ensures
        varint_at(varint_bytes(v) + rest, 0) == Some((v, varint_bytes(v).len() as int)),
{
    let b = varint_bytes(v) + rest;
    if v < 0x80 {
        let f = v as u8;
        assert(b[0] == f);
        assert(f & 0x80 == 0 && (f & 0x7F) as u64 == v) by (bit_vector)
            requires
                v < 0x80,
                f == v as u8,
        ;
    } else if v < 0x4000 {
        let f = ((v >> 8u64) | 0x80) as u8;
        let g = v as u8;
        assert(b[0] == f && b[1] == g);
        assert(f & 0x80 != 0 && f & 0xC0 == 0x80 && ((((f & 0x3F) as u64) << 8u64) | (g as u64)) == v) by (bit_vector)
            requires
                0x80 <= v < 0x4000,
                f == ((v >> 8u64) | 0x80) as u8,
                g == v as u8,
        ;
    } else if v < 0x20_0000 {
        let f = ((v >> 16u64) | 0xC0) as u8;
        let g = (v >> 8u64) as u8;
        let h = v as u8;
        assert(b[0] == f && b[1] == g && b[2] == h);
        assert(f & 0x80 != 0 && f & 0xC0 != 0x80 && f & 0xE0 == 0xC0 && ((((f & 0x1F) as u64) << 16u64) | ((g as u64)
            << 8u64) | (h as u64)) == v) by (bit_vector)
            requires
                0x4000 <= v < 0x20_0000,
                f == ((v >> 16u64) | 0xC0) as u8,
                g == (v >> 8u64) as u8,
                h == v as u8,
        ;
    } else if v < 0x1000_0000 {
        let f = ((v >> 24u64) | 0xE0) as u8;
        let g = (v >> 16u64) as u8;
        let h = (v >> 8u64) as u8;
        let k = v as u8;
        assert(b[0] == f && b[1] == g && b[2] == h && b[3] == k);
        assert(f & 0x80 != 0 && f & 0xC0 != 0x80 && f & 0xE0 != 0xC0 && f & 0xF0 == 0xE0 && ((((f & 0x0F) as u64)
            << 24u64) | ((g as u64) << 16u64) | ((h as u64) << 8u64) | (k as u64)) == v) by (bit_vector)
            requires
                0x20_0000 <= v < 0x1000_0000,
                f == ((v >> 24u64) | 0xE0) as u8,
                g == (v >> 16u64) as u8,
                h == (v >> 8u64) as u8,
                k == v as u8,
        ;
    } else if v < 0x1_0000_0000 {
        let b1 = (v >> 24u64) as u8;
        let b2 = (v >> 16u64) as u8;
        let b3 = (v >> 8u64) as u8;
        let b4 = v as u8;
        assert(b[0] == 0xF0u8 && b[1] == b1 && b[2] == b2 && b[3] == b3 && b[4] == b4);
        assert(be_value(b, 1, 4) == (((((((b1 as u64) << 8u64) | (b2 as u64)) << 8u64) | (b3 as u64)) << 8u64) | (b4 as u64))) by {
            reveal_with_fuel(be_value, 5);
            assert((0u64 << 8u64) | (b1 as u64) == b1 as u64) by (bit_vector);
        }
        assert((((((((b1 as u64) << 8u64) | (b2 as u64)) << 8u64) | (b3 as u64)) << 8u64) | (b4 as u64)) == v) by (bit_vector)
            requires
                v < 0x1_0000_0000,
                b1 == (v >> 24u64) as u8,
                b2 == (v >> 16u64) as u8,
                b3 == (v >> 8u64) as u8,
                b4 == v as u8,
        ;
        assert(0xF0u8 & 0x80 != 0 && 0xF0u8 & 0xC0 != 0x80 && 0xF0u8 & 0xE0 != 0xC0 && 0xF0u8 & 0xF0 != 0xE0 && 0xF0u8 & 0xFC == 0xF0) by (bit_vector);
    } else {
        let c1 = (v >> 56u64) as u8;
        let c2 = (v >> 48u64) as u8;
        let c3 = (v >> 40u64) as u8;
        let c4 = (v >> 32u64) as u8;
        let c5 = (v >> 24u64) as u8;
        let c6 = (v >> 16u64) as u8;
        let c7 = (v >> 8u64) as u8;
        let c8 = v as u8;
        assert(b[0] == 0xF4u8 && b[1] == c1 && b[2] == c2 && b[3] == c3 && b[4] == c4 && b[5] == c5 && b[6] == c6
            && b[7] == c7 && b[8] == c8);
        assert(be_value(b, 1, 8) == (((((((((((((((c1 as u64) << 8u64) | (c2 as u64)) << 8u64) | (c3 as u64)) << 8u64)
            | (c4 as u64)) << 8u64) | (c5 as u64)) << 8u64) | (c6 as u64)) << 8u64) | (c7 as u64)) << 8u64) | (c8 as u64))) by {
            reveal_with_fuel(be_value, 9);
            assert((0u64 << 8u64) | (c1 as u64) == c1 as u64) by (bit_vector);
        }
        assert((((((((((((((((c1 as u64) << 8u64) | (c2 as u64)) << 8u64) | (c3 as u64)) << 8u64) | (c4 as u64)) << 8u64)
            | (c5 as u64)) << 8u64) | (c6 as u64)) << 8u64) | (c7 as u64)) << 8u64) | (c8 as u64)) == v) by (bit_vector)
            requires
                c1 == (v >> 56u64) as u8,
                c2 == (v >> 48u64) as u8,
                c3 == (v >> 40u64) as u8,
                c4 == (v >> 32u64) as u8,
                c5 == (v >> 24u64) as u8,
                c6 == (v >> 16u64) as u8,
                c7 == (v >> 8u64) as u8,
                c8 == v as u8,
        ;
        assert(0xF4u8 & 0x80 != 0 && 0xF4u8 & 0xC0 != 0x80 && 0xF4u8 & 0xE0 != 0xC0 && 0xF4u8 & 0xF0 != 0xE0 && 0xF4u8 & 0xFC != 0xF0 && 0xF4u8 & 0xFC == 0xF4) by (bit_vector);
    }
}
} // verus!
