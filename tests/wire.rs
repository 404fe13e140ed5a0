use zumble::codec::{count_of, plurality_version, CodecState};
use zumble::udp::{classify_datagram, needs_crypt_reset, ping_reply, Datagram, DecryptError, FrameAction};
use zumble::voice::VoicePacket;
use zumble::wire::{encode_header, parse_header, MessageKind};
use zumble::state::ServerState;
use zumble::message::ClientMessage;

#[test]
fn anonymous_ping_is_recognised() {
    let mut buf = vec![0u8, 0, 0, 0];
    buf.extend_from_slice(&0x1122_3344_5566_7788u64.to_le_bytes());
    assert_eq!(classify_datagram(&buf), Datagram::AnonymousPing { timestamp: 0x1122_3344_5566_7788 });
    buf[0] = 1;
    assert_eq!(classify_datagram(&buf), Datagram::Voice);
    assert_eq!(classify_datagram(&[0u8; 13]), Datagram::Voice);
    assert_eq!(classify_datagram(&[0u8; 1]), Datagram::Invalid);
    assert_eq!(classify_datagram(&[]), Datagram::Invalid);
}

#[test]
fn anonymous_ping_reply_layout() {
    let version: u32 = 1 << 16 | 4 << 8;
    let r = ping_reply(version, 0x0102_0304_0506_0708, 3);
    let mut expected = Vec::new();
    expected.extend_from_slice(&version.to_be_bytes());
    expected.extend_from_slice(&0x0102_0304_0506_0708u64.to_le_bytes());
    expected.extend_from_slice(&3u32.to_be_bytes());
    expected.extend_from_slice(&4096u32.to_be_bytes());
    expected.extend_from_slice(&144_000u32.to_be_bytes());
    assert_eq!(r, expected);
    assert_eq!(r.len(), 24);
    assert_eq!(&r[0..4], &[0, 1, 4, 0]);
}

#[test]
fn reset_rule_by_error() {
    assert!(!needs_crypt_reset(DecryptError::Repeat, 1000));
    assert!(!needs_crypt_reset(DecryptError::Late, 100));
    assert!(needs_crypt_reset(DecryptError::Late, 101));
    assert!(needs_crypt_reset(DecryptError::Mac, 0));
    assert!(needs_crypt_reset(DecryptError::Eof, 0));
}

#[test]
fn frame_header_round_trip() {
    let h = encode_header(9, 0x0102_0304);
    assert_eq!(h, vec![0, 9, 1, 2, 3, 4]);
    assert_eq!(parse_header(&h), Some((9, 0x0102_0304)));
    assert_eq!(parse_header(&[0, 1, 2]), None);
    let h = encode_header(0xfffe, u32::MAX);
    assert_eq!(parse_header(&h), Some((0xfffe, u32::MAX)));
}

#[test]
fn message_kind_codes() {
    assert_eq!(MessageKind::Version.code(), 0);
    assert_eq!(MessageKind::UDPTunnel.code(), 1);
    assert_eq!(MessageKind::UserState.code(), 9);
    assert_eq!(MessageKind::CryptSetup.code(), 15);
    assert_eq!(MessageKind::VoiceTarget.code(), 19);
    assert_eq!(MessageKind::SuggestConfig.code(), 25);
    for c in 0u16..=25 {
        assert_eq!(MessageKind::from_code(c).unwrap().code(), c);
    }
    assert_eq!(MessageKind::from_code(26), None);
}

#[test]
fn plurality_counts_and_breaks_ties_by_order() {
    assert_eq!(count_of(&vec![3, 1, 3, 2], 3), 2);
    assert_eq!(plurality_version(&vec![], 7), 7);
    assert_eq!(plurality_version(&vec![5, 6, 6, 5, 6], 0), 6);
    assert_eq!(plurality_version(&vec![5, 6, 6, 5], 0), 5);
    assert_eq!(plurality_version(&vec![4], 0), 4);
}

#[test]
fn codec_slots() {
    let mut cs = CodecState::default();
    assert_eq!(cs.get_version(), 0);
    cs.switch_to(11);
    assert!(cs.prefer_alpha);
    assert_eq!(cs.get_version(), 11);
    cs.switch_to(12);
    assert_eq!((cs.alpha, cs.beta, cs.prefer_alpha), (11, 12, false));
    let cv = cs.get_codec_version();
    assert_eq!((cv.alpha, cv.beta, cv.opus, cv.prefer_alpha), (11, 12, true, false));
}

#[test]
fn decrypted_frames_are_echoed_or_routed() {
    match ServerState::voice_frame_action(4, VoicePacket::Ping { timestamp: 9 }) {
        FrameAction::Echo(VoicePacket::Ping { timestamp }) => assert_eq!(timestamp, 9),
        _ => panic!("a ping is echoed"),
    }
    let frame = VoicePacket::Audio { kind: 4, target: 0, session_id: 0, seq_num: 1, payload: vec![1, 2] };
    match ServerState::voice_frame_action(4, frame) {
        FrameAction::Route(d) => {
            assert_eq!(d.to, 4);
            match d.message {
                ClientMessage::RouteVoicePacket(VoicePacket::Audio { session_id, payload, .. }) => {
                    assert_eq!(session_id, 4);
                    assert_eq!(payload, vec![1, 2]);
                }
                _ => panic!("audio is routed"),
            }
        }
        _ => panic!("audio is routed"),
    }
}
