use zumble::client::Endpoint;
use zumble::crypt::CryptState;
use zumble::message::{ClientMessage, ControlMessage};
use zumble::ocb::{ocb_decrypt, ocb_encrypt};
use zumble::state::ServerState;
use zumble::udp::{DatagramOutcome, DecryptError};
use zumble::voice::{decode_voice, encode_voice, read_varint, write_varint, VoicePacket};

fn block(start: u8) -> Vec<u8> {
    (0..16u8).map(|k| start.wrapping_add(k)).collect()
}

fn pair() -> (CryptState, CryptState) {
    let key = block(0x10);
    let server = CryptState::from_parts(key.clone(), block(0x40), block(0x80), 0);
    let client = CryptState::from_parts(key, block(0x80), block(0x40), 0);
    (server, client)
}

fn hex(s: &str) -> Vec<u8> {
    (0..s.len()).step_by(2).map(|k| u8::from_str_radix(&s[k..k + 2], 16).unwrap()).collect()
}

#[test]
fn ocb2_reference_vectors() {
    let key = hex("000102030405060708090a0b0c0d0e0f");
    let nonce = hex("000102030405060708090a0b0c0d0e0f");
    let (c, tag) = ocb_encrypt(&key, &nonce, &[]);
    assert!(c.is_empty());
    assert_eq!(tag, hex("bf3108130773ad5ec70ec69e7875a7b0"));
    let (c, tag) = ocb_encrypt(&key, &nonce, &hex("0001020304050607"));
    assert_eq!(c, hex("c636b3a868f429bb"));
    assert_eq!(tag, hex("a45f5fdea5c088d1d7c8be37cabc8c5c"));
}

#[test]
fn ocb_round_trip_all_lengths() {
    let key = block(3);
    let nonce = block(9);
    for len in [0usize, 1, 15, 16, 17, 31, 32, 33, 100] {
        let plain: Vec<u8> = (0..len).map(|k| (k * 7) as u8).collect();
        let (c, tag) = ocb_encrypt(&key, &nonce, &plain);
        assert_eq!(c.len(), len);
        if len > 0 {
            assert_ne!(c, plain);
        }
        let (p, tag2) = ocb_decrypt(&key, &nonce, &c);
        assert_eq!(p, plain);
        assert_eq!(tag, tag2);
    }
}

#[test]
fn encrypt_then_decrypt_is_identity() {
    let (mut server, mut client) = pair();
    for frame in [vec![0x80u8, 1, 2, 3], vec![], vec![9u8; 40]] {
        let datagram = client.encrypt(&frame);
        assert_eq!(datagram.len(), frame.len() + 4);
        assert_eq!(server.decrypt(&datagram, 5), Ok(frame));
    }
    assert_eq!(server.good, 3);
    assert_eq!(server.last_good, 5);
    let reply = server.encrypt(&[7, 7]);
    assert_eq!(client.decrypt(&reply, 6), Ok(vec![7, 7]));
}

#[test]
fn good_counts_each_success() {
    let (mut server, mut client) = pair();
    let a = client.encrypt(&[1]);
    let b = client.encrypt(&[2]);
    assert!(server.decrypt(&a, 1).is_ok());
    let g1 = server.good;
    assert!(server.decrypt(&b, 2).is_ok());
    assert!(server.good > g1);
}

#[test]
fn replayed_datagram_is_a_repeat() {
    let (mut server, mut client) = pair();
    let a = client.encrypt(&[1, 2, 3]);
    assert!(server.decrypt(&a, 1).is_ok());
    let good = server.good;
    assert_eq!(server.decrypt(&a, 2), Err(DecryptError::Repeat));
    assert_eq!(server.good, good);
    let b = client.encrypt(&[4]);
    let c = client.encrypt(&[5]);
    assert!(server.decrypt(&c, 3).is_ok());
    assert_eq!(server.lost, 1);
    assert_eq!(server.decrypt(&b, 4), Ok(vec![4]));
    assert_eq!(server.late, 1);
    assert_eq!(server.lost, 0);
    assert_eq!(server.decrypt(&b, 5), Err(DecryptError::Repeat));
    assert_eq!(server.good, good + 2);
}

#[test]
fn too_old_datagram_is_late() {
    let (mut server, mut client) = pair();
    let first = client.encrypt(&[1]);
    let mut last = Vec::new();
    for _ in 0..40 {
        last = client.encrypt(&[2]);
    }
    assert!(server.decrypt(&last, 1).is_ok());
    assert_eq!(server.lost, 40);
    assert_eq!(server.decrypt(&first, 2), Err(DecryptError::Late));
    assert_eq!(server.late, 1);
}

#[test]
fn tampered_or_short_datagrams_fail() {
    let (mut server, mut client) = pair();
    let mut a = client.encrypt(&[1, 2, 3]);
    a[2] ^= 1;
    assert_eq!(server.decrypt(&a, 1), Err(DecryptError::Mac));
    assert_eq!(server.good, 0);
    assert_eq!(server.decrypt(&[1, 2, 3], 1), Err(DecryptError::Eof));
    let b = client.encrypt(&[1]);
    let (mut other, _) = pair();
    other.raw_key = block(0x99);
    assert_eq!(other.decrypt(&b, 1), Err(DecryptError::Mac));
}

#[test]
fn nonce_carries_across_bytes() {
    let mut iv = vec![0u8; 16];
    iv[0] = 255;
    let mut st = CryptState::from_parts(block(1), iv, block(2), 0);
    st.encrypt(&[]);
    assert_eq!(st.encrypt_iv[0], 0);
    assert_eq!(st.encrypt_iv[1], 1);
}

#[test]
fn setup_and_resync() {
    let (mut server, _) = pair();
    let setup = server.get_crypt_setup();
    assert_eq!(setup.key, block(0x10));
    assert_eq!(setup.client_nonce, block(0x80));
    assert_eq!(setup.server_nonce, block(0x40));
    server.set_decrypt_nonce(&block(0x22));
    assert_eq!(server.decrypt_iv, block(0x22));
    assert_eq!(server.resync, 1);
    server.set_decrypt_nonce(&[1, 2]);
    assert_eq!(server.decrypt_iv, block(0x22));
    assert_eq!(server.resync, 1);
    let before = server.raw_key.clone();
    server.reset(9);
    assert_ne!(server.raw_key, before);
    assert_eq!(server.raw_key.len(), 16);
    assert_eq!(server.last_good, 9);
    let a = CryptState::new(0);
    let b = CryptState::new(0);
    assert_ne!(a.raw_key, b.raw_key);
}

#[test]
fn varints_round_trip() {
    for v in [0u64, 0x7f, 0x80, 0x3fff, 0x4000, 0x1f_ffff, 0x20_0000, 0xfff_ffff, 0x1000_0000, 0xffff_ffff, 0x1_0000_0000, u64::MAX] {
        let mut out = vec![0xaau8];
        write_varint(&mut out, v);
        assert_eq!(read_varint(&out, 1), Some((v, out.len())));
    }
    let mut out = Vec::new();
    write_varint(&mut out, 0x1234);
    assert_eq!(out, vec![0x92, 0x34]);
    assert_eq!(read_varint(&[0xf8], 0), None);
    assert_eq!(read_varint(&[0x92], 0), None);
}

#[test]
fn voice_frames_decode_and_encode() {
    assert!(matches!(decode_voice(&[0x20, 0x05]), Some(VoicePacket::Ping { timestamp: 5 })));
    match decode_voice(&[0x83, 0x07, 0xaa, 0xbb]) {
        Some(VoicePacket::Audio { kind, target, session_id, seq_num, payload }) => {
            assert_eq!((kind, target, session_id, seq_num), (4, 3, 0, 7));
            assert_eq!(payload, vec![0xaa, 0xbb]);
        }
        _ => panic!("expected audio"),
    }
    assert!(decode_voice(&[0xe0, 1]).is_none());
    assert!(decode_voice(&[]).is_none());
    let frame = VoicePacket::Audio { kind: 4, target: 0, session_id: 2, seq_num: 300, payload: vec![1] };
    assert_eq!(encode_voice(&frame), vec![0x80, 0x02, 0x81, 0x2c, 0x01]);
    assert_eq!(encode_voice(&VoicePacket::Ping { timestamp: 1 }), vec![0x20, 0x01]);
}

#[test]
fn datagrams_bind_route_and_echo() {
    let (server_crypt, mut peer) = pair();
    let mut st = ServerState::new();
    st.add_client("a".to_string(), vec![], CryptState::new(0), 0).unwrap();
    st.add_client("b".to_string(), vec![], server_crypt, 0).unwrap();
    let addr = Endpoint { ip: 1, port: 2 };

    let audio = peer.encrypt(&[0x80, 0x01, 0xee]);
    match st.handle_datagram(&audio, addr, 0x10400, 10) {
        DatagramOutcome::Deliver(ds) => {
            assert_eq!(ds.len(), 1);
            assert_eq!(ds[0].to, 2);
            match &ds[0].message {
                ClientMessage::RouteVoicePacket(VoicePacket::Audio { session_id, payload, .. }) => {
                    assert_eq!(*session_id, 2);
                    assert_eq!(payload, &vec![0xee]);
                }
                _ => panic!("expected a frame to route"),
            }
        }
        _ => panic!("expected a delivery"),
    }
    assert_eq!(st.get_client_by_socket(addr), Some(2));
    assert_eq!(st.clients_without_udp, vec![1]);

    let ping = peer.encrypt(&[0x20, 0x09]);
    match st.handle_datagram(&ping, addr, 0x10400, 11) {
        DatagramOutcome::Reply(bytes) => assert_eq!(peer.decrypt(&bytes, 11), Ok(vec![0x20, 0x09])),
        _ => panic!("expected an echo"),
    }

    let mut bad = peer.encrypt(&[0x80, 0x02]);
    bad[1] ^= 0xff;
    match st.handle_datagram(&bad, addr, 0x10400, 12) {
        DatagramOutcome::Deliver(ds) => {
            assert_eq!(ds[0].to, 2);
            assert!(matches!(&ds[0].message, ClientMessage::SendMessage(m) if matches!(**m, ControlMessage::CryptSetup(_))));
        }
        _ => panic!("expected a crypt reset"),
    }
    assert_eq!(st.get_client_by_socket(addr), None);

    let stranger = Endpoint { ip: 9, port: 9 };
    assert!(matches!(st.handle_datagram(&[5, 6, 7, 8, 9], stranger, 0x10400, 13), DatagramOutcome::Ignore));
    let mut anon = vec![0u8; 4];
    anon.extend_from_slice(&42u64.to_le_bytes());
    match st.handle_datagram(&anon, stranger, 0x10400, 14) {
        DatagramOutcome::Reply(bytes) => {
            assert_eq!(bytes.len(), 24);
            assert_eq!(&bytes[4..12], &42u64.to_le_bytes());
            assert_eq!(&bytes[12..16], &2u32.to_be_bytes());
        }
        _ => panic!("expected a status block"),
    }
}
