use zumble::crypt::CryptState;
use std::sync::Arc;
use zumble::message::{ClientMessage, ControlMessage, Delivery, TargetItem, UserState, VoiceTargetRequest};
use zumble::state::ServerState;
use zumble::fanout::VoiceRoute;
use zumble::voice::VoicePacket;

fn three_clients() -> ServerState {
    let mut st = ServerState::new();
    assert_eq!(st.add_client("alice".to_string(), vec![], CryptState::new(0), 0), Ok(1));
    assert_eq!(st.add_client("bob".to_string(), vec![], CryptState::new(0), 0), Ok(2));
    assert_eq!(st.add_client("carol".to_string(), vec![], CryptState::new(0), 0), Ok(3));
    st
}

fn audio(target: u8, byte: u8) -> VoicePacket {
    VoicePacket::Audio { kind: 4, target, session_id: 0, seq_num: 7, payload: vec![byte] }
}

fn voice_to(ds: &[Delivery], s: u32) -> Vec<Arc<VoicePacket>> {
    ds.iter()
        .filter(|d| d.to == s)
        .filter_map(|d| match &d.message {
            ClientMessage::SendVoicePacket(p) => Some(p.clone()),
            _ => None,
        })
        .collect()
}

fn sorted(mut v: Vec<u32>) -> Vec<u32> {
    v.sort();
    v
}

fn fan(r: VoiceRoute) -> Vec<Delivery> {
    match r {
        VoiceRoute::Fanout(ds) => ds,
        VoiceRoute::Loopback(_) => panic!("expected a fan-out"),
    }
}

fn user_state(session: u32) -> UserState {
    UserState {
        session: Some(session),
        user_id: None,
        name: None,
        channel_id: None,
        mute: None,
        deaf: None,
        listening_channel_add: vec![],
        listening_channel_remove: vec![],
    }
}

fn assert_frame(p: &VoicePacket, session: u32, byte: u8) {
    match p {
        VoicePacket::Audio { session_id, payload, .. } => {
            assert_eq!(*session_id, session);
            assert_eq!(payload, &vec![byte]);
        }
        _ => panic!("expected an audio frame"),
    }
}

#[test]
fn channel_talk_reaches_other_resident() {
    let mut st = ServerState::new();
    st.add_client("alice".to_string(), vec![], CryptState::new(0), 0).unwrap();
    st.add_client("bob".to_string(), vec![], CryptState::new(0), 0).unwrap();
    let frame = audio(0, 0xAA).into_client_bound(1);
    let ds = fan(st.route_voice_packet(1, frame));
    let bob = voice_to(&ds, 2);
    assert_eq!(bob.len(), 1);
    assert_frame(&bob[0], 1, 0xAA);
    assert!(voice_to(&ds, 1).is_empty());
    assert_eq!(ds.len(), 1);
}

#[test]
fn recipient_mute_does_not_drop_but_deaf_does() {
    let mut st = three_clients();
    let mut req = user_state(2);
    req.mute = Some(true);
    st.handle_user_state(2, &req);
    assert!(st.clients[1].mute);
    let ds = fan(st.route_voice_packet(1, audio(0, 0xBB).into_client_bound(1)));
    assert_eq!(voice_to(&ds, 2).len(), 1);
    assert_eq!(voice_to(&ds, 3).len(), 1);
    assert_frame(&voice_to(&ds, 3)[0], 1, 0xBB);

    let mut req = user_state(2);
    req.deaf = Some(true);
    st.handle_user_state(2, &req);
    let ds = fan(st.route_voice_packet(1, audio(0, 0xBB).into_client_bound(1)));
    assert!(voice_to(&ds, 2).is_empty());
    assert_eq!(voice_to(&ds, 3).len(), 1);
}

#[test]
fn sender_mute_drops_frame() {
    let mut st = three_clients();
    assert!(st.set_client_mute(1, true));
    let ds = fan(st.route_voice_packet(1, audio(0, 0x01).into_client_bound(1)));
    assert!(ds.is_empty());
}

#[test]
fn whisper_reaches_named_session_only() {
    let mut st = three_clients();
    let req = VoiceTargetRequest { id: 3, targets: vec![TargetItem { session: vec![2], channel_id: None }] };
    assert_eq!(st.handle_voice_target(1, &req), Ok(()));
    assert_eq!(sorted(st.clients[0].targets[2].session_ids()), vec![2]);
    assert!(st.clients[0].targets[2].channel_ids().is_empty());
    let ds = fan(st.route_voice_packet(1, audio(3, 0xCC).into_client_bound(1)));
    assert_eq!(voice_to(&ds, 2).len(), 1);
    assert_frame(&voice_to(&ds, 2)[0], 1, 0xCC);
    assert!(voice_to(&ds, 3).is_empty());
    assert!(voice_to(&ds, 1).is_empty());
}

#[test]
fn whisper_to_channel_reaches_residents_and_listeners() {
    let mut st = three_clients();
    let created = st.add_channel(0, "side".to_string(), String::new(), false).unwrap();
    st.set_client_channel(2, created);
    st.set_listener(created, 3, true);
    let req = VoiceTargetRequest { id: 1, targets: vec![TargetItem { session: vec![], channel_id: Some(created) }] };
    st.handle_voice_target(1, &req).unwrap();
    let ds = fan(st.route_voice_packet(1, audio(1, 0x10).into_client_bound(1)));
    assert_eq!(voice_to(&ds, 2).len(), 1);
    assert_eq!(voice_to(&ds, 3).len(), 1);
    assert!(voice_to(&ds, 1).is_empty());
}

#[test]
fn whisper_skips_disconnected_session() {
    let mut st = three_clients();
    let req = VoiceTargetRequest { id: 2, targets: vec![TargetItem { session: vec![2, 3], channel_id: None }] };
    st.handle_voice_target(1, &req).unwrap();
    st.disconnect(3);
    let ds = fan(st.route_voice_packet(1, audio(2, 0x20).into_client_bound(1)));
    assert_eq!(ds.len(), 1);
    assert_eq!(ds[0].to, 2);
}

#[test]
fn loopback_returns_to_sender_only() {
    let st = three_clients();
    match st.route_voice_packet(1, audio(31, 0xDD).into_client_bound(1)) {
        VoiceRoute::Loopback(frame) => assert_frame(&frame, 1, 0xDD),
        VoiceRoute::Fanout(_) => panic!("loopback must bypass the queues"),
    }
}

#[test]
fn channel_listener_hears_channel_talk() {
    let mut st = three_clients();
    let side = st.add_channel(0, "side".to_string(), String::new(), false).unwrap();
    st.set_client_channel(2, side);
    st.set_client_channel(3, side);
    let mut req = user_state(1);
    req.listening_channel_add = vec![side];
    st.handle_user_state(1, &req);
    let ds = fan(st.route_voice_packet(2, audio(0, 0x30).into_client_bound(2)));
    assert_eq!(voice_to(&ds, 3).len(), 1);
    assert_eq!(voice_to(&ds, 1).len(), 1);
    assert!(voice_to(&ds, 2).is_empty());

    let mut req = user_state(1);
    req.listening_channel_remove = vec![side];
    st.handle_user_state(1, &req);
    let ds = fan(st.route_voice_packet(2, audio(0, 0x30).into_client_bound(2)));
    assert!(voice_to(&ds, 1).is_empty());
}

#[test]
fn invalid_and_unused_targets_route_nothing() {
    let mut st = three_clients();
    assert!(fan(st.route_voice_packet(1, audio(30, 0x40).into_client_bound(1))).is_empty());
    assert!(fan(st.route_voice_packet(1, audio(5, 0x40).into_client_bound(1))).is_empty());
    assert!(fan(st.route_voice_packet(1, VoicePacket::Ping { timestamp: 9 })).is_empty());
    assert!(fan(st.route_voice_packet(42, audio(0, 0x40))).is_empty());
}

#[test]
fn voice_target_id_out_of_range_is_ignored() {
    let mut st = three_clients();
    let req = VoiceTargetRequest { id: 0, targets: vec![TargetItem { session: vec![2], channel_id: None }] };
    assert_eq!(st.handle_voice_target(1, &req), Ok(()));
    let req = VoiceTargetRequest { id: 31, targets: vec![TargetItem { session: vec![2], channel_id: None }] };
    assert_eq!(st.handle_voice_target(1, &req), Ok(()));
    assert!(st.clients[0].targets.iter().all(|t| t.session_ids().is_empty()));
    let req = VoiceTargetRequest { id: 30, targets: vec![TargetItem { session: vec![2], channel_id: None }] };
    assert_eq!(st.handle_voice_target(1, &req), Ok(()));
    let req = VoiceTargetRequest { id: 4, targets: vec![] };
    assert_eq!(st.handle_voice_target(9, &req), Err(zumble::state::MumbleError::UnknownSession));
}

#[test]
fn voice_target_takes_union_of_items() {
    let mut st = three_clients();
    let req = VoiceTargetRequest {
        id: 5,
        targets: vec![
            TargetItem { session: vec![2, 3], channel_id: None },
            TargetItem { session: vec![3], channel_id: Some(0) },
            TargetItem { session: vec![], channel_id: Some(0) },
        ],
    };
    st.handle_voice_target(1, &req).unwrap();
    assert_eq!(sorted(st.clients[0].targets[4].session_ids()), vec![2, 3]);
    assert_eq!(st.clients[0].targets[4].channel_ids(), vec![0]);
    let req = VoiceTargetRequest { id: 5, targets: vec![TargetItem { session: vec![1], channel_id: None }] };
    st.handle_voice_target(1, &req).unwrap();
    assert_eq!(st.clients[0].targets[4].session_ids(), vec![1]);
    assert!(st.clients[0].targets[4].channel_ids().is_empty());
}

#[test]
fn control_messages_share_one_payload() {
    let st = three_clients();
    let ds = st.broadcast_message(ControlMessage::ChannelRemove(zumble::message::ChannelRemove { channel_id: 9 }));
    assert_eq!(ds.iter().map(|d| d.to).collect::<Vec<_>>(), vec![1, 2, 3]);
    for d in &ds {
        assert!(matches!(&d.message, ClientMessage::SendMessage(m) if matches!(**m, ControlMessage::ChannelRemove(r) if r.channel_id == 9)));
    }
    if let (ClientMessage::SendMessage(a), ClientMessage::SendMessage(b)) = (&ds[0].message, &ds[2].message) {
        assert!(Arc::ptr_eq(a, b));
    }
}
