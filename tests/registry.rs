use zumble::crypt::CryptState;
use zumble::channel::ROOT_CHANNEL;
use zumble::client::Endpoint;
use zumble::janitor::ClientHealth;
use zumble::message::{ChannelRemove, ChannelState, ClientMessage, ControlMessage, Delivery, Ping, UserState};
use zumble::state::{MumbleError, ServerState, MAX_CLIENTS};
use zumble::udp::DecryptError;

fn three_clients() -> ServerState {
    let mut st = ServerState::new();
    st.add_client("alice".to_string(), vec![], CryptState::new(0), 0).unwrap();
    st.add_client("bob".to_string(), vec![], CryptState::new(0), 0).unwrap();
    st.add_client("carol".to_string(), vec![], CryptState::new(0), 0).unwrap();
    st
}

fn control(d: &Delivery) -> &ControlMessage {
    match &d.message {
        ClientMessage::SendMessage(m) => m,
        _ => panic!("expected a control message"),
    }
}

fn peer(port: u16) -> Endpoint {
    Endpoint { ip: 0xffff_7f00_0001, port }
}

fn channel_request(parent: Option<u32>, name: Option<&str>, temporary: Option<bool>) -> ChannelState {
    ChannelState {
        channel_id: None,
        parent,
        name: name.map(|n| n.to_string()),
        description: None,
        temporary,
        position: None,
    }
}

fn residents(st: &ServerState, c: u32) -> Vec<u32> {
    st.channels.iter().find(|ch| ch.id == c).map(|ch| ch.clients.clone()).unwrap_or_default()
}

#[test]
fn new_registry_has_root_only() {
    let st = ServerState::new();
    assert_eq!(st.channels.len(), 1);
    assert_eq!(st.channels[0].id, ROOT_CHANNEL);
    assert_eq!(st.channels[0].name, "Root");
    assert!(!st.channels[0].temporary);
    assert!(st.clients.is_empty());
}

#[test]
fn session_ids_strictly_increase() {
    let mut st = ServerState::new();
    let a = st.add_client("a".to_string(), vec![], CryptState::new(0), 0).unwrap();
    let b = st.add_client("b".to_string(), vec![], CryptState::new(0), 0).unwrap();
    st.disconnect(a);
    let c = st.add_client("c".to_string(), vec![], CryptState::new(0), 0).unwrap();
    assert!(a < b && b < c);
    assert_eq!((a, b, c), (1, 2, 3));
    let before = st.session_count;
    let d = st.get_free_session_id();
    assert_eq!(d, before);
    assert_eq!(st.session_count, before + 1);
}

#[test]
fn new_client_joins_root_and_probe_set() {
    let st = three_clients();
    assert_eq!(residents(&st, 0), vec![1, 2, 3]);
    assert_eq!(st.clients_without_udp, vec![1, 2, 3]);
    assert!(st.clients_by_socket.is_empty());
    assert_eq!(st.clients[0].channel_id, 0);
    assert_eq!(st.clients[0].targets.len(), 29);
}

#[test]
fn registry_refuses_past_capacity() {
    let mut st = ServerState::new();
    for k in 0..MAX_CLIENTS {
        assert!(st.add_client(format!("user{k}"), vec![], CryptState::new(0), 0).is_ok());
    }
    assert_eq!(st.add_client("late".to_string(), vec![], CryptState::new(0), 0), Err(MumbleError::ServerFull));
    assert_eq!(st.clients.len(), MAX_CLIENTS);
}

#[test]
fn session_ids_run_out() {
    let mut st = ServerState::new();
    st.session_count = u32::MAX;
    assert_eq!(st.add_client("x".to_string(), vec![], CryptState::new(0), 0), Err(MumbleError::SessionIdsExhausted));
    assert!(st.clients.is_empty());
}

#[test]
fn binding_a_peer_moves_client_out_of_probe_set() {
    let mut st = three_clients();
    assert!(st.set_client_socket(2, peer(5000)));
    assert_eq!(st.get_client_by_socket(peer(5000)), Some(2));
    assert_eq!(st.clients_without_udp, vec![1, 3]);
    assert_eq!(st.clients[1].udp_socket_addr, Some(peer(5000)));
    assert!(!st.set_client_socket(3, peer(5000)));
    assert_eq!(st.get_client_by_socket(peer(5000)), Some(2));
    assert!(st.set_client_socket(2, peer(5001)));
    assert_eq!(st.get_client_by_socket(peer(5000)), None);
    assert_eq!(st.get_client_by_socket(peer(5001)), Some(2));
    assert_eq!(st.clients_by_socket.len(), 1);
    assert!(!st.set_client_socket(9, peer(6000)));
}

#[test]
fn removing_a_peer_returns_client_to_probe_set() {
    let mut st = three_clients();
    st.set_client_socket(1, peer(7000));
    st.remove_client_by_socket(peer(7000));
    assert_eq!(st.get_client_by_socket(peer(7000)), None);
    assert_eq!(st.clients[0].udp_socket_addr, None);
    assert!(st.clients_without_udp.contains(&1));
}

#[test]
fn repeat_is_dropped_without_reset() {
    let mut st = three_clients();
    st.set_client_socket(1, peer(8000));
    let ds = st.handle_decrypt_error(1, DecryptError::Repeat, 500, 0);
    assert!(ds.is_empty());
    assert_eq!(st.get_client_by_socket(peer(8000)), Some(1));
    let ds = st.handle_decrypt_error(1, DecryptError::Late, 100, 0);
    assert!(ds.is_empty());
    assert_eq!(st.get_client_by_socket(peer(8000)), Some(1));
}

#[test]
fn many_late_packets_reset_crypt_and_unbind() {
    let mut st = three_clients();
    st.set_client_socket(1, peer(8000));
    let ds = st.handle_decrypt_error(1, DecryptError::Late, 101, 0);
    assert_eq!(ds.len(), 1);
    assert_eq!(ds[0].to, 1);
    match control(&ds[0]) {
        ControlMessage::CryptSetup(cs) => {
            assert_eq!(cs.key, st.clients[0].crypt_state.raw_key);
            assert_eq!(cs.client_nonce, st.clients[0].crypt_state.decrypt_iv);
            assert_eq!(cs.server_nonce, st.clients[0].crypt_state.encrypt_iv);
        }
        _ => panic!("expected crypt parameters"),
    }
    assert_eq!(st.get_client_by_socket(peer(8000)), None);
    assert_eq!(st.clients[0].udp_socket_addr, None);
    assert!(st.clients_without_udp.contains(&1));
}

#[test]
fn bad_mac_resets_crypt() {
    let mut st = three_clients();
    st.set_client_socket(2, peer(8001));
    let ds = st.handle_decrypt_error(2, DecryptError::Mac, 0, 0);
    assert_eq!(ds.len(), 1);
    assert!(matches!(control(&ds[0]), ControlMessage::CryptSetup(_)));
    let ds = st.handle_decrypt_error(2, DecryptError::Eof, 0, 0);
    assert_eq!(ds.len(), 1);
}

#[test]
fn temporary_channel_created_and_removed_on_leave() {
    let mut st = three_clients();
    let ds = st.handle_channel_state(1, &channel_request(Some(0), Some("t1"), Some(true)));
    let k = st.clients[0].channel_id;
    assert!(k >= 1);
    let announced: Vec<u32> = ds
        .iter()
        .filter(|d| matches!(control(d), ControlMessage::ChannelState(cs) if cs.channel_id == Some(k)))
        .map(|d| d.to)
        .collect();
    assert_eq!(announced, vec![1, 2, 3]);
    match control(&ds[0]) {
        ControlMessage::ChannelState(cs) => {
            assert_eq!(cs.name.as_deref(), Some("t1"));
            assert_eq!(cs.parent, Some(0));
            assert_eq!(cs.temporary, Some(true));
            assert_eq!(cs.position, Some(k as i32));
        }
        _ => panic!("expected a channel state"),
    }
    assert_eq!(residents(&st, k), vec![1]);
    assert!(!residents(&st, 0).contains(&1));

    let ds = st.disconnect(1);
    let kinds: Vec<(u32, &ControlMessage)> = ds.iter().map(|d| (d.to, control(d))).collect();
    assert_eq!(kinds.len(), 4);
    for (to, m) in &kinds[0..2] {
        assert!([2, 3].contains(to));
        match m {
            ControlMessage::UserRemove(r) => {
                assert_eq!(r.session, 1);
                assert_eq!(r.reason, "disconnected");
            }
            _ => panic!("expected a user removal first"),
        }
    }
    for (to, m) in &kinds[2..4] {
        assert!([2, 3].contains(to));
        assert!(matches!(m, ControlMessage::ChannelRemove(ChannelRemove { channel_id }) if *channel_id == k));
    }
    assert!(st.channels.iter().all(|ch| ch.id != k));
}

#[test]
fn channel_requests_that_are_refused() {
    let mut st = three_clients();
    let mut edit = channel_request(Some(0), Some("x"), Some(true));
    edit.channel_id = Some(0);
    assert!(st.handle_channel_state(1, &edit).is_empty());
    assert!(st.handle_channel_state(1, &channel_request(None, Some("x"), Some(true))).is_empty());
    assert!(st.handle_channel_state(1, &channel_request(Some(0), None, Some(true))).is_empty());
    assert!(st.handle_channel_state(1, &channel_request(Some(0), Some("x"), None)).is_empty());
    assert!(st.handle_channel_state(1, &channel_request(Some(0), Some("x"), Some(false))).is_empty());
    assert!(st.handle_channel_state(1, &channel_request(Some(77), Some("x"), Some(true))).is_empty());
    let long = "n".repeat(513);
    assert!(st.handle_channel_state(1, &channel_request(Some(0), Some(&long), Some(true))).is_empty());
    let exact = "n".repeat(512);
    assert!(!st.handle_channel_state(1, &channel_request(Some(0), Some(&exact), Some(true))).is_empty());
    assert_eq!(st.channels.len(), 2);
}

#[test]
fn existing_channel_name_is_joined_not_recreated() {
    let mut st = three_clients();
    st.handle_channel_state(1, &channel_request(Some(0), Some("t1"), Some(true)));
    let k = st.clients[0].channel_id;
    let ds = st.handle_channel_state(2, &channel_request(Some(0), Some("t1"), Some(true)));
    assert_eq!(st.channels.len(), 2);
    assert_eq!(st.clients[1].channel_id, k);
    assert_eq!(ds[0].to, 2);
    assert!(matches!(control(&ds[0]), ControlMessage::ChannelState(cs) if cs.channel_id == Some(k)));
    let mut sorted = residents(&st, k);
    sorted.sort();
    assert_eq!(sorted, vec![1, 2]);
}

#[test]
fn moving_channels_updates_residents() {
    let mut st = three_clients();
    let side = st.add_channel(0, "side".to_string(), "d".to_string(), false).unwrap();
    let ds = st.set_client_channel(2, side);
    assert_eq!(st.clients[1].channel_id, side);
    assert_eq!(residents(&st, side), vec![2]);
    assert_eq!(residents(&st, 0), vec![1, 3]);
    assert_eq!(ds.len(), 3);
    for d in &ds {
        assert!(matches!(control(d), ControlMessage::UserState(us) if us.session == Some(2) && us.channel_id == Some(side)));
    }
    assert!(st.set_client_channel(2, side).is_empty());
    assert!(st.set_client_channel(2, 99).is_empty());
    assert_eq!(st.clients[1].channel_id, side);
}

#[test]
fn user_state_for_someone_else_is_ignored() {
    let mut st = three_clients();
    let req = UserState {
        session: Some(3),
        user_id: None,
        name: None,
        channel_id: None,
        mute: Some(true),
        deaf: Some(true),
        listening_channel_add: vec![],
        listening_channel_remove: vec![],
    };
    assert!(st.handle_user_state(1, &req).is_empty());
    assert!(!st.clients[0].mute && !st.clients[2].mute);
    assert!(!st.clients[2].deaf);
}

#[test]
fn user_state_moves_and_ignores_missing_channel() {
    let mut st = three_clients();
    let side = st.add_channel(0, "side".to_string(), String::new(), false).unwrap();
    let mut req = UserState {
        session: Some(1),
        user_id: None,
        name: None,
        channel_id: Some(side),
        mute: None,
        deaf: Some(true),
        listening_channel_add: vec![55],
        listening_channel_remove: vec![],
    };
    st.handle_user_state(1, &req);
    assert_eq!(st.clients[0].channel_id, side);
    assert!(st.clients[0].deaf);
    req.channel_id = Some(1234);
    st.handle_user_state(1, &req);
    assert_eq!(st.clients[0].channel_id, side);
}

#[test]
fn disconnect_clears_every_trace() {
    let mut st = three_clients();
    let side = st.add_channel(0, "side".to_string(), String::new(), false).unwrap();
    st.set_listener(side, 2, true);
    st.set_listener(0, 2, true);
    st.set_client_socket(2, peer(9000));
    st.disconnect(2);
    assert!(st.clients.iter().all(|c| c.session_id != 2));
    assert!(!st.clients_without_udp.contains(&2));
    assert!(st.clients_by_socket.iter().all(|b| b.session_id != 2));
    for ch in &st.channels {
        assert!(!ch.clients.contains(&2));
        assert!(!ch.listeners.contains(&2));
    }
    assert!(st.disconnect(2).is_empty());
    assert_eq!(st.clients.len(), 2);
}

#[test]
fn root_channel_is_never_removed() {
    let mut st = ServerState::new();
    st.add_client("solo".to_string(), vec![], CryptState::new(0), 0).unwrap();
    let ds = st.disconnect(1);
    assert!(ds.is_empty());
    assert_eq!(st.channels.len(), 1);
}

#[test]
fn ping_updates_time_and_echoes_counters() {
    let mut st = three_clients();
    st.clients[1].crypt_state.good = 10;
    st.clients[1].crypt_state.late = 2;
    st.clients[1].crypt_state.lost = 3;
    st.clients[1].crypt_state.resync = 1;
    let ds = st.handle_ping(2, &Ping { timestamp: 77, good: 0, late: 0, lost: 0, resync: 0 }, 5000);
    assert_eq!(st.clients[1].last_ping, 5000);
    assert_eq!(ds.len(), 1);
    assert_eq!(ds[0].to, 2);
    assert!(matches!(control(&ds[0]), ControlMessage::Ping(p) if *p == Ping { timestamp: 77, good: 10, late: 2, lost: 3, resync: 1 }));
    assert!(st.handle_ping(8, &Ping { timestamp: 1, good: 0, late: 0, lost: 0, resync: 0 }, 1).is_empty());
}

#[test]
fn janitor_drops_closed_and_idle_and_rekeys_stale() {
    let mut st = three_clients();
    st.set_client_socket(3, peer(9100));
    let health = vec![
        ClientHealth { session_id: 1, queue_closed: true },
        ClientHealth { session_id: 2, queue_closed: false },
        ClientHealth { session_id: 3, queue_closed: false },
    ];
    st.clients[1].crypt_state.last_good = 39_000;
    st.clients[2].crypt_state.last_good = 30_000;
    st.handle_ping(2, &Ping { timestamp: 0, good: 0, late: 0, lost: 0, resync: 0 }, 0);
    st.handle_ping(3, &Ping { timestamp: 0, good: 0, late: 0, lost: 0, resync: 0 }, 20_000);
    let ds = st.clean_run(40_000, &health);
    assert!(st.clients.iter().all(|c| c.session_id != 1));
    assert!(ds.iter().any(|d| d.to == 2 && matches!(d.message, ClientMessage::Disconnect)));
    assert!(!ds.iter().any(|d| d.to == 3 && matches!(d.message, ClientMessage::Disconnect)));
    assert!(ds.iter().any(|d| d.to == 3 && matches!(&d.message, ClientMessage::SendMessage(m) if matches!(**m, ControlMessage::CryptSetup(_)))));
    assert!(!ds.iter().any(|d| d.to == 2 && matches!(&d.message, ClientMessage::SendMessage(m) if matches!(**m, ControlMessage::CryptSetup(_)))));
    assert_eq!(st.clients.iter().find(|c| c.session_id == 3).unwrap().crypt_state.last_good, 40_000);
    assert_eq!(st.get_client_by_socket(peer(9100)), None);
}

#[test]
fn codec_plurality_switches_slot_and_broadcasts() {
    let mut st = ServerState::new();
    st.add_client("a".to_string(), vec![-2147483637, -2147483632], CryptState::new(0), 0).unwrap();
    let ds = st.check_codec(1);
    assert_eq!(ds.len(), 1);
    assert!(st.codec_state.prefer_alpha);
    assert_eq!(st.codec_state.alpha, -2147483637);
    assert_eq!(st.codec_state.get_version(), -2147483637);
    st.add_client("b".to_string(), vec![-2147483632], CryptState::new(0), 0).unwrap();
    let ds = st.check_codec(2);
    assert_eq!(ds.len(), 2);
    assert!(!st.codec_state.prefer_alpha);
    assert_eq!(st.codec_state.beta, -2147483632);
    assert_eq!(st.codec_state.alpha, -2147483637);
    for d in &ds {
        assert!(matches!(control(d), ControlMessage::CodecVersion(cv) if cv.beta == -2147483632 && !cv.prefer_alpha));
    }
    st.add_client("c".to_string(), vec![-2147483632], CryptState::new(0), 0).unwrap();
    let ds = st.check_codec(3);
    assert_eq!(ds.len(), 1);
    assert_eq!(ds[0].to, 3);
    assert!(!st.codec_state.prefer_alpha);
}

#[test]
fn codec_unchanged_without_advertisements() {
    let mut st = three_clients();
    let ds = st.check_codec(2);
    assert_eq!(ds.len(), 1);
    assert_eq!(ds[0].to, 2);
    assert!(matches!(control(&ds[0]), ControlMessage::CodecVersion(cv) if cv.alpha == 0 && cv.beta == 0 && cv.opus && !cv.prefer_alpha));
}

#[test]
fn welcome_sends_snapshot_then_announces() {
    let mut st = three_clients();
    let ds = st.welcome(2, "hello");
    assert_eq!(ds.len(), 1 + 3 + 3 + 2);
    assert!(matches!(control(&ds[0]), ControlMessage::ChannelState(cs) if cs.channel_id == Some(0)));
    for (k, d) in ds[1..4].iter().enumerate() {
        assert_eq!(d.to, 2);
        assert!(matches!(control(d), ControlMessage::UserState(us) if us.session == Some(k as u32 + 1)));
    }
    assert!(matches!(control(&ds[4]), ControlMessage::UserState(us) if us.session == Some(2)));
    match control(&ds[5]) {
        ControlMessage::ServerSync(sync) => {
            assert_eq!(sync.session, 2);
            assert_eq!(sync.max_bandwidth, 144_000);
            assert_eq!(sync.welcome_text, "hello");
        }
        _ => panic!("expected a server sync"),
    }
    assert!(matches!(control(&ds[6]), ControlMessage::ServerConfig(c) if c.allow_html && c.message_length == 512 && c.image_message_length == 0));
    assert_eq!(ds[7].to, 1);
    assert_eq!(ds[8].to, 3);
    assert!(matches!(control(&ds[7]), ControlMessage::UserState(us) if us.session == Some(2) && us.name.as_deref() == Some("bob")));
    st.disconnect(2);
    assert!(st.welcome(2, "hello").is_empty());
}

#[test]
fn lookups_by_name() {
    let st = three_clients();
    assert_eq!(st.get_client_by_name("bob"), Some(2));
    assert_eq!(st.get_client_by_name("dave"), None);
    assert_eq!(st.get_channel_by_name("Root"), Some(0));
    assert_eq!(st.get_channel_by_name("nope"), None);
}

#[test]
fn admin_flags_and_status() {
    let mut st = three_clients();
    assert!(st.set_client_mute(3, true));
    assert!(st.set_client_deaf(3, true));
    assert!(!st.set_client_mute(9, true));
    assert!(st.clients[2].is_muted() && st.clients[2].is_deaf());
    st.clients[2].set_mute(false);
    assert!(!st.clients[2].is_muted());
    st.clients[2].crypt_state.good = 4;
    st.clients[2].crypt_state.late = 5;
    st.clients[2].crypt_state.lost = 6;
    st.clients[2].crypt_state.resync = 7;
    st.clients[2].crypt_state.last_good = 800;
    let status = st.client_status(3, 2000).unwrap();
    assert_eq!(status.name, "carol");
    assert_eq!(status.channel.as_deref(), Some("Root"));
    assert!(!status.mute);
    assert_eq!((status.good, status.late, status.lost, status.resync), (4, 5, 6, 7));
    assert_eq!(status.last_good_duration, 1200);
    assert_eq!(status.targets.len(), 29);
    assert!(st.client_status(9, 0).is_none());
}

#[test]
fn client_flags_read_back() {
    let mut c = zumble::client::Client::new("x".to_string(), 5, 0, vec![], CryptState::new(0), 0);
    c.set_mute(true);
    assert!(c.is_muted());
    c.set_deaf(true);
    assert!(c.is_deaf() && c.is_muted());
    c.set_deaf(false);
    assert!(!c.is_deaf());
    assert_eq!(c.join_channel(0), None);
    assert_eq!(c.join_channel(4), Some(0));
    assert_eq!(c.channel_id, 4);
    assert!(c.get_target(0).is_none());
    assert!(c.get_target(1).is_some());
    assert!(c.get_target(29).is_some());
    assert!(c.get_target(30).is_none());
    assert_eq!(c.get_name(), "x");
    let us = c.get_user_state();
    assert_eq!(us.session, Some(5));
    assert_eq!(us.channel_id, Some(4));
}
