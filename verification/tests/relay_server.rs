use mc_link::protocol::pack_packet;
use mc_link::relay_server::{
    classify_request, is_custom_protocol, BandwidthWindow, RelayAction, RelayRequest, RelayRooms,
};

const HOST: &str = "10.0.0.1:5000";
const MEMBER: &str = "10.0.0.2:6000";

fn replies(actions: &[RelayAction]) -> Vec<Vec<u8>> {
    actions
        .iter()
        .filter_map(|a| match a {
            RelayAction::Reply(b) => Some(b.clone()),
            _ => None,
        })
        .collect()
}

#[test]
fn custom_protocol_shape() {
    let packet = pack_packet("room", "pw", b"REGH");
    assert!(is_custom_protocol(&packet));
    assert!(!is_custom_protocol(&[0x32]));
    assert!(!is_custom_protocol(&[0, 1, 2, 3, 4]));
    let mut long_room = vec![101u8];
    long_room.extend_from_slice(&[b'a'; 101]);
    long_room.extend_from_slice(&[1, b'p']);
    long_room.extend_from_slice(&[0; 16]);
    assert!(!is_custom_protocol(&long_room));
    assert!(!is_custom_protocol(&packet[..packet.len() - 1]));
}

#[test]
fn host_registers_and_member_joins() {
    let mut rooms = RelayRooms::new();
    let out = rooms.handle_custom_protocol(HOST, &pack_packet("room", "pw", b"REGH"));
    assert_eq!(out.registered_room, Some("room".to_string()));
    assert_eq!(replies(&out.actions), vec![pack_packet("room", "pw", b"REGH_OK")]);
    assert_eq!(rooms.host_of(&"room".to_string()), Some(HOST.to_string()));

    let out = rooms.handle_custom_protocol(MEMBER, &pack_packet("room", "pw", b"REGC"));
    assert_eq!(out.registered_room, Some("room".to_string()));
    assert_eq!(out.actions.len(), 2);
    match &out.actions[0] {
        RelayAction::Reply(b) => assert_eq!(b, &pack_packet("room", "pw", b"REGC_OK")),
        other => panic!("unexpected {:?}", other),
    }
    match &out.actions[1] {
        RelayAction::SendTo(peer, b) => {
            assert_eq!(peer, HOST);
            assert_eq!(b, &pack_packet("room", "pw", b"MEMBER_JOIN"));
        }
        other => panic!("unexpected {:?}", other),
    }
}

#[test]
fn data_goes_to_host_or_from_host_to_all() {
    let mut rooms = RelayRooms::new();
    rooms.handle_custom_protocol(HOST, &pack_packet("room", "pw", b"REGH"));
    let data = pack_packet("room", "pw", b"DATA\x01\x02");
    let out = rooms.handle_custom_protocol(MEMBER, &data);
    assert_eq!(out.registered_room, None);
    match &out.actions[..] {
        [RelayAction::SendTo(peer, b)] => {
            assert_eq!(peer, HOST);
            assert_eq!(b, &data);
        }
        other => panic!("unexpected {:?}", other),
    }
    let out = rooms.handle_custom_protocol(HOST, &data);
    match &out.actions[..] {
        [RelayAction::BroadcastExcept(peer, b)] => {
            assert_eq!(peer, HOST);
            assert_eq!(b, &data);
        }
        other => panic!("unexpected {:?}", other),
    }
}

#[test]
fn refusals_and_ignored_packets() {
    let mut rooms = RelayRooms::new();
    let out = rooms.handle_custom_protocol(MEMBER, &pack_packet("nowhere", "pw", b"REGC"));
    assert_eq!(replies(&out.actions), vec![pack_packet("nowhere", "pw", b"ERRR")]);
    assert_eq!(out.registered_room, None);

    rooms.handle_custom_protocol(HOST, &pack_packet("room", "pw", b"REGH"));
    let again = rooms.handle_custom_protocol(MEMBER, &pack_packet("room", "pw", b"REGH"));
    assert!(again.actions.is_empty());
    assert_eq!(again.registered_room, None);
    assert_eq!(rooms.host_of(&"room".to_string()), Some(HOST.to_string()));

    let odd = rooms.handle_custom_protocol(MEMBER, &pack_packet("room", "pw", b"XXXXYY"));
    assert_eq!(replies(&odd.actions), vec![pack_packet("room", "pw", b"ERRR")]);
    let ready_elsewhere = rooms.handle_custom_protocol(MEMBER, &pack_packet("other", "pw", b"MC_READY"));
    assert!(ready_elsewhere.actions.is_empty());

    let short = rooms.handle_custom_protocol(MEMBER, &pack_packet("room", "pw", b"AB"));
    assert!(short.actions.is_empty());
    let unknown_data = rooms.handle_custom_protocol(MEMBER, &pack_packet("other", "pw", b"DATAx"));
    assert!(unknown_data.actions.is_empty());

    let mut garbage = vec![4, b'r', b'o', b'o', b'm', 2, b'p', b'w'];
    garbage.extend_from_slice(&[0u8; 17]);
    let bad = rooms.handle_custom_protocol(MEMBER, &garbage);
    assert!(bad.actions.is_empty());
}

#[test]
fn room_name_read_lossily() {
    let mut rooms = RelayRooms::new();
    let mut packet = vec![2u8, b'r', 0xff, 2, b'p', b'w'];
    packet.extend_from_slice(&mc_link::crypto::encrypt(b"REGH", "pw"));
    let out = rooms.handle_custom_protocol(HOST, &packet);
    assert_eq!(out.registered_room, Some("r\u{FFFD}".to_string()));
}

#[test]
fn create_room_refuses_taken_names() {
    let mut rooms = RelayRooms::new();
    let (reply, registered) = rooms.create_room("lobby".to_string(), HOST);
    assert_eq!(reply, vec![0x21, 0x00]);
    assert_eq!(registered, Some("lobby".to_string()));
    let (reply, registered) = rooms.create_room("lobby".to_string(), MEMBER);
    assert_eq!(reply, vec![0x21, 0x01]);
    assert_eq!(registered, None);
    assert_eq!(rooms.host_of(&"lobby".to_string()), Some(HOST.to_string()));
}

#[test]
fn disconnect_drops_only_own_room() {
    let mut rooms = RelayRooms::new();
    rooms.create_room("lobby".to_string(), HOST);
    rooms.disconnect(MEMBER, Some("lobby".to_string()));
    assert_eq!(rooms.host_of(&"lobby".to_string()), Some(HOST.to_string()));
    rooms.disconnect(HOST, None);
    assert_eq!(rooms.host_of(&"lobby".to_string()), Some(HOST.to_string()));
    rooms.disconnect(HOST, Some("lobby".to_string()));
    assert_eq!(rooms.host_of(&"lobby".to_string()), None);
}

#[test]
fn data_forward_rewrites_header_for_host() {
    let mut rooms = RelayRooms::new();
    rooms.create_room("r".to_string(), HOST);
    let payload = [0u8, 0, 0, 1, b'r', 9, 8];
    let (to, packet) = rooms.data_forward(MEMBER, &payload).expect("forwarded");
    assert_eq!(to, HOST);
    assert_eq!(packet, vec![0x40, 0, 0, 0, 0, 0, 0, 0, 1, b'r', 9, 8]);
    assert!(rooms.data_forward(HOST, &payload).is_none());
    assert!(rooms.data_forward(MEMBER, &[0, 0, 0]).is_none());
    assert!(rooms.data_forward(MEMBER, &[0, 0, 0, 5, b'r']).is_none());
    assert!(rooms.data_forward(MEMBER, &[0, 0, 0, 1, b'x']).is_none());
}

#[test]
fn test_forward_routes_test_packets() {
    let mut rooms = RelayRooms::new();
    rooms.create_room("r".to_string(), HOST);
    let packet = [0x41u8, 1, b'r', 1, b'p'];
    match rooms.test_forward(MEMBER, &packet) {
        Some(RelayAction::SendTo(peer, b)) => {
            assert_eq!(peer, HOST);
            assert_eq!(b, vec![0x41]);
        }
        other => panic!("unexpected {:?}", other),
    }
    match rooms.test_forward(HOST, &packet) {
        Some(RelayAction::BroadcastExcept(peer, b)) => {
            assert_eq!(peer, HOST);
            assert_eq!(b, vec![0x41]);
        }
        other => panic!("unexpected {:?}", other),
    }
    assert!(rooms.test_forward(MEMBER, &[0x41]).is_none());
    assert!(rooms.test_forward(MEMBER, &[0x41, 1, b'x', 0]).is_none());
    assert!(rooms.test_forward(MEMBER, &[0x41, 1, b'r', 3, b'p']).is_none());
}

#[test]
fn requests_sorted_by_command() {
    assert!(matches!(classify_request(&pack_packet("room", "pw", b"REGH")), RelayRequest::Custom));
    assert!(matches!(classify_request(&[0x41, 1]), RelayRequest::Test));
    assert!(matches!(classify_request(&[0x20]), RelayRequest::CreateRoom));
    assert!(matches!(classify_request(&[0x22]), RelayRequest::FindRoom));
    assert!(matches!(classify_request(&[0x40]), RelayRequest::Data));
    assert!(matches!(classify_request(&[0x32]), RelayRequest::Ping));
    assert!(matches!(classify_request(&[0x99]), RelayRequest::Unknown));
    assert!(matches!(classify_request(&[]), RelayRequest::Unknown));
}

#[test]
fn bandwidth_window_counts_per_second() {
    let mut w = BandwidthWindow { total_bytes_sent: 0, last_check: 100 };
    assert_eq!(w.account(100, 500), Some((500, 1)));
    assert_eq!(w.account(100, 250), Some((750, 1)));
    assert_eq!(w.account(101, 40), None);
    assert_eq!(w.total_bytes_sent, 40);
    assert_eq!(w.last_check, 101);
}

#[test]
fn mc_ready_is_passed_to_the_host() {
    let mut rooms = RelayRooms::new();
    rooms.handle_custom_protocol(HOST, &pack_packet("room", "pw", b"REGH"));
    let ready = rooms.handle_custom_protocol(MEMBER, &pack_packet("room", "pw", b"MC_READY"));
    assert_eq!(ready.actions.len(), 1);
    match &ready.actions[0] {
        RelayAction::SendTo(peer, bytes) => {
            assert_eq!(peer, HOST);
            assert_eq!(bytes, &pack_packet("room", "pw", b"MC_READY"));
        }
        _ => panic!("MC_READY must go to the host"),
    }
    assert_eq!(ready.registered_room, None);
    assert_eq!(rooms.host_of(&"room".to_string()), Some(HOST.to_string()));
    let longer = rooms.handle_custom_protocol(MEMBER, &pack_packet("room", "pw", b"MC_READYx"));
    assert_eq!(replies(&longer.actions), vec![pack_packet("room", "pw", b"ERRR")]);
}
