use mc_link::protocol::pack_packet;
use mc_link::udp_relay::{
    classify_datagram, PacketStamp, UdpClient, UdpRelayState, UdpRequest, UdpRoom,
    PACKET_TIMEOUT_NS, PEER_TIMEOUT_NS,
};

const HOST: &str = "192.168.1.2:40000";
const MEMBER: &str = "192.168.1.3:40001";
const OTHER: &str = "192.168.1.4:40002";
const SECOND: u64 = 1_000_000_000;

fn room_named<'a>(state: &'a UdpRelayState, name: &str) -> Option<&'a UdpRoom> {
    state.rooms.iter().find(|r| r.name == name)
}

#[test]
fn datagrams_sorted_by_first_byte() {
    assert_eq!(classify_datagram(&[]), UdpRequest::Empty);
    assert_eq!(classify_datagram(&[0x32]), UdpRequest::Ping);
    assert_eq!(classify_datagram(&[0x33, 1]), UdpRequest::Pong);
    assert_eq!(classify_datagram(&[0x01, 2, 3]), UdpRequest::Game);
}

#[test]
fn host_registration_is_answered() {
    let mut state = UdpRelayState::new();
    let sends = state.handle_game_packet(&pack_packet("room", "pw", b"REGH"), HOST, 10);
    assert_eq!(sends, vec![(HOST.to_string(), pack_packet("room", "pw", b"REGH_OK"))]);
    let room = room_named(&state, "room").expect("room");
    let host = room.host.as_ref().expect("host");
    assert_eq!(host.addr, HOST);
    assert_eq!(host.role, "host");
    assert_eq!(host.password, "pw");
    assert_eq!(host.last_seen, 10);
    assert_eq!(state.packet_cache.len(), 1);
}

#[test]
fn member_registration_is_answered() {
    let mut state = UdpRelayState::new();
    let sends = state.handle_game_packet(&pack_packet("room", "pw", b"REGC"), MEMBER, 20);
    assert_eq!(sends, vec![(MEMBER.to_string(), pack_packet("room", "pw", b"REGC_OK"))]);
    let room = room_named(&state, "room").expect("room");
    assert!(room.host.is_none());
    assert_eq!(room.clients.len(), 1);
    assert_eq!(room.clients[0].addr, MEMBER);
    assert_eq!(room.clients[0].role, "client");
}

#[test]
fn data_flows_between_host_and_members() {
    let mut state = UdpRelayState::new();
    state.handle_game_packet(&pack_packet("room", "pw", b"REGH"), HOST, 1);
    state.handle_game_packet(&pack_packet("room", "pw", b"REGC1"), MEMBER, 2);
    state.handle_game_packet(&pack_packet("room", "other", b"REGC2"), OTHER, 3);

    let from_member = state.handle_game_packet(&pack_packet("room", "pw", b"DATAabc"), MEMBER, 4);
    assert_eq!(from_member, vec![(HOST.to_string(), pack_packet("room", "pw", b"DATAabc"))]);

    let from_host = state.handle_game_packet(&pack_packet("room", "pw", b"DATAxyz"), HOST, 5);
    assert_eq!(from_host, vec![(MEMBER.to_string(), pack_packet("room", "pw", b"DATAxyz"))]);

    let wrong_password = state.handle_game_packet(&pack_packet("room", "other", b"DATA123"), OTHER, 6);
    assert!(wrong_password.is_empty());
}

#[test]
fn repeated_packet_is_dropped() {
    let mut state = UdpRelayState::new();
    state.handle_game_packet(&pack_packet("room", "pw", b"REGH"), HOST, 1);
    let packet = pack_packet("room", "pw", b"DATAsame");
    state.handle_game_packet(&pack_packet("room", "pw", b"REGC"), MEMBER, 2);
    let first = state.handle_game_packet(&packet, MEMBER, 3);
    assert_eq!(first.len(), 1);
    let cache_len = state.packet_cache.len();
    let second = state.handle_game_packet(&packet, MEMBER, 4);
    assert!(second.is_empty());
    assert_eq!(state.packet_cache.len(), cache_len);
}

#[test]
fn same_message_counts_as_repeat() {
    let mut state = UdpRelayState::new();
    state.handle_game_packet(&pack_packet("one", "pw", b"REGC"), MEMBER, 0);
    let again = state.handle_game_packet(&pack_packet("two", "pw", b"REGC"), OTHER, 1);
    assert!(again.is_empty());
    assert!(room_named(&state, "two").is_none());
}

#[test]
fn unusable_packets_change_nothing() {
    let mut state = UdpRelayState::new();
    assert!(state.handle_game_packet(&[], HOST, 1).is_empty());
    assert!(state.handle_game_packet(&[5, b'a'], HOST, 1).is_empty());
    assert!(state.handle_game_packet(&[1, b'a', 2, b'p'], HOST, 1).is_empty());
    assert!(state.handle_game_packet(&[1, b'a', 1, b'p', 1, 2, 3], HOST, 1).is_empty());
    assert!(state.packet_cache.is_empty());
    let unknown = state.handle_game_packet(&pack_packet("room", "pw", b"PING"), HOST, 1);
    assert!(unknown.is_empty());
    assert_eq!(state.packet_cache.len(), 1);
    assert!(state.rooms.is_empty());
}

#[test]
fn cleanup_forgets_old_packets_and_silent_peers() {
    let mut state = UdpRelayState::new();
    state.handle_game_packet(&pack_packet("room", "pw", b"REGH"), HOST, 0);
    state.handle_game_packet(&pack_packet("room", "pw", b"REGC"), MEMBER, 30 * SECOND);
    state.handle_game_packet(&pack_packet("solo", "pw", b"REGCsolo"), OTHER, 0);

    state.cleanup(4 * SECOND);
    assert_eq!(state.packet_cache.len(), 3);
    state.cleanup(PACKET_TIMEOUT_NS);
    assert_eq!(state.packet_cache.len(), 1);
    assert_eq!(state.packet_cache[0].at, 30 * SECOND);

    state.cleanup(PEER_TIMEOUT_NS);
    let room = room_named(&state, "room").expect("room");
    assert!(room.host.is_some());
    assert_eq!(room.clients.len(), 1);
    assert!(room_named(&state, "solo").is_none());

    state.cleanup(PEER_TIMEOUT_NS + 1);
    let room = room_named(&state, "room").expect("room");
    assert!(room.host.is_none());
    assert_eq!(room.clients.len(), 1);

    state.cleanup(30 * SECOND + PEER_TIMEOUT_NS);
    assert!(room_named(&state, "room").is_none());
}

#[test]
fn cleanup_keeps_recent_stamps_in_order() {
    let mut state = UdpRelayState::new();
    state.packet_cache.push(PacketStamp { checksum: 1, at: 10 });
    state.packet_cache.push(PacketStamp { checksum: 2, at: 10 * SECOND });
    state.packet_cache.push(PacketStamp { checksum: 3, at: 9 * SECOND });
    state.cleanup(12 * SECOND);
    let sums: Vec<u64> = state.packet_cache.iter().map(|s| s.checksum).collect();
    assert_eq!(sums, vec![2, 3]);
}

#[test]
fn cleanup_keeps_member_order() {
    let mut state = UdpRelayState::new();
    let member = |addr: &str, at: u64| UdpClient {
        addr: addr.to_string(),
        role: "client".to_string(),
        room: "r".to_string(),
        password: "pw".to_string(),
        last_seen: at,
    };
    state.rooms.push(UdpRoom {
        name: "r".to_string(),
        host: None,
        host_relay_id: Some("relay-9".to_string()),
        clients: vec![member("a", 70 * SECOND), member("b", 0), member("c", 65 * SECOND)],
    });
    state.cleanup(100 * SECOND);
    let room = room_named(&state, "r").expect("room");
    let addrs: Vec<&str> = room.clients.iter().map(|c| c.addr.as_str()).collect();
    assert_eq!(addrs, vec!["a", "c"]);
    assert_eq!(room.host_relay_id, Some("relay-9".to_string()));
}
