use mc_link::central::RelayInfo;
use mc_link::commands::{
    probe_step, PortProbe,
    hosts_room, ip_info_error_text, lan_world, listed_relay, relay_selection, shown_error, RelaySelection,
};
use mc_link::lan::LanServer;
use mc_link::latency::{fastest_relay_index, select_best_relay, RelayWithLatency};
use mc_link::proxy::{has_proxy_signature, parse_proxy_protocol_v2, proxy_payload_len};
use mc_link::routing::{select_optimal_relay_chain, LatencyLink, RelayNode, RelayTopology};
use mc_link::state::{AppState, LATENCY_UNREACHABLE_MS};

fn s(x: &str) -> String {
    x.to_string()
}

fn link(from: &str, to: &str, ms: u64) -> LatencyLink {
    LatencyLink { from: s(from), to: s(to), latency_ms: ms }
}

fn topology() -> RelayTopology {
    RelayTopology {
        relays: vec![
            RelayNode { id: s("a"), address: s("a.example:7000") },
            RelayNode { id: s("b"), address: s("b.example:7000") },
            RelayNode { id: s("c"), address: s("c.example:7000") },
            RelayNode { id: s("b"), address: s("b2.example:7000") },
        ],
        latency_matrix: vec![link("a", "b", 10), link("b", "c", 15), link("a", "c", 40), link("c", "a", 1)],
    }
}

fn relay(id: &str, ms: Option<u64>) -> RelayWithLatency {
    RelayWithLatency { id: s(id), name: s(id), address: format!("{}:7000", id), latency_ms: ms }
}

#[test]
fn best_path_takes_cheapest_chain() {
    let t = topology();
    assert_eq!(t.find_best_path("a", "c"), Some((vec![s("a"), s("b"), s("c")], 25)));
    assert_eq!(t.find_best_path("a", "a"), Some((vec![s("a")], 0)));
    assert_eq!(t.find_best_path("c", "b"), Some((vec![s("c"), s("a"), s("b")], 11)));
    assert_eq!(t.find_best_path("b", "zzz"), None);
    assert_eq!(t.find_best_path("zzz", "a"), None);
    assert_eq!(select_optimal_relay_chain(&t, "a", "c"), t.find_best_path("a", "c"));
}

#[test]
fn best_path_prefers_direct_when_cheaper() {
    let t = RelayTopology {
        relays: vec![],
        latency_matrix: vec![link("x", "y", 5), link("y", "z", 5), link("x", "z", 9)],
    };
    assert_eq!(t.find_best_path("x", "z"), Some((vec![s("x"), s("z")], 9)));
}

#[test]
fn relay_address_of_first_match() {
    let t = topology();
    assert_eq!(t.get_relay_address("b"), Some(s("b.example:7000")));
    assert_eq!(t.get_relay_address("c"), Some(s("c.example:7000")));
    assert_eq!(t.get_relay_address("q"), None);
}

#[test]
fn fastest_relay_is_first_with_lowest_latency() {
    let relays = vec![relay("a", None), relay("b", Some(30)), relay("c", Some(12)), relay("d", Some(12))];
    assert_eq!(fastest_relay_index(&relays), Some(2));
    assert_eq!(select_best_relay(&relays).map(|r| r.id.clone()), Some(s("c")));
    assert_eq!(fastest_relay_index(&[relay("a", None)]), None);
    assert!(select_best_relay(&[]).is_none());
}

#[test]
fn session_state_transitions() {
    let mut st = AppState::new();
    assert!(st.can_start());
    st.mark_online(s("room"), s("pw"));
    assert!(!st.can_start());
    assert_eq!(st.record_ping(Some(42)), 42);
    assert_eq!(st.latency_ms, 42);
    assert_eq!(st.record_ping(None), LATENCY_UNREACHABLE_MS);
    assert_eq!(st.latency_ms, 999);
    assert_eq!(st.stop(), Some(s("room")));
    assert!(st.can_start());
    assert_eq!(st.latency_ms, 0);
    assert!(st.current_room.is_none());
    assert_eq!(st.stop(), None);
    st.mark_online(s("r2"), s("p"));
    st.record_ping(Some(7));
    st.worker_finished();
    assert!(!st.is_running);
    assert!(st.current_room.is_none());
    assert_eq!(st.latency_ms, 7);
    st.monitor_stopped();
    assert_eq!(st.latency_ms, 0);
}

#[test]
fn relay_selection_modes() {
    assert_eq!(relay_selection("__auto__"), RelaySelection::Auto);
    assert_eq!(relay_selection(""), RelaySelection::Auto);
    assert_eq!(relay_selection("1.2.3.4:7000"), RelaySelection::Custom);
    assert_eq!(relay_selection("relay-1"), RelaySelection::ById);
}

#[test]
fn listed_relay_lookup() {
    let relays = vec![
        RelayInfo { id: s("r1"), name: s("One"), address: s("1.1.1.1:7000") },
        RelayInfo { id: s("r2"), name: s("Two"), address: s("2.2.2.2:7000") },
    ];
    assert_eq!(listed_relay(&relays, &RelaySelection::Auto, "__auto__"), Some(0));
    assert_eq!(listed_relay(&[], &RelaySelection::Auto, ""), None);
    assert_eq!(listed_relay(&relays, &RelaySelection::ById, "r2"), Some(1));
    assert_eq!(listed_relay(&relays, &RelaySelection::ById, "r9"), None);
    assert_eq!(listed_relay(&relays, &RelaySelection::Custom, "1.1.1.1:7000"), None);
}

#[test]
fn host_when_room_missing() {
    assert!(hosts_room(false));
    assert!(!hosts_room(true));
}

#[test]
fn lan_world_picks_first_server() {
    let servers = vec![
        LanServer { motd: s("World"), port: 51234 },
        LanServer { motd: s("Other"), port: 40000 },
    ];
    assert_eq!(lan_world(&servers), Some((51234, s("World"))));
    assert_eq!(lan_world(&[]), None);
    assert_eq!(lan_world(&[LanServer { motd: s("x"), port: 0 }]), None);
}

fn proxy_v4() -> Vec<u8> {
    let mut h = vec![0x0D, 0x0A, 0x0D, 0x0A, 0x00, 0x0D, 0x0A, 0x51, 0x55, 0x49, 0x54, 0x0A];
    h.extend_from_slice(&[0x21, 0x11, 0x00, 0x0C]);
    h.extend_from_slice(&[192, 168, 0, 1, 10, 0, 0, 2]);
    h.extend_from_slice(&[0x1F, 0x90, 0x63, 0xDD]);
    h
}

#[test]
fn proxy_header_v4() {
    let h = proxy_v4();
    assert!(has_proxy_signature(&h));
    assert_eq!(proxy_payload_len(&h[..16]), 12);
    let parsed = parse_proxy_protocol_v2(&h).expect("header");
    assert_eq!(parsed.src_addr.ip, vec![192, 168, 0, 1]);
    assert_eq!(parsed.src_addr.port, 8080);
    assert_eq!(parsed.dst_addr.ip, vec![10, 0, 0, 2]);
    assert_eq!(parsed.dst_addr.port, 25565);
}

#[test]
fn proxy_header_v6() {
    let mut h = vec![0x0D, 0x0A, 0x0D, 0x0A, 0x00, 0x0D, 0x0A, 0x51, 0x55, 0x49, 0x54, 0x0A];
    h.extend_from_slice(&[0x21, 0x21, 0x00, 36]);
    let src: Vec<u8> = (1..=16).collect();
    let dst: Vec<u8> = (17..=32).collect();
    h.extend_from_slice(&src);
    h.extend_from_slice(&dst);
    h.extend_from_slice(&[0x00, 0x50, 0x01, 0xBB]);
    let parsed = parse_proxy_protocol_v2(&h).expect("header");
    assert_eq!(parsed.src_addr.ip, src);
    assert_eq!(parsed.src_addr.port, 80);
    assert_eq!(parsed.dst_addr.ip, dst);
    assert_eq!(parsed.dst_addr.port, 443);
}

#[test]
fn proxy_header_rejections() {
    assert!(!has_proxy_signature(b"GET / HTTP/1.1\r\n"));
    assert!(parse_proxy_protocol_v2(b"short").is_none());
    let mut v1 = proxy_v4();
    v1[12] = 0x11;
    assert!(parse_proxy_protocol_v2(&v1).is_none());
    let mut udp = proxy_v4();
    udp[13] = 0x12;
    assert!(parse_proxy_protocol_v2(&udp).is_none());
    let mut unspec = proxy_v4();
    unspec[13] = 0x01;
    assert!(parse_proxy_protocol_v2(&unspec).is_none());
    let mut small = proxy_v4();
    small[15] = 4;
    small.truncate(20);
    assert!(parse_proxy_protocol_v2(&small).is_none());
}

#[test]
fn ip_info_errors_show_json_message() {
    assert_eq!(ip_info_error_text("{\"message\":\"quota exceeded\"}"), "quota exceeded");
    assert_eq!(ip_info_error_text("{\"code\":429}"), "{\"code\":429}");
    assert_eq!(ip_info_error_text("{\"message\":7}"), "{\"message\":7}");
    assert_eq!(ip_info_error_text("connection refused"), "connection refused");
    assert_eq!(shown_error("raw", Some(s("nice"))), "nice");
    assert_eq!(shown_error("raw", None), "raw");
}

#[test]
fn best_path_visits_no_relay_twice() {
    let t = RelayTopology {
        relays: vec![],
        latency_matrix: vec![link("x", "y", 0), link("y", "x", 0), link("y", "z", 0), link("z", "x", 0)],
    };
    assert_eq!(t.find_best_path("x", "z"), Some((vec![s("x"), s("y"), s("z")], 0)));
    assert_eq!(t.find_best_path("z", "y"), Some((vec![s("z"), s("x"), s("y")], 0)));
}

#[test]
fn port_search_steps() {
    assert_eq!(probe_step(25565, true), PortProbe::Listen(25565));
    assert_eq!(probe_step(25565, false), PortProbe::Try(25566));
    assert_eq!(probe_step(65534, false), PortProbe::Try(65535));
    assert_eq!(probe_step(65535, false), PortProbe::GiveUp);
    assert_eq!(probe_step(65535, true), PortProbe::Listen(65535));
}

#[test]
fn equally_fast_routes_are_chosen_by_hops_then_link_order() {
    let t = RelayTopology {
        relays: vec![],
        latency_matrix: vec![link("a", "b", 5), link("b", "d", 5), link("a", "c", 5), link("c", "d", 5)],
    };
    assert_eq!(t.find_best_path("a", "d"), Some((vec![s("a"), s("b"), s("d")], 10)));
    assert_eq!(select_optimal_relay_chain(&t, "a", "d"), t.find_best_path("a", "d"));
    let direct = RelayTopology {
        relays: vec![],
        latency_matrix: vec![link("a", "b", 5), link("b", "d", 5), link("a", "d", 10)],
    };
    assert_eq!(direct.find_best_path("a", "d"), Some((vec![s("a"), s("d")], 10)));
}
