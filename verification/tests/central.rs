use mc_link::central::{
    central_request, central_server_setting, created_room_body, is_register_ack, reply_body,
    room_deleted, RoomInfo, CMD_GET_RELAYS, REPLY_RELAYS,
};
use mc_link::central_server::{CentralRegistry, HEARTBEAT_TIMEOUT_SECS, ROOM_LIFETIME_SECS};
use mc_link::room_paths::{pair_with_picks, PathBook, PathHop};

fn s(x: &str) -> String {
    x.to_string()
}

fn hop(id: &str) -> PathHop {
    PathHop { node_id: s(id), address: format!("{}.example:7000", id) }
}

#[test]
fn request_and_reply_framing() {
    assert_eq!(central_request(CMD_GET_RELAYS, b""), vec![0x12]);
    assert_eq!(central_request(0x20, b"{}"), vec![0x20, b'{', b'}']);
    assert_eq!(reply_body(&[REPLY_RELAYS, b'[', b']'], REPLY_RELAYS), Some(b"[]".to_vec()));
    assert_eq!(reply_body(&[0x99, b'['], REPLY_RELAYS), None);
    assert_eq!(reply_body(&[], REPLY_RELAYS), None);
    assert_eq!(created_room_body(&[0x21, 0x00, b'{', b'}']), Some(b"{}".to_vec()));
    assert_eq!(created_room_body(&[0x21, 0x01]), None);
    assert_eq!(created_room_body(&[0x21]), None);
    assert!(room_deleted(&[0x25, 0x00]));
    assert!(!room_deleted(&[0x25, 0x01]));
    assert!(!room_deleted(&[0x25]));
    assert!(is_register_ack(&[0x10, 0x00]));
    assert!(!is_register_ack(&[0x10, 0x01]));
}

#[test]
fn room_lifecycle_at_central_server() {
    let mut reg = CentralRegistry::new();
    let room = reg.create_room(s("lobby"), s("pw"), s("relay-1"), 1000).expect("created");
    assert_eq!(room.name, "lobby");
    assert_eq!(room.password_hash, "pw");
    assert_eq!(room.host_relay_id, "relay-1");
    assert_eq!(room.created_at, 1000);
    assert!(reg.create_room(s("lobby"), s("other"), s("relay-2"), 2000).is_none());
    let found: RoomInfo = reg.get_room(&s("lobby")).expect("found");
    assert_eq!(found.password_hash, "pw");
    assert!(reg.get_room(&s("nope")).is_none());
    assert!(reg.delete_room(&s("lobby")));
    assert!(!reg.delete_room(&s("lobby")));
    assert!(reg.get_room(&s("lobby")).is_none());
}

#[test]
fn rooms_expire_after_a_day() {
    let mut reg = CentralRegistry::new();
    reg.create_room(s("old"), s("p"), s("r"), 0);
    reg.create_room(s("new"), s("p"), s("r"), 1000);
    let removed = reg.expire_rooms(ROOM_LIFETIME_SECS);
    assert_eq!(removed, 1);
    assert!(reg.get_room(&s("old")).is_none());
    assert!(reg.get_room(&s("new")).is_some());
    assert_eq!(reg.expire_rooms(ROOM_LIFETIME_SECS + 999), 0);
    assert_eq!(reg.expire_rooms(ROOM_LIFETIME_SECS + 1000), 1);
}

#[test]
fn relays_register_beat_and_expire() {
    let mut reg = CentralRegistry::new();
    reg.register_relay(s("a"), s("A"), s("1.1.1.1:7000"), s("9.9.9.9:1"), 100);
    reg.register_relay(s("b"), s("B"), s("2.2.2.2:7000"), s("9.9.9.9:2"), 100);
    assert!(reg.has_relay(&s("a")));
    assert!(reg.heartbeat(&s("a"), 200));
    assert!(!reg.heartbeat(&s("zzz"), 200));
    let list = reg.relay_list();
    assert_eq!(list.len(), 2);
    assert_eq!(list[0].last_seen, 200);
    assert_eq!(list[1].last_seen, 100);
    let dead = reg.expire_relays(100 + HEARTBEAT_TIMEOUT_SECS + 1);
    assert_eq!(dead, vec![s("b")]);
    assert!(reg.has_relay(&s("a")));
    assert!(!reg.has_relay(&s("b")));
    assert!(reg.expire_relays(200 + HEARTBEAT_TIMEOUT_SECS).is_empty());
}

#[test]
fn relay_registration_replaces_by_id() {
    let mut reg = CentralRegistry::new();
    reg.register_relay(s("a"), s("A"), s("1.1.1.1:7000"), s("peer1"), 1);
    reg.register_relay(s("a"), s("A2"), s("3.3.3.3:7000"), s("peer2"), 2);
    let list = reg.relay_list();
    assert_eq!(list.len(), 1);
    assert_eq!(list[0].name, "A2");
    assert_eq!(list[0].address, "3.3.3.3:7000");
}

#[test]
fn disconnect_removes_relay_of_connection() {
    let mut reg = CentralRegistry::new();
    reg.register_relay(s("a"), s("A"), s("1.1.1.1:7000"), s("peer1"), 1);
    assert!(reg.disconnect(&s("unknown")).is_none());
    let gone = reg.disconnect(&s("peer1")).expect("relay");
    assert_eq!(gone.id, "a");
    assert!(!reg.has_relay(&s("a")));
    assert!(reg.disconnect(&s("peer1")).is_none());
}

#[test]
fn latency_reports_average_last_ten() {
    let mut reg = CentralRegistry::new();
    assert_eq!(CentralRegistry::latency_key_of("a", "b"), "a->b");
    for ms in [10u64, 20, 30] {
        assert!(reg.latency_sample_fits("a", "b", ms));
        reg.record_latency("a", "b", ms);
    }
    assert_eq!(reg.latency_matrix(), vec![(s("a"), s("b"), 20)]);
    for _ in 0..10 {
        reg.record_latency("a", "b", 5);
    }
    assert_eq!(reg.latency_matrix(), vec![(s("a"), s("b"), 5)]);
    reg.record_latency("a", "b", 16);
    assert_eq!(reg.latencies[0].samples.len(), 10);
    assert_eq!(reg.latency_matrix(), vec![(s("a"), s("b"), 6)]);
    assert!(!reg.latency_sample_fits("a", "b", u64::MAX));
}

#[test]
fn latency_matrix_drops_ambiguous_keys() {
    let mut reg = CentralRegistry::new();
    reg.record_latency("x->y", "z", 7);
    reg.record_latency("p", "q", 9);
    reg.record_latency("c", "->d", 2);
    assert_eq!(reg.latency_matrix(), vec![(s("p"), s("q"), 9)]);
    reg.record_latency("a-", ">b", 3);
    assert_eq!(reg.latency_matrix(), vec![(s("p"), s("q"), 9), (s("a-"), s(">b"), 3)]);
}

#[test]
fn member_relay_prefers_another_relay() {
    let mut reg = CentralRegistry::new();
    assert_eq!(reg.member_relay_for("a"), "a");
    reg.register_relay(s("a"), s("A"), s("x"), s("p1"), 1);
    assert_eq!(reg.member_relay_for("a"), "a");
    reg.register_relay(s("b"), s("B"), s("y"), s("p2"), 1);
    reg.register_relay(s("c"), s("C"), s("z"), s("p3"), 1);
    assert_eq!(reg.member_relay_for("a"), "b");
    assert_eq!(reg.member_relay_for("b"), "a");
    assert_eq!(reg.relay_ids_except("b"), vec![s("a"), s("c")]);
}

#[test]
fn routes_are_stored_under_random_ids() {
    let mut book = PathBook::new();
    let id = book.assign_route("lobby", vec![hop("a"), hop("b")], 42);
    assert_eq!(id.len(), 36);
    let path = book.route_of(&s("lobby")).expect("route");
    assert_eq!(path.path_id, id);
    assert_eq!(path.total_latency_ms, 42);
    assert_eq!(path.hops.len(), 2);
    assert_eq!(path.hops[1].node_id, "b");
    let id2 = book.assign_route("lobby", vec![hop("c")], 1);
    assert_ne!(id, id2);
    assert_eq!(book.route_of(&s("lobby")).expect("route").path_id, id2);
    assert_eq!(book.paths.len(), 2);
    book.forget_room(&s("lobby"));
    assert!(book.route_of(&s("lobby")).is_none());
}

#[test]
fn reroute_plans_rooms_through_dead_relay() {
    let mut reg = CentralRegistry::new();
    reg.register_relay(s("a"), s("A"), s("x"), s("p1"), 1);
    reg.register_relay(s("b"), s("B"), s("y"), s("p2"), 1);
    reg.register_relay(s("c"), s("C"), s("z"), s("p3"), 1);
    reg.create_room(s("r1"), s("pw"), s("a"), 1);
    reg.create_room(s("r2"), s("pw"), s("c"), 1);
    let mut book = PathBook::new();
    book.assign_route("r1", vec![hop("a"), hop("b")], 10);
    book.assign_route("r2", vec![hop("c")], 0);
    book.assign_route("gone", vec![hop("b")], 0);
    assert_eq!(book.rooms_through(&reg, "b"), vec![(s("r1"), s("a"))]);
    assert!(book.rooms_through(&reg, "z").is_empty());
    let plan = book.plan_reroute(&reg, "b");
    assert_eq!(plan.len(), 1);
    assert_eq!(plan[0].0, "r1");
    assert_eq!(plan[0].1, "a");
    assert!(plan[0].2 == "a" || plan[0].2 == "c");

    let mut lonely = CentralRegistry::new();
    lonely.register_relay(s("b"), s("B"), s("y"), s("p2"), 1);
    lonely.create_room(s("r1"), s("pw"), s("b"), 1);
    assert!(book.plan_reroute(&lonely, "b").is_empty());
}

fn setting_by_lines(content: &str) -> Option<String> {
    for line in content.lines() {
        let line = line.trim();
        if let Some(value) = line.strip_prefix("central_server:") {
            let value = value.trim().trim_matches('"').trim_matches('\'');
            if !value.is_empty() {
                return Some(value.to_string());
            }
        }
    }
    None
}

#[test]
fn central_server_setting_reads_config_lines() {
    assert_eq!(
        central_server_setting("central_server: \"relay.example.com:8878\"\n"),
        Some(s("relay.example.com:8878"))
    );
    assert_eq!(central_server_setting("  central_server:   'a:1'  \r\nother: x"), Some(s("a:1")));
    assert_eq!(central_server_setting("central_server:\ncentral_server: b:2"), Some(s("b:2")));
    assert_eq!(central_server_setting("central_server: \"\""), None);
    assert_eq!(central_server_setting("# comment\nfoo: bar"), None);
    assert_eq!(central_server_setting("x central_server: a"), None);
    assert_eq!(central_server_setting(""), None);
    assert_eq!(central_server_setting("central_server:\u{3000}c:3\u{3000}"), Some(s("c:3")));
    assert_eq!(central_server_setting("central_server: '\"q\"'"), Some(s("\"q\"")));
}

#[test]
fn central_server_setting_matches_line_reading() {
    let samples = [
        "central_server: 1.2.3.4:8878",
        "a: b\n central_server : x\ncentral_server:\t\"  y:1  \"\t",
        "\n\n\ncentral_server:''\ncentral_server:z\r\n",
        "central_server:\"\"\"''\"\ncentral_server: last",
        "CENTRAL_SERVER: no\r\ncentral_server:\u{a0}ok\u{2003}",
    ];
    for sample in samples {
        assert_eq!(central_server_setting(sample), setting_by_lines(sample));
    }
}

#[test]
fn store_route_uses_given_id() {
    let mut book = PathBook::new();
    book.store_route("lobby", s("path-1"), vec![hop("a")], 3);
    let path = book.route_of(&s("lobby")).expect("route");
    assert_eq!(path.path_id, "path-1");
    assert_eq!(path.total_latency_ms, 3);
    book.store_route("other", s("path-1"), vec![hop("b"), hop("c")], 8);
    assert_eq!(book.paths.len(), 1);
    assert_eq!(book.route_of(&s("lobby")).expect("route").hops.len(), 2);
}

#[test]
fn picks_choose_the_member_relay() {
    let affected = vec![(s("r1"), s("a")), (s("r2"), s("c"))];
    let others = vec![s("x"), s("y"), s("z")];
    let plan = pair_with_picks(&affected, &others, &vec![2, 0]);
    assert_eq!(plan, vec![(s("r1"), s("a"), s("z")), (s("r2"), s("c"), s("x"))]);
    assert!(pair_with_picks(&vec![], &others, &vec![]).is_empty());
}
