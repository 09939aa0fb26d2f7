use mc_link::lan::{
    announcement_sliceable, extract_tag, lan_announcement, parse_lan_announcement,
    record_lan_server, LanServer, MULTICAST_PORT,
};
use mc_link::text::{contains_bytes, decimal_bytes, find_bytes, parse_u16, split_host_port};

#[test]
fn announcement_layout() {
    assert_eq!(
        lan_announcement("A World", 25565),
        b"[MOTD]A World[/MOTD][AD]25565[/AD]".to_vec()
    );
    assert_eq!(lan_announcement("", 0), b"[MOTD][/MOTD][AD]0[/AD]".to_vec());
    assert_eq!(MULTICAST_PORT, 4445);
}

#[test]
fn announcement_reads_back() {
    for (motd, port) in [("A World", 25565u16), ("", 1), ("世界 ✓", 65535), ("a]b[c", 80)] {
        let message = lan_announcement(motd, port);
        assert!(announcement_sliceable(&message));
        let server = parse_lan_announcement(&message).expect("announcement");
        assert_eq!(server.motd, motd);
        assert_eq!(server.port, port);
    }
}

#[test]
fn parse_rejects_non_announcements() {
    assert!(parse_lan_announcement(b"hello").is_none());
    assert!(parse_lan_announcement(b"[MOTD]x[/MOTD]").is_none());
    assert!(parse_lan_announcement(b"[MOTD]x[/MOTD][AD]port[/AD]").is_none());
    assert!(parse_lan_announcement(b"[MOTD]x[/MOTD][AD]70000[/AD]").is_none());
    assert!(parse_lan_announcement(&[0xff, b'[', b'M', b'O', b'T', b'D', b']']).is_none());
}

#[test]
fn parse_without_closing_motd_gives_empty_motd() {
    let server = parse_lan_announcement(b"[MOTD]x[AD]123[/AD]").expect("announcement");
    assert_eq!(server.motd, "");
    assert_eq!(server.port, 123);
}

#[test]
fn sliceable_spots_tags_out_of_order() {
    assert!(!announcement_sliceable(b"[/MOTD][MOTD]x[AD]1[/AD]"));
    assert!(!announcement_sliceable(b"[MOTD]x[/MOTD][/AD][AD]1"));
    assert!(announcement_sliceable(b"no tags at all"));
    assert!(announcement_sliceable(&[0xff, 0xfe]));
}

#[test]
fn extract_tag_takes_text_between_first_tags() {
    assert_eq!(extract_tag(b"a<b>c</b>d", b"<b>", b"</b>"), b"c".to_vec());
    assert_eq!(extract_tag(b"abc", b"<b>", b"</b>"), Vec::<u8>::new());
    assert_eq!(extract_tag(b"<b>c", b"<b>", b"</b>"), Vec::<u8>::new());
}

#[test]
fn record_lan_server_keeps_one_per_port() {
    let mut servers: Vec<LanServer> = Vec::new();
    record_lan_server(&mut servers, LanServer { motd: "a".to_string(), port: 1 });
    record_lan_server(&mut servers, LanServer { motd: "b".to_string(), port: 2 });
    record_lan_server(&mut servers, LanServer { motd: "c".to_string(), port: 1 });
    assert_eq!(servers.len(), 2);
    assert!(servers.iter().any(|s| s.port == 1 && s.motd == "c"));
    assert!(servers.iter().any(|s| s.port == 2 && s.motd == "b"));
}

#[test]
fn parse_u16_follows_from_str() {
    assert_eq!(parse_u16(b"0"), Some(0));
    assert_eq!(parse_u16(b"25565"), Some(25565));
    assert_eq!(parse_u16(b"+80"), Some(80));
    assert_eq!(parse_u16(b"0080"), Some(80));
    assert_eq!(parse_u16(b"65535"), Some(65535));
    assert_eq!(parse_u16(b"65536"), None);
    assert_eq!(parse_u16(b""), None);
    assert_eq!(parse_u16(b"+"), None);
    assert_eq!(parse_u16(b"-1"), None);
    assert_eq!(parse_u16(b"12a"), None);
    assert_eq!(parse_u16(b" 1"), None);
    for s in ["0", "7", "65535", "+65535", "99999", "", "x"] {
        assert_eq!(parse_u16(s.as_bytes()), s.parse::<u16>().ok());
    }
}

#[test]
fn decimal_bytes_writes_digits() {
    assert_eq!(decimal_bytes(0), b"0".to_vec());
    assert_eq!(decimal_bytes(12345), b"12345".to_vec());
    assert_eq!(decimal_bytes(u64::MAX), u64::MAX.to_string().into_bytes());
    for n in [0u16, 1, 9, 10, 4445, 65535] {
        assert_eq!(parse_u16(&decimal_bytes(n as u64)), Some(n));
    }
}

#[test]
fn find_bytes_gives_first_position() {
    assert_eq!(find_bytes(b"abcabc", b"bc"), Some(1));
    assert_eq!(find_bytes(b"abc", b""), Some(0));
    assert_eq!(find_bytes(b"abc", b"abcd"), None);
    assert_eq!(find_bytes(b"abc", b"x"), None);
    assert!(contains_bytes(b"[MOTD]x", b"[MOTD]"));
    assert!(!contains_bytes(b"[MOT", b"[MOTD]"));
}

#[test]
fn split_host_port_uses_last_colon() {
    assert_eq!(split_host_port("example.com:25565"), Some(("example.com".to_string(), 25565)));
    assert_eq!(split_host_port("[::1]:80"), Some(("[::1]".to_string(), 80)));
    assert_eq!(split_host_port("a:b:7"), Some(("a:b".to_string(), 7)));
    assert_eq!(split_host_port(":9"), Some(("".to_string(), 9)));
    assert_eq!(split_host_port("noport"), None);
    assert_eq!(split_host_port("host:abc"), None);
    assert_eq!(split_host_port("host:"), None);
    assert_eq!(split_host_port("host:70000"), None);
}

#[test]
fn motd_holding_a_closing_tag_is_cut() {
    let message = lan_announcement("a[/MOTD]b", 7);
    let server = parse_lan_announcement(&message).expect("announcement");
    assert_eq!(server.motd, "a");
    assert_eq!(server.port, 7);
}
