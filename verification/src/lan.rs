//! Minecraft LAN announcements: `[MOTD]<motd>[/MOTD][AD]<port>[/AD]`, sent
//! to the multicast group that Minecraft listens on.
use crate::protocol::append_bytes;
use crate::text::{
    bracket_tag, contains, contains_bytes, decimal, decimal_bytes, find_bytes, find_index,
    is_digit, is_valid_utf8, lemma_ascii_valid_utf8, lemma_decimal_digits, lemma_tag_found_after,
    lemma_tag_not_in_join, lemma_tag_not_in_plain, lemma_tag_not_in_tagged,
    lemma_u16_decimal_roundtrip, lossy_string, parse_u16, parsed_u16, utf8_lossy,
};
use vstd::prelude::*;
use vstd::string::StringSliceAdditionalSpecFns;
use vstd::utf8::{decode_utf8, encode_utf8, valid_utf8};

verus! {

/// The multicast port of Minecraft LAN announcements.
pub const MULTICAST_PORT: u16 = 4445;

/// A Minecraft world open to LAN, as its announcement describes it.
#[derive(Debug, Clone)]
pub struct LanServer {
    pub motd: String,
    pub port: u16,
}

/// `[MOTD]`
pub open spec fn motd_open() -> Seq<u8> {
    seq![0x5Bu8, 0x4D, 0x4F, 0x54, 0x44, 0x5D]
}

/// `[/MOTD]`
pub open spec fn motd_close() -> Seq<u8> {
    seq![0x5Bu8, 0x2F, 0x4D, 0x4F, 0x54, 0x44, 0x5D]
}

/// `[AD]`
pub open spec fn ad_open() -> Seq<u8> {
    seq![0x5Bu8, 0x41, 0x44, 0x5D]
}

/// `[/AD]`
pub open spec fn ad_close() -> Seq<u8> {
    seq![0x5Bu8, 0x2F, 0x41, 0x44, 0x5D]
}

fn motd_open_tag() -> (t: Vec<u8>)
    ensures
        t@ == motd_open(),
{
    vec![0x5Bu8, 0x4D, 0x4F, 0x54, 0x44, 0x5D]
}

fn motd_close_tag() -> (t: Vec<u8>)
    ensures
        t@ == motd_close(),
{
    vec![0x5Bu8, 0x2F, 0x4D, 0x4F, 0x54, 0x44, 0x5D]
}

fn ad_open_tag() -> (t: Vec<u8>)
    ensures
        t@ == ad_open(),
{
    vec![0x5Bu8, 0x41, 0x44, 0x5D]
}

fn ad_close_tag() -> (t: Vec<u8>)
    ensures
        t@ == ad_close(),
{
    vec![0x5Bu8, 0x2F, 0x41, 0x44, 0x5D]
}

/// The text between the first `start` and the first `end` of `s`; empty when
/// either does not occur.
pub open spec fn tag_text(s: Seq<u8>, start: Seq<u8>, end: Seq<u8>) -> Seq<u8> {
    match (find_index(s, start), find_index(s, end)) {
        (Some(a), Some(b)) => s.subrange(a + start.len(), b),
        _ => Seq::empty(),
    }
}

/// The first `end` does not begin before the first `start` is over (slicing
/// between them would fail otherwise).
pub open spec fn tags_in_order(s: Seq<u8>, start: Seq<u8>, end: Seq<u8>) -> bool {
    match (find_index(s, start), find_index(s, end)) {
        (Some(a), Some(b)) => a + start.len() <= b,
        _ => true,
    }
}

/// The text between the first `start` tag and the first `end` tag of `s`.
pub fn extract_tag(s: &[u8], start: &[u8], end: &[u8]) -> (text: Vec<u8>)
    requires
        tags_in_order(s@, start@, end@),
    ensures
        text@ == tag_text(s@, start@, end@),
{
    if let Some(start_pos) = find_bytes(s, start) {
        if let Some(end_pos) = find_bytes(s, end) {
            let from = start_pos + start.len();
            let part = vstd::slice::slice_subrange(s, from, end_pos);
            return vstd::slice::slice_to_vec(part);
        }
    }
    Vec::new()
}

/// A datagram that the LAN scanner would slice: valid UTF-8 holding both `[MOTD]`
/// and `[AD]`.
pub open spec fn announcement_candidate(data: Seq<u8>) -> bool {
    valid_utf8(data) && contains(data, motd_open()) && contains(data, ad_open())
}

/// The server that a LAN datagram announces: the datagram is valid UTF-8, holds
/// `[MOTD]` and `[AD]`, and the text of the `AD` tag is a port number.
pub open spec fn announced_port(data: Seq<u8>) -> Option<u16> {
    if announcement_candidate(data) {
        parsed_u16(tag_text(data, ad_open(), ad_close()))
    } else {
        None
    }
}

/// Reads one LAN datagram: the server it announces, `None` when it announces none.
pub fn parse_lan_announcement(data: &[u8]) -> (res: Option<LanServer>)
    requires
        announcement_candidate(data@) ==> tags_in_order(data@, motd_open(), motd_close())
            && tags_in_order(data@, ad_open(), ad_close()),
    ensures
        match res {
            Some(server) => announced_port(data@) == Some(server.port) && server.motd@
                == utf8_lossy(tag_text(data@, motd_open(), motd_close())) && (valid_utf8(
                tag_text(data@, motd_open(), motd_close()),
            ) ==> server.motd@ == decode_utf8(tag_text(data@, motd_open(), motd_close()))),
            None => announced_port(data@) is None,
        },
{
    if !is_valid_utf8(data) {
        return None;
    }
    let mo = motd_open_tag();
    let mc = motd_close_tag();
    let ao = ad_open_tag();
    let ac = ad_close_tag();
    if !(contains_bytes(data, mo.as_slice()) && contains_bytes(data, ao.as_slice())) {
        return None;
    }
    let motd = extract_tag(data, mo.as_slice(), mc.as_slice());
    let port_text = extract_tag(data, ao.as_slice(), ac.as_slice());
    match parse_u16(port_text.as_slice()) {
        Some(port) => Some(LanServer { motd: lossy_string(motd.as_slice()), port }),
        None => None,
    }
}

/// Whether the tags of a datagram that the scanner would slice are in order,
/// so that `parse_lan_announcement` may be called on it.
pub fn announcement_sliceable(data: &[u8]) -> (ok: bool)
    ensures
        ok == (announcement_candidate(data@) ==> tags_in_order(data@, motd_open(), motd_close())
            && tags_in_order(data@, ad_open(), ad_close())),
{
    if !is_valid_utf8(data) {
        return true;
    }
    let mo = motd_open_tag();
    let mc = motd_close_tag();
    let ao = ad_open_tag();
    let ac = ad_close_tag();
    if !(contains_bytes(data, mo.as_slice()) && contains_bytes(data, ao.as_slice())) {
        return true;
    }
    tags_ordered(data, mo.as_slice(), mc.as_slice()) && tags_ordered(
        data,
        ao.as_slice(),
        ac.as_slice(),
    )
}

fn tags_ordered(s: &[u8], start: &[u8], end: &[u8]) -> (ok: bool)
    ensures
        ok == tags_in_order(s@, start@, end@),
{
    match (find_bytes(s, start), find_bytes(s, end)) {
        (Some(a), Some(b)) => a as u128 + start.len() as u128 <= b as u128,
        _ => true,
    }
}

/// The announcement of a world: `[MOTD]<motd>[/MOTD][AD]<port>[/AD]`.
pub open spec fn announcement(motd: Seq<u8>, port: u16) -> Seq<u8> {
    motd_open() + motd + motd_close() + ad_open() + decimal(port as nat) + ad_close()
}

/// The datagram that announces a world on the LAN.
pub fn lan_announcement(motd: &str, port: u16) -> (message: Vec<u8>)
    ensures
        message@ == announcement(motd.spec_bytes(), port),
{
    let mut message = motd_open_tag();
    append_bytes(&mut message, motd.as_bytes());
    let mc = motd_close_tag();
    append_bytes(&mut message, mc.as_slice());
    let ao = ad_open_tag();
    append_bytes(&mut message, ao.as_slice());
    let digits = decimal_bytes(port as u64);
    append_bytes(&mut message, digits.as_slice());
    let ac = ad_close_tag();
    append_bytes(&mut message, ac.as_slice());
    message
}

/// A world's announcement reads back as that world: it is a datagram the
/// scanner takes, its tags are in order, its port is the world's port, and
/// the text of its `MOTD` tag decodes to the message of the day, when that
/// message does not itself hold `[/MOTD]`, `[AD]` or `[/AD]`.
pub proof fn lemma_announcement_roundtrip(motd: Seq<char>, port: u16)
    requires
        !contains(encode_utf8(motd), motd_close()),
        !contains(encode_utf8(motd), ad_open()),
        !contains(encode_utf8(motd), ad_close()),
    ensures
        ({
            let data = announcement(encode_utf8(motd), port);
            &&& announcement_candidate(data)
            &&& tags_in_order(data, motd_open(), motd_close())
            &&& tags_in_order(data, ad_open(), ad_close())
            &&& announced_port(data) == Some(port)
            &&& valid_utf8(tag_text(data, motd_open(), motd_close()))
            &&& decode_utf8(tag_text(data, motd_open(), motd_close())) == motd
        }),
{
    let m = encode_utf8(motd);
    let d = decimal(port as nat);
    let o = motd_open();
    let c = motd_close();
    let a = ad_open();
    let e = ad_close();
    let data = announcement(m, port);
    assert(bracket_tag(o) && bracket_tag(c) && bracket_tag(a) && bracket_tag(e));
    lemma_decimal_digits(port as nat);
    assert forall|i: int| 0 <= i < d.len() implies d[i] != 0x5B && d[i] < 0x80 by {
        assert(is_digit(d[i]));
    }
    let empty = Seq::<u8>::empty();
    assert(!contains(empty, o)) by {
        lemma_tag_not_in_plain(empty, o);
    }
    // [MOTD] at 0
    assert(data =~= empty + o + (m + c + a + d + e));
    lemma_tag_found_after(empty, o, m + c + a + d + e);
    // [/MOTD] right after the message
    lemma_tag_not_in_tagged(o, m, c, 1);
    assert(data =~= (o + m) + c + (a + d + e));
    lemma_tag_found_after(o + m, c, a + d + e);
    // [AD] right after [/MOTD]
    assert(!contains(empty, a)) by {
        lemma_tag_not_in_plain(empty, a);
    }
    lemma_tag_not_in_tagged(c, empty, a, 1);
    assert(c + empty =~= c);
    lemma_tag_not_in_join(m, c, a);
    lemma_tag_not_in_tagged(o, m + c, a, 1);
    assert(data =~= (o + (m + c)) + a + (d + e));
    lemma_tag_found_after(o + (m + c), a, d + e);
    // [/AD] right after the digits
    lemma_tag_not_in_plain(d, e);
    lemma_tag_not_in_tagged(a, d, e, 1);
    lemma_tag_not_in_tagged(c, a + d, e, 2);
    lemma_tag_not_in_join(m, c + (a + d), e);
    lemma_tag_not_in_tagged(o, m + (c + (a + d)), e, 1);
    assert(data =~= (o + (m + (c + (a + d)))) + e + empty);
    lemma_tag_found_after(o + (m + (c + (a + d))), e, empty);
    // the pieces
    let k = o.len() + m.len();
    assert(tag_text(data, o, c) =~= m);
    assert(tag_text(data, a, e) =~= d);
    lemma_u16_decimal_roundtrip(port);
    // valid UTF-8
    vstd::utf8::encode_utf8_valid_utf8(motd);
    vstd::utf8::encode_utf8_decode_utf8(motd);
    lemma_ascii_valid_utf8(o);
    lemma_ascii_valid_utf8(c);
    lemma_ascii_valid_utf8(a);
    lemma_ascii_valid_utf8(d);
    lemma_ascii_valid_utf8(e);
    vstd::utf8::valid_utf8_concat(o, m);
    vstd::utf8::valid_utf8_concat(o + m, c);
    vstd::utf8::valid_utf8_concat(o + m + c, a);
    vstd::utf8::valid_utf8_concat(o + m + c + a, d);
    vstd::utf8::valid_utf8_concat(o + m + c + a + d, e);
    assert(find_index(data, o) == Some(0int));
    assert(contains(data, o)) by {
        assert(data.subrange(0, o.len() as int) =~= o);
        assert(crate::text::occurs_at(data, o, 0));
    }
    assert(contains(data, a)) by {
        assert(data.subrange((k + c.len()) as int, (k + c.len() + a.len()) as int) =~= a);
        assert(crate::text::occurs_at(data, a, (k + c.len()) as int));
    }
}

/// The ports of a list of servers are distinct.
pub open spec fn ports_distinct(servers: Seq<LanServer>) -> bool {
    forall|i: int, j: int| 0 <= i < j < servers.len() ==> servers[i].port != servers[j].port
}

/// Records a scanned server: a later announcement for a port replaces the
/// earlier one, so each port is listed once.
pub fn record_lan_server(servers: &mut Vec<LanServer>, server: LanServer)
    requires
        ports_distinct(old(servers)@),
    ensures
        ports_distinct(final(servers)@),
        (exists|i: int|
            0 <= i < old(servers)@.len() && old(servers)@[i].port == server.port && final(servers)@ == old(
                servers,
            )@.update(i, server)) || ((forall|i: int|
            0 <= i < old(servers)@.len() ==> old(servers)@[i].port != server.port) && final(servers)@
            == old(servers)@.push(server)),
        exists|i: int| 0 <= i < final(servers)@.len() && final(servers)@[i] == server,
        forall|i: int|
            0 <= i < old(servers)@.len() && old(servers)@[i].port != server.port ==> exists|j: int|
                0 <= j < final(servers)@.len() && final(servers)@[j] == old(servers)@[i],
        forall|j: int|
            0 <= j < final(servers)@.len() ==> final(servers)@[j] == server || exists|i: int|
                0 <= i < old(servers)@.len() && old(servers)@[i] == final(servers)@[j],
{
    let mut i: usize = 0;
    while i < servers.len()
        invariant
            i <= servers@.len(),
            servers@ == old(servers)@,
            ports_distinct(old(servers)@),
            forall|j: int| 0 <= j < i ==> servers@[j].port != server.port,
        decreases servers@.len() - i,
    {
        if servers[i].port == server.port {
            let ghost before = servers@;
            servers.set(i, server);
            proof {
                assert(servers@[i as int] == server);
                assert forall|a: int, b: int| 0 <= a < b < servers@.len() implies servers@[a].port
                    != servers@[b].port by {
                    assert(before[i as int].port == server.port);
                    if a != i && b != i {
                        assert(servers@[a] == before[a] && servers@[b] == before[b]);
                    } else if a == i {
                        assert(servers@[b] == before[b]);
                    } else {
                        assert(servers@[a] == before[a]);
                    }
                }
                assert forall|a: int|
                    0 <= a < before.len() && before[a].port != server.port implies exists|j: int|
                    0 <= j < servers@.len() && servers@[j] == before[a] by {
                    assert(servers@[a] == before[a]);
                }
                assert forall|j: int| 0 <= j < servers@.len() implies servers@[j] == server
                    || exists|a: int| 0 <= a < before.len() && before[a] == servers@[j] by {
                    if j != i {
                        assert(before[j] == servers@[j]);
                    }
                }
            }
            return;
        }
        i = i + 1;
    }
    let ghost before = servers@;
    servers.push(server);
    proof {
        assert(servers@[before.len() as int] == server);
        assert forall|a: int|
            0 <= a < before.len() && before[a].port != server.port implies exists|j: int|
            0 <= j < servers@.len() && servers@[j] == before[a] by {
            assert(servers@[a] == before[a]);
        }
        assert forall|j: int| 0 <= j < servers@.len() implies servers@[j] == server || exists|a: int|
            0 <= a < before.len() && before[a] == servers@[j] by {
            if j < before.len() {
                assert(before[j] == servers@[j]);
            }
        }
    }
}

} // verus!
