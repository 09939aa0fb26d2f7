//! The desktop client's built-in UDP relay: rooms with a host and members,
//! de-duplication of repeated packets, and forwarding between them.
use crate::crypto::{calculate_checksum, checksum, decrypt, decryption};
use crate::keyed::{
    has_key, keyed_map, keys_distinct, lemma_keyed_at, lemma_keyed_push, lemma_keyed_update,
    position_of_key, Keyed,
};
use crate::protocol::{
    append_bytes, bytes_equal, data_tag, msg_data, msg_regc, msg_regc_ok, msg_regh, msg_regh_ok,
    pack_packet, regc, regc_ok, regh, regh_ok, sealed_packet,
};
use crate::relay_server::{pass_field, room_field, sealed_field};
use crate::text::{lossy_string, texts_view, utf8_lossy};
use vstd::prelude::*;
use vstd::string::StringSliceAdditionalSpecFns;
use vstd::utf8::encode_utf8;

verus! {

/// Nanoseconds after which a remembered packet checksum is forgotten.
pub const PACKET_TIMEOUT_NS: u64 = 5_000_000_000;

/// Nanoseconds of silence after which a host or member is dropped.
pub const PEER_TIMEOUT_NS: u64 = 60_000_000_000;

/// A host or member of a room, with the time it registered (nanoseconds on
/// the relay's monotonic clock).
#[derive(Debug)]
pub struct UdpClient {
    pub addr: String,
    pub role: String,
    pub room: String,
    pub password: String,
    pub last_seen: u64,
}

/// A room: its host, the relay that hosts it, and its members.
#[derive(Debug)]
pub struct UdpRoom {
    pub name: String,
    pub host: Option<UdpClient>,
    pub host_relay_id: Option<String>,
    pub clients: Vec<UdpClient>,
}

/// A remembered packet checksum and when it was seen.
#[derive(Debug)]
pub struct PacketStamp {
    pub checksum: u64,
    pub at: u64,
}

impl Keyed for UdpRoom {
    open spec fn key(&self) -> Seq<char> {
        self.name@
    }

    fn key_text(&self) -> (k: &String) {
        &self.name
    }
}

/// The relay's rooms and the checksums of recent packets.
#[derive(Debug)]
pub struct UdpRelayState {
    pub rooms: Vec<UdpRoom>,
    pub packet_cache: Vec<PacketStamp>,
}

/// A room without its name: host, hosting relay, members.
pub type RoomState = (Option<UdpClient>, Option<String>, Seq<UdpClient>);

/// The state of a room, without its name.
pub open spec fn room_state(r: UdpRoom) -> RoomState {
    (r.host, r.host_relay_id, r.clients@)
}

/// The client record with these fields (compared by their text).
pub open spec fn client_is(c: UdpClient, addr: Seq<char>, role: Seq<char>, room: Seq<char>, password: Seq<char>, at: u64) -> bool {
    c.addr@ == addr && c.role@ == role && c.room@ == room && c.password@ == password && c.last_seen == at
}

/// The fields of a game packet (after the command byte) fit: a room length,
/// the room, a password length and the password.
pub open spec fn game_fields_ok(data: Seq<u8>) -> bool {
    data.len() >= 1 && data.len() >= 1 + data[0] && data.len() >= 2 + data[0] && data.len() >= 2
        + data[0] + data[1 + data[0] as int]
}

/// The addresses of the members that registered with `password`, in order.
pub open spec fn members_with_password(cs: Seq<UdpClient>, password: Seq<char>) -> Seq<Seq<char>>
    decreases cs.len(),
{
    if cs.len() == 0 {
        Seq::empty()
    } else {
        let rest = members_with_password(cs.drop_last(), password);
        if cs.last().password@ == password {
            rest.push(cs.last().addr@)
        } else {
            rest
        }
    }
}

/// Where game data from `src` for a room goes: from the host, to the members
/// that registered with the same password; from anyone else, to the host when
/// it registered with that password.
pub open spec fn data_targets(r: RoomState, src: Seq<char>, password: Seq<char>) -> Seq<Seq<char>> {
    match r.0 {
        Some(h) => if h.addr@ == src {
            members_with_password(r.2, password)
        } else if h.password@ == password {
            seq![h.addr@]
        } else {
            Seq::empty()
        },
        None => Seq::empty(),
    }
}

pub open spec fn sends_view(v: Seq<(String, Vec<u8>)>) -> Seq<(Seq<char>, Seq<u8>)> {
    Seq::new(v.len(), |i: int| (v[i].0@, v[i].1@))
}

/// The checksum was seen recently.
pub open spec fn cached(cache: Seq<PacketStamp>, sum: u64) -> bool {
    exists|i: int| 0 <= i < cache.len() && #[trigger] cache[i].checksum == sum
}

/// Time from `then` to `now`, zero when `now` is earlier.
pub open spec fn elapsed(now: u64, then: u64) -> int {
    if now >= then {
        now - then
    } else {
        0
    }
}

pub open spec fn stamp_fresh(s: PacketStamp, now: u64) -> bool {
    elapsed(now, s.at) < PACKET_TIMEOUT_NS
}

pub open spec fn client_fresh(c: UdpClient, now: u64) -> bool {
    elapsed(now, c.last_seen) < PEER_TIMEOUT_NS
}

pub open spec fn host_expired(h: UdpClient, now: u64) -> bool {
    elapsed(now, h.last_seen) > PEER_TIMEOUT_NS
}

/// A room after the periodic cleanup: a silent host is dropped, and so are
/// silent members.
pub open spec fn cleaned_room(r: RoomState, now: u64) -> RoomState {
    (
        match r.0 {
            Some(h) => if host_expired(h, now) {
                None
            } else {
                Some(h)
            },
            None => None,
        },
        r.1,
        r.2.filter(|c: UdpClient| client_fresh(c, now)),
    )
}

/// A room is kept while it has a host or a member.
pub open spec fn room_kept(r: RoomState) -> bool {
    r.0 is Some || r.2.len() > 0
}

/// The room table after `src` registered as the host of `room` with
/// `password` at `now`: the room exists (created empty if it did not), its
/// host is `src`, and nothing else changed.
pub open spec fn host_registered(
    before: Map<Seq<char>, RoomState>,
    after: Map<Seq<char>, RoomState>,
    room: Seq<char>,
    src: Seq<char>,
    password: Seq<char>,
    now: u64,
) -> bool {
    &&& after.dom() == before.dom().insert(room)
    &&& forall|k: Seq<char>| k != room && before.contains_key(k) ==> #[trigger] after[k] == before[k]
    &&& after[room].0 matches Some(h) && client_is(h, src, "host"@, room, password, now)
    &&& before.contains_key(room) ==> after[room].1 == before[room].1 && after[room].2 == before[room].2
    &&& !before.contains_key(room) ==> after[room].1 is None && after[room].2.len() == 0
}

/// The room table after `src` registered as a member of `room` with
/// `password` at `now`: the room exists (created without a host if it did
/// not), the member was added last, and nothing else changed.
pub open spec fn member_registered(
    before: Map<Seq<char>, RoomState>,
    after: Map<Seq<char>, RoomState>,
    room: Seq<char>,
    src: Seq<char>,
    password: Seq<char>,
    now: u64,
) -> bool {
    &&& after.dom() == before.dom().insert(room)
    &&& forall|k: Seq<char>| k != room && before.contains_key(k) ==> #[trigger] after[k] == before[k]
    &&& after[room].2.len() > 0
    &&& client_is(after[room].2.last(), src, "client"@, room, password, now)
    &&& before.contains_key(room) ==> after[room].0 == before[room].0 && after[room].1 == before[room].1
        && after[room].2.drop_last() == before[room].2
    &&& !before.contains_key(room) ==> after[room].0 is None && after[room].1 is None && after[room].2.len() == 1
}

/// The game packet `data` from `src` at `now` took the relay from `before`
/// to `after` and sent `sends`: it is opened under its own password; a
/// packet whose fields do not fit, that does not decrypt, or whose checksum
/// is remembered changes nothing and sends nothing; otherwise its checksum
/// is remembered and `REGH` registers the host and answers `REGH_OK`,
/// `REGC` registers a member and answers `REGC_OK`, `DATA` goes sealed
/// again to `data_targets`, and anything else is dropped.
pub open spec fn game_packet_handled(
    before: UdpRelayState,
    after: UdpRelayState,
    data: Seq<u8>,
    src: Seq<char>,
    now: u64,
    sends: Seq<(Seq<char>, Seq<u8>)>,
) -> bool {
    let unchanged = after.rooms_view() == before.rooms_view() && after.packet_cache@ == before.packet_cache@
        && sends.len() == 0;
    if !game_fields_ok(data) {
        unchanged
    } else {
        let room = utf8_lossy(room_field(data));
        let pw = utf8_lossy(pass_field(data));
        match decryption(sealed_field(data), encode_utf8(pw)) {
            None => unchanged,
            Some(m) => if cached(before.packet_cache@, checksum(m)) {
                unchanged
            } else {
                &&& after.packet_cache@.len() == before.packet_cache@.len() + 1
                &&& after.packet_cache@.drop_last() == before.packet_cache@
                &&& after.packet_cache@.last().checksum == checksum(m)
                &&& after.packet_cache@.last().at == now
                &&& if m.len() >= 4 && m.take(4) == msg_regh() {
                    &&& host_registered(before.rooms_view(), after.rooms_view(), room, src, pw, now)
                    &&& sends == seq![(src, sealed_packet(encode_utf8(room), encode_utf8(pw), msg_regh_ok()))]
                } else if m.len() >= 4 && m.take(4) == msg_regc() {
                    &&& member_registered(before.rooms_view(), after.rooms_view(), room, src, pw, now)
                    &&& sends == seq![(src, sealed_packet(encode_utf8(room), encode_utf8(pw), msg_regc_ok()))]
                } else if m.len() >= 4 && m.take(4) == msg_data() {
                    let targets = if before.rooms_view().contains_key(room) {
                        data_targets(before.rooms_view()[room], src, pw)
                    } else {
                        Seq::empty()
                    };
                    &&& after.rooms_view() == before.rooms_view()
                    &&& sends.len() == targets.len()
                    &&& forall|i: int|
                        0 <= i < sends.len() ==> #[trigger] sends[i] == (
                            targets[i],
                            sealed_packet(encode_utf8(room), encode_utf8(pw), msg_data() + m.skip(4)),
                        )
                } else {
                    after.rooms_view() == before.rooms_view() && sends.len() == 0
                }
            },
        }
    }
}

/// A packet is acted on once: handling the same datagram a second time,
/// while its checksum is still remembered, sends nothing and changes nothing.
pub proof fn lemma_repeat_ignored(
    s0: UdpRelayState,
    s1: UdpRelayState,
    s2: UdpRelayState,
    data: Seq<u8>,
    src1: Seq<char>,
    src2: Seq<char>,
    t1: u64,
    t2: u64,
    sends1: Seq<(Seq<char>, Seq<u8>)>,
    sends2: Seq<(Seq<char>, Seq<u8>)>,
)
    requires
        game_packet_handled(s0, s1, data, src1, t1, sends1),
        game_packet_handled(s1, s2, data, src2, t2, sends2),
    ensures
        sends2.len() == 0,
        s2.rooms_view() == s1.rooms_view(),
        s2.packet_cache@ == s1.packet_cache@,
{
    if game_fields_ok(data) {
        let pw = utf8_lossy(pass_field(data));
        if let Some(m) = decryption(sealed_field(data), encode_utf8(pw)) {
            if !cached(s0.packet_cache@, checksum(m)) {
                let last = (s1.packet_cache@.len() - 1) as int;
                assert(s1.packet_cache@[last].checksum == checksum(m));
            } else {
                let i = choose|i: int| 0 <= i < s0.packet_cache@.len() && #[trigger] s0.packet_cache@[i].checksum
                    == checksum(m);
                assert(s1.packet_cache@[i].checksum == checksum(m));
            }
        }
    }
}

/// A host's room carries its members' data to it: after `src_host`
/// registers as host of a room with `REGH`, a `DATA` packet for that room
/// under the same password from another address goes to the host alone.
pub proof fn lemma_member_data_reaches_host(
    s0: UdpRelayState,
    s1: UdpRelayState,
    s2: UdpRelayState,
    regh_packet: Seq<u8>,
    data_packet: Seq<u8>,
    src_host: Seq<char>,
    src_member: Seq<char>,
    t1: u64,
    t2: u64,
    sends1: Seq<(Seq<char>, Seq<u8>)>,
    sends2: Seq<(Seq<char>, Seq<u8>)>,
)
    requires
        game_fields_ok(regh_packet),
        game_fields_ok(data_packet),
        utf8_lossy(room_field(data_packet)) == utf8_lossy(room_field(regh_packet)),
        utf8_lossy(pass_field(data_packet)) == utf8_lossy(pass_field(regh_packet)),
        decryption(sealed_field(regh_packet), encode_utf8(utf8_lossy(pass_field(regh_packet)))) matches Some(m1)
            && m1.len() >= 4 && m1.take(4) == msg_regh() && !cached(s0.packet_cache@, checksum(m1)),
        decryption(sealed_field(data_packet), encode_utf8(utf8_lossy(pass_field(data_packet)))) matches Some(m2)
            && m2.len() >= 4 && m2.take(4) == msg_data() && !cached(s1.packet_cache@, checksum(m2)),
        src_member != src_host,
        game_packet_handled(s0, s1, regh_packet, src_host, t1, sends1),
        game_packet_handled(s1, s2, data_packet, src_member, t2, sends2),
    ensures
        sends2.len() == 1,
        sends2[0].0 == src_host,
{
    let room = utf8_lossy(room_field(regh_packet));
    let m1 = decryption(sealed_field(regh_packet), encode_utf8(utf8_lossy(pass_field(regh_packet))))->0;
    assert(msg_regh() != msg_regc() && msg_regh() != msg_data() && msg_regc() != msg_data()) by {
        assert(msg_regh()[3] != msg_regc()[3]);
        assert(msg_regh()[0] != msg_data()[0]);
        assert(msg_regc()[0] != msg_data()[0]);
    }
    assert(m1.take(4) != msg_data());
    let m2 = decryption(sealed_field(data_packet), encode_utf8(utf8_lossy(pass_field(data_packet))))->0;
    assert(m2.take(4) != msg_regh() && m2.take(4) != msg_regc());
    assert(s1.rooms_view().contains_key(room));
    let r = s1.rooms_view()[room];
    assert(r.0 matches Some(h) && h.addr@ == src_host);
    assert(data_targets(r, src_member, utf8_lossy(pass_field(data_packet))) == seq![src_host]);
    assert(sends2[0] == (src_host, sealed_packet(
        encode_utf8(room),
        encode_utf8(utf8_lossy(pass_field(data_packet))),
        msg_data() + m2.skip(4),
    )));
}

/// Every member registered with `password` is listed by `members_with_password`.
pub proof fn lemma_member_with_password_listed(cs: Seq<UdpClient>, password: Seq<char>, i: int)
    requires
        0 <= i < cs.len(),
        cs[i].password@ == password,
    ensures
        members_with_password(cs, password).contains(cs[i].addr@),
    decreases cs.len(),
{
    let rest = members_with_password(cs.drop_last(), password);
    if i == cs.len() - 1 {
        assert(members_with_password(cs, password) == rest.push(cs[i].addr@));
        assert(rest.push(cs[i].addr@)[rest.len() as int] == cs[i].addr@);
    } else {
        assert(cs.drop_last()[i] == cs[i]);
        lemma_member_with_password_listed(cs.drop_last(), password, i);
        let j = choose|j: int| 0 <= j < rest.len() && rest[j] == cs[i].addr@;
        if cs.last().password@ == password {
            assert(rest.push(cs.last().addr@)[j] == cs[i].addr@);
        }
    }
}

/// `members_with_password` lists only members registered with `password`.
pub proof fn lemma_listed_has_password(cs: Seq<UdpClient>, password: Seq<char>, j: int)
    requires
        0 <= j < members_with_password(cs, password).len(),
    ensures
        exists|i: int|
            0 <= i < cs.len() && cs[i].password@ == password && #[trigger] cs[i].addr@
                == members_with_password(cs, password)[j],
    decreases cs.len(),
{
    let rest = members_with_password(cs.drop_last(), password);
    if j < rest.len() {
        lemma_listed_has_password(cs.drop_last(), password, j);
        let i = choose|i: int|
            0 <= i < cs.drop_last().len() && cs.drop_last()[i].password@ == password
                && #[trigger] cs.drop_last()[i].addr@ == rest[j];
        assert(cs[i] == cs.drop_last()[i]);
        if cs.last().password@ == password {
            assert(members_with_password(cs, password)[j] == rest[j]);
        }
    } else {
        assert(cs.last().password@ == password);
        assert(cs[cs.len() - 1].addr@ == members_with_password(cs, password)[j]);
    }
}

/// Some datagram of `sends` goes to `addr`.
pub open spec fn sent_to(sends: Seq<(Seq<char>, Seq<u8>)>, addr: Seq<char>) -> bool {
    exists|j: int| 0 <= j < sends.len() && #[trigger] sends[j].0 == addr
}

/// Some member of `cs` at `addr` registered with `password`.
pub open spec fn member_at(cs: Seq<UdpClient>, password: Seq<char>, addr: Seq<char>) -> bool {
    exists|i: int| 0 <= i < cs.len() && cs[i].password@ == password && #[trigger] cs[i].addr@ == addr
}

/// The host's game data reaches its members: a `DATA` packet from the host
/// of a room is sent to every member of the room that registered with the
/// packet's password, and to no other address.
pub proof fn lemma_host_data_reaches_members(
    s0: UdpRelayState,
    s1: UdpRelayState,
    data: Seq<u8>,
    src: Seq<char>,
    now: u64,
    sends: Seq<(Seq<char>, Seq<u8>)>,
)
    requires
        game_fields_ok(data),
        decryption(sealed_field(data), encode_utf8(utf8_lossy(pass_field(data)))) matches Some(m)
            && m.len() >= 4 && m.take(4) == msg_data() && !cached(s0.packet_cache@, checksum(m)),
        s0.rooms_view().contains_key(utf8_lossy(room_field(data))),
        s0.rooms_view()[utf8_lossy(room_field(data))].0 matches Some(h) && h.addr@ == src,
        game_packet_handled(s0, s1, data, src, now, sends),
    ensures
        forall|i: int|
            0 <= i < s0.rooms_view()[utf8_lossy(room_field(data))].2.len()
                && #[trigger] s0.rooms_view()[utf8_lossy(room_field(data))].2[i].password@ == utf8_lossy(
                pass_field(data),
            ) ==> sent_to(sends, s0.rooms_view()[utf8_lossy(room_field(data))].2[i].addr@),
        forall|j: int|
            0 <= j < sends.len() ==> member_at(
                s0.rooms_view()[utf8_lossy(room_field(data))].2,
                utf8_lossy(pass_field(data)),
                #[trigger] sends[j].0,
            ),
{
    let room = utf8_lossy(room_field(data));
    let pw = utf8_lossy(pass_field(data));
    let m = decryption(sealed_field(data), encode_utf8(pw))->0;
    assert(m.take(4) != msg_regh()) by {
        assert(msg_regh()[0] != msg_data()[0]);
    }
    assert(m.take(4) != msg_regc()) by {
        assert(msg_regc()[0] != msg_data()[0]);
    }
    let cs = s0.rooms_view()[room].2;
    let targets = members_with_password(cs, pw);
    assert(data_targets(s0.rooms_view()[room], src, pw) == targets);
    assert forall|i: int| 0 <= i < cs.len() && #[trigger] cs[i].password@ == pw implies sent_to(
        sends,
        cs[i].addr@,
    ) by {
        lemma_member_with_password_listed(cs, pw, i);
        let j = choose|j: int| 0 <= j < targets.len() && targets[j] == cs[i].addr@;
        assert(sends[j].0 == targets[j]);
    }
    assert forall|j: int| 0 <= j < sends.len() implies member_at(cs, pw, #[trigger] sends[j].0) by {
        assert(sends[j].0 == targets[j]);
        lemma_listed_has_password(cs, pw, j);
    }
}

/// The periodic cleanup keeps what is still alive: with the room table
/// `after` that `cleanup` leaves of `before` at `now`, a room whose host was
/// heard within the peer timeout stays with that host, a room with a member
/// heard within the timeout stays with that member, and a room is gone only
/// when neither its host nor any member was heard within the timeout.
pub proof fn lemma_cleanup_keeps_live_rooms(
    before: Map<Seq<char>, RoomState>,
    after: Map<Seq<char>, RoomState>,
    now: u64,
    k: Seq<char>,
)
    requires
        forall|k: Seq<char>|
            #[trigger] after.contains_key(k) == (before.contains_key(k) && room_kept(
                cleaned_room(before[k], now),
            )),
        forall|k: Seq<char>| after.contains_key(k) ==> #[trigger] after[k] == cleaned_room(before[k], now),
        before.contains_key(k),
    ensures
        before[k].0 matches Some(h) && elapsed(now, h.last_seen) <= PEER_TIMEOUT_NS ==> after.contains_key(
            k,
        ) && after[k].0 == before[k].0,
        forall|i: int|
            0 <= i < before[k].2.len() && elapsed(now, before[k].2[i].last_seen) < PEER_TIMEOUT_NS
                ==> after.contains_key(k) && after[k].2.contains(#[trigger] before[k].2[i]),
        !after.contains_key(k) ==> (before[k].0 matches Some(h) ==> elapsed(now, h.last_seen)
            > PEER_TIMEOUT_NS) && forall|i: int|
            0 <= i < before[k].2.len() ==> elapsed(now, #[trigger] before[k].2[i].last_seen)
                >= PEER_TIMEOUT_NS,
{
    let r = before[k];
    let pred = |c: UdpClient| client_fresh(c, now);
    assert forall|i: int|
        0 <= i < r.2.len() && elapsed(now, r.2[i].last_seen) < PEER_TIMEOUT_NS implies after.contains_key(k)
            && after[k].2.contains(#[trigger] r.2[i]) by {
        r.2.lemma_filter_contains(pred, i);
        let f = r.2.filter(pred);
        assert(f.len() > 0);
    }
    if !after.contains_key(k) {
        assert forall|i: int| 0 <= i < r.2.len() implies elapsed(now, #[trigger] r.2[i].last_seen)
            >= PEER_TIMEOUT_NS by {
            if elapsed(now, r.2[i].last_seen) < PEER_TIMEOUT_NS {
                r.2.lemma_filter_contains(pred, i);
            }
        }
    }
}

fn elapsed_since(now: u64, then: u64) -> (d: u64)
    ensures
        d == elapsed(now, then),
{
    if now >= then {
        now - then
    } else {
        0
    }
}

fn copy_text(s: &str) -> (t: String)
    ensures
        t@ == s@,
{
    s.to_owned()
}

impl UdpRelayState {
    /// No rooms, no remembered packets.
    pub fn new() -> (s: UdpRelayState)
        ensures
            s.wf(),
            s.rooms_view() == Map::<Seq<char>, RoomState>::empty(),
            s.packet_cache@.len() == 0,
    {
        let s = UdpRelayState { rooms: Vec::new(), packet_cache: Vec::new() };
        assert(s.rooms_view() =~= Map::<Seq<char>, RoomState>::empty());
        s
    }

    /// Each room name occurs once.
    pub open spec fn wf(&self) -> bool {
        keys_distinct(self.rooms@)
    }

    /// The rooms by name.
    pub open spec fn rooms_view(&self) -> Map<Seq<char>, RoomState> {
        keyed_map(self.rooms@).map_values(|r: UdpRoom| room_state(r))
    }

    /// Whether a packet with this checksum was seen recently.
    fn seen(&self, sum: u64) -> (res: bool)
        ensures
            res == cached(self.packet_cache@, sum),
    {
        let mut i: usize = 0;
        while i < self.packet_cache.len()
            invariant
                i <= self.packet_cache@.len(),
                forall|j: int| 0 <= j < i ==> self.packet_cache@[j].checksum != sum,
            decreases self.packet_cache@.len() - i,
        {
            if self.packet_cache[i].checksum == sum {
                return true;
            }
            i = i + 1;
        }
        false
    }

    /// Stores `room` under its name in place of `old_index`'s room or as a new one.
    fn put_room(&mut self, room: UdpRoom, at: Option<usize>)
        requires
            old(self).wf(),
            match at {
                Some(i) => i < old(self).rooms@.len() && old(self).rooms@[i as int].key() == room.key(),
                None => !has_key(old(self).rooms@, room.key()),
            },
        ensures
            final(self).wf(),
            final(self).packet_cache == old(self).packet_cache,
            final(self).rooms_view() == old(self).rooms_view().insert(room.name@, room_state(room)),
    {
        let ghost r = room;
        match at {
            Some(i) => {
                proof {
                    lemma_keyed_update(self.rooms@, i as int, room);
                }
                self.rooms.set(i, room);
            },
            None => {
                proof {
                    lemma_keyed_push(self.rooms@, room);
                }
                self.rooms.push(room);
            },
        }
        proof {
            assert(self.rooms_view() =~= old(self).rooms_view().insert(r.name@, room_state(r)));
        }
    }

    /// Takes the room at `i` out, leaving an empty room of the same name in its place.
    fn take_room(&mut self, i: usize) -> (r: UdpRoom)
        requires
            old(self).wf(),
            i < old(self).rooms@.len(),
        ensures
            r == old(self).rooms@[i as int],
            final(self).rooms@.len() == old(self).rooms@.len(),
            final(self).rooms@[i as int].key() == r.key(),
            forall|j: int| 0 <= j < old(self).rooms@.len() && j != i ==> final(self).rooms@[j] == old(self).rooms@[j],
            final(self).wf(),
            final(self).packet_cache == old(self).packet_cache,
    {
        let name = self.rooms[i].name.clone();
        let placeholder = UdpRoom { name, host: None, host_relay_id: None, clients: Vec::new() };
        let r = self.rooms.remove(i);
        self.rooms.insert(i, placeholder);
        proof {
            assert forall|a: int, b: int| 0 <= a < b < self.rooms@.len() implies self.rooms@[a].key()
                != self.rooms@[b].key() by {
                assert(self.rooms@[a].key() == old(self).rooms@[a].key());
                assert(self.rooms@[b].key() == old(self).rooms@[b].key());
            }
        }
        r
    }

    /// Registers `src` as the host of `room` at time `now`, creating the room if
    /// needed.
    fn register_host(&mut self, room: &String, password: &String, src: &str, now: u64)
        requires
            old(self).wf(),
        ensures
            final(self).wf(),
            final(self).packet_cache == old(self).packet_cache,
            host_registered(old(self).rooms_view(), final(self).rooms_view(), room@, src@, password@, now),
    {
        let client = UdpClient {
            addr: copy_text(src),
            role: "host".to_owned(),
            room: room.clone(),
            password: password.clone(),
            last_seen: now,
        };
        match position_of_key(&self.rooms, room) {
            Some(i) => {
                let mut r = self.take_room(i);
                r.host = Some(client);
                proof {
                    lemma_keyed_at(old(self).rooms@, i as int);
                }
                let ghost mid = self.rooms_view();
                proof {
                    assert(keyed_map(self.rooms@).dom() =~= keyed_map(old(self).rooms@).dom()) by {
                        assert forall|k: Seq<char>| #[trigger] has_key(self.rooms@, k) == has_key(old(self).rooms@, k) by {
                            if has_key(self.rooms@, k) {
                                let a = choose|a: int| 0 <= a < self.rooms@.len() && #[trigger] self.rooms@[a].key() == k;
                                assert(old(self).rooms@[a].key() == k);
                            }
                            if has_key(old(self).rooms@, k) {
                                let a = choose|a: int| 0 <= a < old(self).rooms@.len() && #[trigger] old(self).rooms@[a].key() == k;
                                assert(self.rooms@[a].key() == k);
                            }
                        }
                    }
                    assert forall|k: Seq<char>| k != room@ && old(self).rooms_view().contains_key(k) implies #[trigger] mid[k] == old(self).rooms_view()[k] by {
                        let a = choose|a: int| 0 <= a < old(self).rooms@.len() && #[trigger] old(self).rooms@[a].key() == k;
                        lemma_keyed_at(old(self).rooms@, a);
                        lemma_keyed_at(self.rooms@, a);
                        assert(a != i);
                    }
                }
                self.put_room(r, Some(i));
            },
            None => {
                let r = UdpRoom { name: room.clone(), host: Some(client), host_relay_id: None, clients: Vec::new() };
                self.put_room(r, None);
            },
        }
    }

    /// Registers `src` as a member of `room` at time `now`, creating the room if
    /// needed.
    fn register_client(&mut self, room: &String, password: &String, src: &str, now: u64)
        requires
            old(self).wf(),
        ensures
            final(self).wf(),
            final(self).packet_cache == old(self).packet_cache,
            member_registered(old(self).rooms_view(), final(self).rooms_view(), room@, src@, password@, now),
    {
        let client = UdpClient {
            addr: copy_text(src),
            role: "client".to_owned(),
            room: room.clone(),
            password: password.clone(),
            last_seen: now,
        };
        match position_of_key(&self.rooms, room) {
            Some(i) => {
                let mut r = self.take_room(i);
                let ghost old_r = r;
                r.clients.push(client);
                assert(r.clients@.drop_last() =~= old_r.clients@);
                proof {
                    lemma_keyed_at(old(self).rooms@, i as int);
                }
                let ghost mid = self.rooms_view();
                proof {
                    assert(keyed_map(self.rooms@).dom() =~= keyed_map(old(self).rooms@).dom()) by {
                        assert forall|k: Seq<char>| #[trigger] has_key(self.rooms@, k) == has_key(old(self).rooms@, k) by {
                            if has_key(self.rooms@, k) {
                                let a = choose|a: int| 0 <= a < self.rooms@.len() && #[trigger] self.rooms@[a].key() == k;
                                assert(old(self).rooms@[a].key() == k);
                            }
                            if has_key(old(self).rooms@, k) {
                                let a = choose|a: int| 0 <= a < old(self).rooms@.len() && #[trigger] old(self).rooms@[a].key() == k;
                                assert(self.rooms@[a].key() == k);
                            }
                        }
                    }
                    assert forall|k: Seq<char>| k != room@ && old(self).rooms_view().contains_key(k) implies #[trigger] mid[k] == old(self).rooms_view()[k] by {
                        let a = choose|a: int| 0 <= a < old(self).rooms@.len() && #[trigger] old(self).rooms@[a].key() == k;
                        lemma_keyed_at(old(self).rooms@, a);
                        lemma_keyed_at(self.rooms@, a);
                        assert(a != i);
                    }
                }
                self.put_room(r, Some(i));
            },
            None => {
                let mut clients: Vec<UdpClient> = Vec::new();
                clients.push(client);
                let r = UdpRoom { name: room.clone(), host: None, host_relay_id: None, clients };
                self.put_room(r, None);
            },
        }
    }

    /// The addresses that game data from `src` for `room` goes to.
    fn forward_targets(&self, room: &String, password: &String, src: &str) -> (targets: Vec<String>)
        requires
            self.wf(),
        ensures
            texts_view(targets@) == (if self.rooms_view().contains_key(room@) {
                data_targets(self.rooms_view()[room@], src@, password@)
            } else {
                Seq::empty()
            }),
    {
        let mut targets: Vec<String> = Vec::new();
        let i = match position_of_key(&self.rooms, room) {
            Some(i) => i,
            None => {
                assert(texts_view(targets@) =~= Seq::empty());
                return targets;
            },
        };
        proof {
            lemma_keyed_at(self.rooms@, i as int);
        }
        let r = &self.rooms[i];
        match &r.host {
            Some(h) => {
                if h.addr == copy_text(src) {
                    let mut j: usize = 0;
                    while j < r.clients.len()
                        invariant
                            j <= r.clients@.len(),
                            texts_view(targets@) == members_with_password(r.clients@.take(j as int), password@),
                        decreases r.clients@.len() - j,
                    {
                        assert(r.clients@.take(j + 1).drop_last() =~= r.clients@.take(j as int));
                        if r.clients[j].password == *password {
                            targets.push(r.clients[j].addr.clone());
                            assert(texts_view(targets@) =~= members_with_password(r.clients@.take(j as int), password@).push(r.clients@[j as int].addr@));
                        }
                        j = j + 1;
                    }
                    assert(r.clients@.take(r.clients@.len() as int) =~= r.clients@);
                } else if h.password == *password {
                    targets.push(h.addr.clone());
                    assert(texts_view(targets@) =~= seq![h.addr@]);
                } else {
                    assert(texts_view(targets@) =~= Seq::empty());
                }
            },
            None => {
                assert(texts_view(targets@) =~= Seq::empty());
            },
        }
        targets
    }

    /// Handles a game packet (the bytes after the command byte) from `src` at
    /// time `now`: opens it under its own password, drops it when its
    /// checksum was seen recently, and otherwise remembers the checksum and
    /// acts on `REGH` (register the host, answer `REGH_OK`), `REGC` (register a
    /// member, answer `REGC_OK`) or `DATA` (forward to `data_targets`). The
    /// datagrams to send come back as (address, bytes).
    pub fn handle_game_packet(&mut self, data: &[u8], src: &str, now: u64) -> (sends: Vec<(String, Vec<u8>)>)
        requires
            old(self).wf(),
        ensures
            final(self).wf(),
            game_packet_handled(*old(self), *final(self), data@, src@, now, sends_view(sends@)),
    {
        let mut sends: Vec<(String, Vec<u8>)> = Vec::new();
        if data.len() < 1 {
            return sends;
        }
        let room_len = data[0] as usize;
        if data.len() < 1 + room_len {
            return sends;
        }
        let room_bytes = vstd::slice::slice_subrange(data, 1, 1 + room_len);
        let room = lossy_string(room_bytes);
        if data.len() < 1 + room_len + 1 {
            return sends;
        }
        let pass_len = data[1 + room_len] as usize;
        if data.len() < 2 + room_len + pass_len {
            return sends;
        }
        let password = lossy_string(vstd::slice::slice_subrange(data, 2 + room_len, 2 + room_len + pass_len));
        let encrypted = vstd::slice::slice_subrange(data, 2 + room_len + pass_len, data.len());
        assert(room_bytes@ =~= room_field(data@));
        assert(encrypted@ =~= sealed_field(data@));
        proof {
            assert(data@.subrange(2 + room_len, 2 + room_len + pass_len) =~= pass_field(data@));
        }
        let decrypted = match decrypt(encrypted, password.as_str()) {
            Some(d) => d,
            None => return sends,
        };
        let sum = calculate_checksum(decrypted.as_slice());
        if self.seen(sum) {
            return sends;
        }
        self.packet_cache.push(PacketStamp { checksum: sum, at: now });
        assert(self.packet_cache@.drop_last() =~= old(self).packet_cache@);
        if decrypted.len() >= 4 {
            let command = vstd::slice::slice_subrange(decrypted.as_slice(), 0, 4);
            assert(command@ =~= decrypted@.take(4));
            let tag_regh = regh();
            let tag_regc = regc();
            let tag_data = data_tag();
            if bytes_equal(command, tag_regh.as_slice()) {
                self.register_host(&room, &password, src, now);
                let ok = regh_ok();
                let reply = pack_packet(room.as_str(), password.as_str(), ok.as_slice());
                sends.push((copy_text(src), reply));
                assert(sends_view(sends@) =~= seq![(src@, sealed_packet(encode_utf8(room@), encode_utf8(password@), msg_regh_ok()))]);
            } else if bytes_equal(command, tag_regc.as_slice()) {
                self.register_client(&room, &password, src, now);
                let ok = regc_ok();
                let reply = pack_packet(room.as_str(), password.as_str(), ok.as_slice());
                sends.push((copy_text(src), reply));
                assert(sends_view(sends@) =~= seq![(src@, sealed_packet(encode_utf8(room@), encode_utf8(password@), msg_regc_ok()))]);
            } else if bytes_equal(command, tag_data.as_slice()) {
                let mut payload = data_tag();
                let rest = vstd::slice::slice_subrange(decrypted.as_slice(), 4, decrypted.len());
                append_bytes(&mut payload, rest);
                assert(payload@ =~= msg_data() + decrypted@.skip(4));
                let packet = pack_packet(room.as_str(), password.as_str(), payload.as_slice());
                let targets = self.forward_targets(&room, &password, src);
                let mut t: usize = 0;
                while t < targets.len()
                    invariant
                        t <= targets@.len(),
                        sends@.len() == t,
                        forall|i: int| 0 <= i < t ==> #[trigger] sends_view(sends@)[i] == (targets@[i]@, packet@),
                    decreases targets@.len() - t,
                {
                    let ghost before = sends@;
                    let target = targets[t].clone();
                    let copy = packet.clone();
                    assert(copy@ =~= packet@);
                    sends.push((target, copy));
                    proof {
                        assert forall|i: int| 0 <= i < t + 1 implies #[trigger] sends_view(sends@)[i] == (
                            targets@[i]@,
                            packet@,
                        ) by {
                            if i < t {
                                assert(sends@[i] == before[i]);
                                assert(sends_view(before)[i] == (targets@[i]@, packet@));
                            }
                        }
                    }
                    t = t + 1;
                }
                proof {
                    assert forall|i: int| 0 <= i < sends@.len() implies #[trigger] sends_view(sends@)[i] == (
                        texts_view(targets@)[i],
                        packet@,
                    ) by {}
                }
            }
        }
        sends
    }

    /// The periodic cleanup at time `now`: forgets checksums older than five
    /// seconds, drops hosts silent for over a minute and members silent for a
    /// minute or more, and then the rooms with neither.
    pub fn cleanup(&mut self, now: u64)
        requires
            old(self).wf(),
        ensures
            final(self).wf(),
            final(self).packet_cache@ == fresh_stamps(old(self).packet_cache@, now),
            forall|k: Seq<char>|
                #[trigger] final(self).rooms_view().contains_key(k) == (old(self).rooms_view().contains_key(k)
                    && room_kept(cleaned_room(old(self).rooms_view()[k], now))),
            forall|k: Seq<char>|
                final(self).rooms_view().contains_key(k) ==> #[trigger] final(self).rooms_view()[k]
                    == cleaned_room(old(self).rooms_view()[k], now),
    {
        let mut cache: Vec<PacketStamp> = Vec::new();
        std::mem::swap(&mut cache, &mut self.packet_cache);
        self.packet_cache = keep_fresh_stamps(&cache, now);
        let mut rooms: Vec<UdpRoom> = Vec::new();
        std::mem::swap(&mut rooms, &mut self.rooms);
        self.rooms = clean_rooms(rooms, now);
    }
}

/// The stamps of `s` younger than the packet timeout, in order.
pub open spec fn fresh_stamps(s: Seq<PacketStamp>, now: u64) -> Seq<PacketStamp>
    decreases s.len(),
{
    if s.len() == 0 {
        Seq::empty()
    } else {
        let rest = fresh_stamps(s.drop_last(), now);
        if stamp_fresh(s.last(), now) {
            rest.push(s.last())
        } else {
            rest
        }
    }
}

/// The members of `s` heard from within the peer timeout, in order.
pub open spec fn live_clients(s: Seq<UdpClient>, now: u64) -> Seq<UdpClient>
    decreases s.len(),
{
    if s.len() == 0 {
        Seq::empty()
    } else {
        let rest = live_clients(s.drop_last(), now);
        if client_fresh(s.last(), now) {
            rest.push(s.last())
        } else {
            rest
        }
    }
}

fn keep_fresh_stamps(cache: &Vec<PacketStamp>, now: u64) -> (out: Vec<PacketStamp>)
    ensures
        out@ == fresh_stamps(cache@, now),
{
    let mut out: Vec<PacketStamp> = Vec::new();
    let mut i: usize = 0;
    while i < cache.len()
        invariant
            i <= cache@.len(),
            out@ == fresh_stamps(cache@.take(i as int), now),
        decreases cache@.len() - i,
    {
        assert(cache@.take(i + 1).drop_last() =~= cache@.take(i as int));
        if elapsed_since(now, cache[i].at) < PACKET_TIMEOUT_NS {
            out.push(PacketStamp { checksum: cache[i].checksum, at: cache[i].at });
        }
        i = i + 1;
    }
    assert(cache@.take(cache@.len() as int) =~= cache@);
    out
}

fn keep_live_clients(clients: Vec<UdpClient>, now: u64) -> (out: Vec<UdpClient>)
    ensures
        out@ == live_clients(clients@, now),
{
    let ghost all = clients@;
    let mut rest = clients;
    let total: usize = rest.len();
    assert(all.len() == total);
    let mut out: Vec<UdpClient> = Vec::new();
    let mut done: usize = 0;
    while rest.len() > 0
        invariant
            all.len() <= usize::MAX,
            done <= all.len(),
            rest@ == all.skip(done as int),
            out@ == live_clients(all.take(done as int), now),
        decreases rest@.len(),
    {
        let c = rest.remove(0);
        assert(c == all[done as int]);
        assert(rest@ =~= all.skip(done + 1));
        assert(all.take(done + 1).drop_last() =~= all.take(done as int));
        if elapsed_since(now, c.last_seen) < PEER_TIMEOUT_NS {
            out.push(c);
        }
        done = done + 1;
    }
    assert(all.take(all.len() as int) =~= all);
    out
}

fn clean_room(r: UdpRoom, now: u64) -> (out: UdpRoom)
    ensures
        out.name@ == r.name@,
        room_state(out) == cleaned_room(room_state(r), now),
{
    let UdpRoom { name, host, host_relay_id, clients } = r;
    let kept_host = match host {
        Some(h) => {
            if elapsed_since(now, h.last_seen) > PEER_TIMEOUT_NS {
                None
            } else {
                Some(h)
            }
        },
        None => None,
    };
    let kept = keep_live_clients(clients, now);
    proof {
        lemma_live_clients_is_filter(r.clients@, now);
    }
    UdpRoom { name, host: kept_host, host_relay_id, clients: kept }
}

proof fn lemma_live_clients_is_filter(s: Seq<UdpClient>, now: u64)
    ensures
        live_clients(s, now) == s.filter(|c: UdpClient| client_fresh(c, now)),
    decreases s.len(),
{
    reveal(Seq::filter);
    if s.len() > 0 {
        lemma_live_clients_is_filter(s.drop_last(), now);
    }
}

/// `x` is what the cleanup leaves of the room `orig`.
pub open spec fn cleaned_from(x: UdpRoom, orig: UdpRoom, now: u64) -> bool {
    x.key() == orig.key() && room_state(x) == cleaned_room(room_state(orig), now)
}

fn clean_rooms(rooms: Vec<UdpRoom>, now: u64) -> (out: Vec<UdpRoom>)
    requires
        keys_distinct(rooms@),
    ensures
        keys_distinct(out@),
        forall|k: Seq<char>|
            #[trigger] keyed_map(out@).contains_key(k) == (keyed_map(rooms@).contains_key(k) && room_kept(
                cleaned_room(room_state(keyed_map(rooms@)[k]), now),
            )),
        forall|k: Seq<char>|
            keyed_map(out@).contains_key(k) ==> #[trigger] room_state(keyed_map(out@)[k]) == cleaned_room(
                room_state(keyed_map(rooms@)[k]),
                now,
            ),
{
    let ghost all = rooms@;
    let mut rest = rooms;
    let total: usize = rest.len();
    assert(all.len() == total);
    let mut out: Vec<UdpRoom> = Vec::new();
    let ghost mut origin: Seq<int> = Seq::empty();
    let mut j: usize = 0;
    while rest.len() > 0
        invariant
            all.len() <= usize::MAX,
            keys_distinct(all),
            j <= all.len(),
            rest@ == all.skip(j as int),
            keys_distinct(out@),
            forall|k: Seq<char>|
                #[trigger] has_key(out@, k) == exists|a: int|
                    0 <= a < j && #[trigger] all[a].key() == k && room_kept(cleaned_room(room_state(all[a]), now)),
            origin.len() == out@.len(),
            forall|b: int|
                0 <= b < out@.len() ==> 0 <= #[trigger] origin[b] < j && cleaned_from(out@[b], all[origin[b]], now),
        decreases rest@.len(),
    {
        let r0 = rest.remove(0);
        assert(r0 == all[j as int]);
        assert(rest@ =~= all.skip(j + 1));
        let r = clean_room(r0, now);
        let keep = r.host.is_some() || r.clients.len() > 0;
        if keep {
            let ghost before = out@;
            proof {
                assert(!has_key(out@, r.key())) by {
                    if has_key(out@, r.key()) {
                        let a = choose|a: int|
                            0 <= a < j && #[trigger] all[a].key() == r.key() && room_kept(
                                cleaned_room(room_state(all[a]), now),
                            );
                        assert(all[a].key() != all[j as int].key());
                    }
                }
                lemma_keyed_push(out@, r);
            }
            out.push(r);
            proof {
                origin = origin.push(j as int);
                assert forall|k: Seq<char>| #[trigger] has_key(out@, k) == exists|a: int|
                    0 <= a < j + 1 && #[trigger] all[a].key() == k && room_kept(
                        cleaned_room(room_state(all[a]), now),
                    ) by {
                    if has_key(out@, k) {
                        let b = choose|b: int| 0 <= b < out@.len() && #[trigger] out@[b].key() == k;
                        if b < before.len() {
                            assert(before[b] == out@[b]);
                            assert(has_key(before, k));
                        } else {
                            assert(all[j as int].key() == k);
                        }
                    }
                    if exists|a: int|
                        0 <= a < j + 1 && #[trigger] all[a].key() == k && room_kept(
                            cleaned_room(room_state(all[a]), now),
                        ) {
                        let a = choose|a: int|
                            0 <= a < j + 1 && #[trigger] all[a].key() == k && room_kept(
                                cleaned_room(room_state(all[a]), now),
                            );
                        if a < j {
                            assert(has_key(before, k));
                            let b = choose|b: int| 0 <= b < before.len() && #[trigger] before[b].key() == k;
                            assert(out@[b] == before[b]);
                        } else {
                            assert(out@[before.len() as int].key() == k);
                        }
                    }
                }
                assert forall|b: int| 0 <= b < out@.len() implies 0 <= #[trigger] origin[b] < j + 1
                    && cleaned_from(out@[b], all[origin[b]], now) by {
                    if b < before.len() {
                        assert(out@[b] == before[b]);
                    }
                }
            }
        } else {
            proof {
                assert forall|k: Seq<char>| #[trigger] has_key(out@, k) == exists|a: int|
                    0 <= a < j + 1 && #[trigger] all[a].key() == k && room_kept(
                        cleaned_room(room_state(all[a]), now),
                    ) by {
                    if exists|a: int|
                        0 <= a < j + 1 && #[trigger] all[a].key() == k && room_kept(
                            cleaned_room(room_state(all[a]), now),
                        ) {
                        let a = choose|a: int|
                            0 <= a < j + 1 && #[trigger] all[a].key() == k && room_kept(
                                cleaned_room(room_state(all[a]), now),
                            );
                        assert(a != j);
                    }
                }
            }
        }
        j = j + 1;
    }
    proof {
        assert forall|k: Seq<char>| #[trigger] keyed_map(out@).contains_key(k) == (keyed_map(all).contains_key(k)
            && room_kept(cleaned_room(room_state(keyed_map(all)[k]), now))) by {
            if keyed_map(all).contains_key(k) {
                let a = choose|a: int| 0 <= a < all.len() && #[trigger] all[a].key() == k;
                lemma_keyed_at(all, a);
            }
            if has_key(out@, k) {
                let a = choose|a: int|
                    0 <= a < j && #[trigger] all[a].key() == k && room_kept(cleaned_room(room_state(all[a]), now));
                lemma_keyed_at(all, a);
            }
        }
        assert forall|k: Seq<char>| keyed_map(out@).contains_key(k) implies #[trigger] room_state(
            keyed_map(out@)[k],
        ) == cleaned_room(room_state(keyed_map(all)[k]), now) by {
            let b = choose|b: int| 0 <= b < out@.len() && #[trigger] out@[b].key() == k;
            lemma_keyed_at(out@, b);
            assert(cleaned_from(out@[b], all[origin[b]], now));
            lemma_keyed_at(all, origin[b]);
        }
    }
    out
}

/// What a datagram to the relay asks for.
#[derive(Debug, PartialEq, Eq)]
pub enum UdpRequest {
    /// `0x32`: ping, answered `[0x33]`.
    Ping,
    /// `0x33`: a pong, ignored.
    Pong,
    /// Any other command: a game packet.
    Game,
    /// An empty datagram, ignored.
    Empty,
}

/// Sorts a datagram by its command byte.
pub fn classify_datagram(buf: &[u8]) -> (req: UdpRequest)
    ensures
        buf@.len() < 1 ==> req == UdpRequest::Empty,
        buf@.len() >= 1 ==> req == (if buf@[0] == 0x32 {
            UdpRequest::Ping
        } else if buf@[0] == 0x33 {
            UdpRequest::Pong
        } else {
            UdpRequest::Game
        }),
{
    if buf.len() < 1 {
        return UdpRequest::Empty;
    }
    match buf[0] {
        0x32 => UdpRequest::Ping,
        0x33 => UdpRequest::Pong,
        _ => UdpRequest::Game,
    }
}

} // verus!
