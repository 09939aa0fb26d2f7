//! The relay server's rooms and its handling of client packets: what each
//! packet does to the room table, and what the relay sends in return.
use crate::crypto::{decrypt, decryption, encrypt, encryption, lemma_encryption_concat};
use crate::protocol::{
    append_bytes, bytes_equal, data_tag, errr, frame_fields, mc_ready, member_join, msg_data,
    msg_errr, msg_mc_ready, msg_member_join, msg_regc, msg_regc_ok, msg_regh, msg_regh_ok,
    packet_bytes, regc, regc_ok, regh, regh_ok,
};
use crate::text::{lossy_string, utf8_lossy};
use vstd::prelude::*;
use vstd::string::StringSliceAdditionalSpecFns;
use vstd::utf8::encode_utf8;

verus! {

/// A room registered at this relay, with the address of its host's connection.
#[derive(Debug)]
pub struct HostedRoom {
    pub name: String,
    pub host_addr: String,
}

/// The rooms registered at this relay, each name once.
#[derive(Debug)]
pub struct RelayRooms {
    pub rooms: Vec<HostedRoom>,
}

/// The names of the rooms are distinct.
pub open spec fn names_distinct(rooms: Seq<HostedRoom>) -> bool {
    forall|i: int, j: int| 0 <= i < j < rooms.len() ==> rooms[i].name@ != rooms[j].name@
}

/// Some room is named `name`.
pub open spec fn has_room_named(rooms: Seq<HostedRoom>, name: Seq<char>) -> bool {
    exists|i: int| 0 <= i < rooms.len() && #[trigger] rooms[i].name@ == name
}

/// The room table as a map from room name to host address.
pub open spec fn rooms_map(rooms: Seq<HostedRoom>) -> Map<Seq<char>, Seq<char>> {
    Map::new(
        |k: Seq<char>| has_room_named(rooms, k),
        |k: Seq<char>|
            rooms[choose|i: int| 0 <= i < rooms.len() && #[trigger] rooms[i].name@ == k].host_addr@,
    )
}

proof fn lemma_rooms_map_at(rooms: Seq<HostedRoom>, i: int)
    requires
        names_distinct(rooms),
        0 <= i < rooms.len(),
    ensures
        rooms_map(rooms).contains_key(rooms[i].name@),
        rooms_map(rooms)[rooms[i].name@] == rooms[i].host_addr@,
{
    let k = rooms[i].name@;
    assert(has_room_named(rooms, k));
    let c = choose|c: int| 0 <= c < rooms.len() && #[trigger] rooms[c].name@ == k;
    if c < i {
        assert(rooms[c].name@ != rooms[i].name@);
    } else if i < c {
        assert(rooms[i].name@ != rooms[c].name@);
    }
}

proof fn lemma_rooms_map_push(rooms: Seq<HostedRoom>, r: HostedRoom)
    requires
        names_distinct(rooms),
        !has_room_named(rooms, r.name@),
    ensures
        names_distinct(rooms.push(r)),
        rooms_map(rooms.push(r)) == rooms_map(rooms).insert(r.name@, r.host_addr@),
{
    let p = rooms.push(r);
    assert forall|i: int, j: int| 0 <= i < j < p.len() implies p[i].name@ != p[j].name@ by {
        if j == rooms.len() {
            assert(p[i] == rooms[i]);
        } else {
            assert(p[i] == rooms[i] && p[j] == rooms[j]);
        }
    }
    assert forall|k: Seq<char>| #[trigger] has_room_named(p, k) == (has_room_named(rooms, k) || k
        == r.name@) by {
        if has_room_named(rooms, k) {
            let i = choose|i: int| 0 <= i < rooms.len() && #[trigger] rooms[i].name@ == k;
            assert(p[i] == rooms[i]);
        }
        if k == r.name@ {
            assert(p[rooms.len() as int].name@ == k);
        }
        if has_room_named(p, k) {
            let i = choose|i: int| 0 <= i < p.len() && #[trigger] p[i].name@ == k;
            if i < rooms.len() {
                assert(p[i] == rooms[i]);
            }
        }
    }
    assert forall|k: Seq<char>| #[trigger] rooms_map(p).contains_key(k) implies rooms_map(p)[k]
        == rooms_map(rooms).insert(r.name@, r.host_addr@)[k] by {
        let i = choose|i: int| 0 <= i < p.len() && #[trigger] p[i].name@ == k;
        lemma_rooms_map_at(p, i);
        if i < rooms.len() {
            assert(p[i] == rooms[i]);
            lemma_rooms_map_at(rooms, i);
        }
    }
    assert(rooms_map(p) =~= rooms_map(rooms).insert(r.name@, r.host_addr@));
}

proof fn lemma_rooms_map_remove(rooms: Seq<HostedRoom>, i: int)
    requires
        names_distinct(rooms),
        0 <= i < rooms.len(),
    ensures
        names_distinct(rooms.remove(i)),
        rooms_map(rooms.remove(i)) == rooms_map(rooms).remove(rooms[i].name@),
{
    let q = rooms.remove(i);
    assert forall|a: int, b: int| 0 <= a < b < q.len() implies q[a].name@ != q[b].name@ by {
        let a2 = if a < i { a } else { a + 1 };
        let b2 = if b < i { b } else { b + 1 };
        assert(q[a] == rooms[a2] && q[b] == rooms[b2]);
    }
    assert forall|k: Seq<char>| #[trigger] has_room_named(q, k) == (has_room_named(rooms, k) && k
        != rooms[i].name@) by {
        if has_room_named(q, k) {
            let a = choose|a: int| 0 <= a < q.len() && #[trigger] q[a].name@ == k;
            let a2 = if a < i { a } else { a + 1 };
            assert(q[a] == rooms[a2]);
            assert(rooms[a2].name@ == k);
        }
        if has_room_named(rooms, k) && k != rooms[i].name@ {
            let a = choose|a: int| 0 <= a < rooms.len() && #[trigger] rooms[a].name@ == k;
            assert(a != i);
            let a1 = if a < i { a } else { a - 1 };
            assert(q[a1] == rooms[a]);
        }
    }
    assert forall|k: Seq<char>| #[trigger] rooms_map(q).contains_key(k) implies rooms_map(q)[k]
        == rooms_map(rooms)[k] by {
        let a = choose|a: int| 0 <= a < q.len() && #[trigger] q[a].name@ == k;
        lemma_rooms_map_at(q, a);
        let a2 = if a < i { a } else { a + 1 };
        assert(q[a] == rooms[a2]);
        lemma_rooms_map_at(rooms, a2);
    }
    assert(rooms_map(q) =~= rooms_map(rooms).remove(rooms[i].name@));
}

impl View for RelayRooms {
    type V = Map<Seq<char>, Seq<char>>;

    open spec fn view(&self) -> Map<Seq<char>, Seq<char>> {
        rooms_map(self.rooms@)
    }
}

/// What the relay does for a client, as (target, peer, bytes): target 0 is a
/// reply on the client's own connection, 1 the connection of `peer`, 2 every
/// connection except that of `peer`.
pub open spec fn act_reply(bytes: Seq<u8>) -> (nat, Seq<char>, Seq<u8>) {
    (0, Seq::empty(), bytes)
}

/// Bytes for the connection of `peer`.
pub open spec fn act_send(peer: Seq<char>, bytes: Seq<u8>) -> (nat, Seq<char>, Seq<u8>) {
    (1, peer, bytes)
}

/// Bytes for every connection except that of `except`.
pub open spec fn act_broadcast(except: Seq<char>, bytes: Seq<u8>) -> (nat, Seq<char>, Seq<u8>) {
    (2, except, bytes)
}

/// Bytes the relay writes, and where.
#[derive(Debug)]
pub enum RelayAction {
    /// To the client that sent the packet.
    Reply(Vec<u8>),
    /// To the connection with this peer address, when it is connected.
    SendTo(String, Vec<u8>),
    /// To every connection but the one with this peer address.
    BroadcastExcept(String, Vec<u8>),
}

pub open spec fn action_view(a: RelayAction) -> (nat, Seq<char>, Seq<u8>) {
    match a {
        RelayAction::Reply(b) => act_reply(b@),
        RelayAction::SendTo(p, b) => act_send(p@, b@),
        RelayAction::BroadcastExcept(p, b) => act_broadcast(p@, b@),
    }
}

pub open spec fn actions_view(v: Seq<RelayAction>) -> Seq<(nat, Seq<char>, Seq<u8>)> {
    Seq::new(v.len(), |i: int| action_view(v[i]))
}

pub open spec fn opt_text(o: Option<String>) -> Option<Seq<char>> {
    match o {
        Some(s) => Some(s@),
        None => None,
    }
}

/// What the relay sends and which room a connection registered.
#[derive(Debug)]
pub struct CustomOutcome {
    pub actions: Vec<RelayAction>,
    pub registered_room: Option<String>,
}

/// A packet of the room protocol: a room name of 1..=100 bytes, a password of
/// 1..=100 bytes, and at least 16 more bytes.
pub open spec fn custom_protocol(data: Seq<u8>) -> bool {
    data.len() >= 4 && 1 <= data[0] <= 100 && data.len() >= 1 + data[0] + 1 && 1 <= data[1
        + data[0] as int] <= 100 && data.len() >= 1 + data[0] + 1 + data[1 + data[0] as int]
        + 16
}

/// Every room-protocol packet is recognised: a packet made of the length of
/// a room name of 1..=100 bytes, the name, the length of a password of
/// 1..=100 bytes, the password, and at least 16 more bytes is a room-protocol
/// packet, and its fields read back as those parts.
pub proof fn lemma_room_packets_recognised(room: Seq<u8>, password: Seq<u8>, sealed: Seq<u8>)
    requires
        1 <= room.len() <= 100,
        1 <= password.len() <= 100,
        sealed.len() >= 16,
    ensures
        custom_protocol(seq![room.len() as u8] + room + seq![password.len() as u8] + password + sealed),
        room_field(seq![room.len() as u8] + room + seq![password.len() as u8] + password + sealed) == room,
        pass_field(seq![room.len() as u8] + room + seq![password.len() as u8] + password + sealed)
            == password,
        sealed_field(seq![room.len() as u8] + room + seq![password.len() as u8] + password + sealed)
            == sealed,
{
    let d = seq![room.len() as u8] + room + seq![password.len() as u8] + password + sealed;
    let r = room.len() as int;
    let p = password.len() as int;
    assert(d[0] == room.len() as u8);
    assert(d[1 + r] == password.len() as u8);
    assert(d.subrange(1, 1 + r) =~= room);
    assert(d.subrange(2 + r, 2 + r + p) =~= password);
    assert(d.skip(2 + r + p) =~= sealed);
}

/// Every packet sealed under a password, for a room name and a password of
/// 1..=100 bytes each, is a room-protocol packet.
pub proof fn lemma_sealed_packets_recognised(room: Seq<u8>, password: Seq<u8>, data: Seq<u8>)
    requires
        1 <= room.len() <= 100,
        1 <= password.len() <= 100,
    ensures
        custom_protocol(packet_bytes(room, password, encryption(data, password))),
{
    lemma_encryption_concat(Seq::empty(), data, password);
    assert(encryption(data, password).len() >= 16) by (nonlinear_arith)
        requires
            encryption(data, password).len() == 16 * (data.len() / 16 + 1),
    ;
    lemma_room_packets_recognised(room, password, encryption(data, password));
}

/// Whether a packet belongs to the room protocol.
pub fn is_custom_protocol(data: &[u8]) -> (res: bool)
    ensures
        res == custom_protocol(data@),
{
    if data.len() < 4 {
        return false;
    }
    let room_len = data[0] as usize;
    if room_len == 0 || room_len > 100 {
        return false;
    }
    if data.len() < 1 + room_len + 1 {
        return false;
    }
    let pass_len = data[1 + room_len] as usize;
    if pass_len == 0 || pass_len > 100 {
        return false;
    }
    if data.len() < 1 + room_len + 1 + pass_len + 16 {
        return false;
    }
    true
}

/// The room name bytes of a room-protocol packet.
pub open spec fn room_field(data: Seq<u8>) -> Seq<u8> {
    data.subrange(1, 1 + data[0] as int)
}

/// The password bytes of a room-protocol packet.
pub open spec fn pass_field(data: Seq<u8>) -> Seq<u8> {
    data.subrange(2 + data[0] as int, 2 + data[0] as int + data[1 + data[0] as int] as int)
}

/// The encrypted part of a room-protocol packet.
pub open spec fn sealed_field(data: Seq<u8>) -> Seq<u8> {
    data.skip(2 + data[0] as int + data[1 + data[0] as int] as int)
}

/// The key bytes that the relay uses: the password field read as text (with
/// invalid UTF-8 replaced), encoded again.
pub open spec fn relay_password(data: Seq<u8>) -> Seq<u8> {
    encode_utf8(utf8_lossy(pass_field(data)))
}

/// A reply to a room-protocol packet: the same room and password fields
/// around `msg` encrypted under the relay's reading of the password.
pub open spec fn relay_reply(data: Seq<u8>, msg: Seq<u8>) -> Seq<u8> {
    packet_bytes(room_field(data), pass_field(data), encryption(msg, relay_password(data)))
}

/// What a room-protocol packet from `src` does: the new room table, the
/// actions, and the room this connection registered.
///
/// `REGH` registers a new room hosted by `src` (an existing room is left alone,
/// without a reply); `REGC` answers `REGC_OK` and tells the host
/// `MEMBER_JOIN`, or `ERRR` for an unknown room; the message `MC_READY` (a
/// member's game connected) is passed on to the room's host as `MC_READY`,
/// with no reply, and does nothing for an unknown room; `DATA` from a member
/// goes to the host, from the host to every other connection; any other
/// command is answered with `ERRR`. A packet that does not decrypt, or holds
/// fewer than four bytes, does nothing.
pub open spec fn custom_outcome(rooms: Map<Seq<char>, Seq<char>>, src: Seq<char>, data: Seq<u8>) -> (
    Map<Seq<char>, Seq<char>>,
    Seq<(nat, Seq<char>, Seq<u8>)>,
    Option<Seq<char>>,
) {
    let room = utf8_lossy(room_field(data));
    let none = (rooms, Seq::<(nat, Seq<char>, Seq<u8>)>::empty(), None::<Seq<char>>);
    match decryption(sealed_field(data), relay_password(data)) {
        None => none,
        Some(m) => if m.len() < 4 {
            none
        } else if m.take(4) == msg_regh() {
            if rooms.contains_key(room) {
                none
            } else {
                (rooms.insert(room, src), seq![act_reply(relay_reply(data, msg_regh_ok()))], Some(room))
            }
        } else if m.take(4) == msg_regc() {
            if rooms.contains_key(room) {
                (
                    rooms,
                    seq![
                        act_reply(relay_reply(data, msg_regc_ok())),
                        act_send(rooms[room], relay_reply(data, msg_member_join())),
                    ],
                    Some(room),
                )
            } else {
                (rooms, seq![act_reply(relay_reply(data, msg_errr()))], None)
            }
        } else if m == msg_mc_ready() {
            if rooms.contains_key(room) {
                (rooms, seq![act_send(rooms[room], relay_reply(data, msg_mc_ready()))], None)
            } else {
                none
            }
        } else if m.take(4) == msg_data() {
            if rooms.contains_key(room) {
                if rooms[room] != src {
                    (rooms, seq![act_send(rooms[room], data)], None)
                } else {
                    (rooms, seq![act_broadcast(rooms[room], data)], None)
                }
            } else {
                none
            }
        } else {
            (rooms, seq![act_reply(relay_reply(data, msg_errr()))], None)
        },
    }
}

/// The packet decrypts, under the relay's reading of its password, to a
/// message that starts with the command `cmd`.
pub open spec fn opens_to_command(data: Seq<u8>, cmd: Seq<u8>) -> bool {
    match decryption(sealed_field(data), relay_password(data)) {
        Some(m) => m.len() >= 4 && m.take(4) == cmd,
        None => false,
    }
}

/// A room registered by its host is found by its members: after `REGH` for
/// a new room from `host`, a `REGC` for that room from another connection
/// is answered `REGC_OK` and the host is told `MEMBER_JOIN`, and that
/// member's `DATA` for the room goes to the host; the table then holds the
/// room under the host.
pub proof fn lemma_host_then_member(
    rooms: Map<Seq<char>, Seq<char>>,
    host: Seq<char>,
    member: Seq<char>,
    regh_packet: Seq<u8>,
    regc_packet: Seq<u8>,
    data_packet: Seq<u8>,
)
    requires
        !rooms.contains_key(utf8_lossy(room_field(regh_packet))),
        host != member,
        opens_to_command(regh_packet, msg_regh()),
        opens_to_command(regc_packet, msg_regc()),
        opens_to_command(data_packet, msg_data()),
        utf8_lossy(room_field(regc_packet)) == utf8_lossy(room_field(regh_packet)),
        utf8_lossy(room_field(data_packet)) == utf8_lossy(room_field(regh_packet)),
    ensures
        ({
            let name = utf8_lossy(room_field(regh_packet));
            let first = custom_outcome(rooms, host, regh_packet);
            let second = custom_outcome(first.0, member, regc_packet);
            let third = custom_outcome(second.0, member, data_packet);
            &&& first.2 == Some(name)
            &&& first.1 == seq![act_reply(relay_reply(regh_packet, msg_regh_ok()))]
            &&& second.2 == Some(name)
            &&& second.1 == seq![
                act_reply(relay_reply(regc_packet, msg_regc_ok())),
                act_send(host, relay_reply(regc_packet, msg_member_join())),
            ]
            &&& third.1 == seq![act_send(host, data_packet)]
            &&& third.0 == rooms.insert(name, host)
        }),
{
    assert(msg_regh() != msg_regc() && msg_regh() != msg_data() && msg_regc() != msg_data()) by {
        assert(msg_regh()[3] != msg_regc()[3]);
        assert(msg_regh()[0] != msg_data()[0]);
        assert(msg_regc()[0] != msg_data()[0]);
    }
    assert(msg_mc_ready().take(4) != msg_data()) by {
        assert(msg_mc_ready().take(4)[0] != msg_data()[0]);
    }
}

/// The reply packet that carries `msg` for the room and password fields.
fn reply_packet(room_bytes: &[u8], pass_bytes: &[u8], msg: &[u8], password: &str) -> (packet: Vec<u8>)
    ensures
        packet@ == packet_bytes(room_bytes@, pass_bytes@, encryption(msg@, password.spec_bytes())),
{
    let enc = encrypt(msg, password);
    frame_fields(room_bytes, pass_bytes, enc.as_slice())
}

impl RelayRooms {
    /// No rooms.
    pub fn new() -> (r: RelayRooms)
        ensures
            r.wf(),
            r@ == Map::<Seq<char>, Seq<char>>::empty(),
    {
        let r = RelayRooms { rooms: Vec::new() };
        assert(r@ =~= Map::<Seq<char>, Seq<char>>::empty());
        r
    }

    /// Each room name occurs once.
    pub open spec fn wf(&self) -> bool {
        names_distinct(self.rooms@)
    }

    fn index_of(&self, name: &String) -> (res: Option<usize>)
        requires
            self.wf(),
        ensures
            match res {
                Some(i) => i < self.rooms@.len() && self.rooms@[i as int].name@ == name@
                    && self@.contains_key(name@) && self@[name@]
                    == self.rooms@[i as int].host_addr@,
                None => !self@.contains_key(name@),
            },
    {
        let mut i: usize = 0;
        while i < self.rooms.len()
            invariant
                self.wf(),
                i <= self.rooms@.len(),
                forall|j: int| 0 <= j < i ==> self.rooms@[j].name@ != name@,
            decreases self.rooms@.len() - i,
        {
            if self.rooms[i].name == *name {
                proof {
                    lemma_rooms_map_at(self.rooms@, i as int);
                }
                return Some(i);
            }
            i = i + 1;
        }
        assert(!has_room_named(self.rooms@, name@));
        None
    }

    /// The host address of the room `name`.
    pub fn host_of(&self, name: &String) -> (res: Option<String>)
        requires
            self.wf(),
        ensures
            opt_text(res) == (if self@.contains_key(name@) {
                Some(self@[name@])
            } else {
                None
            }),
    {
        match self.index_of(name) {
            Some(i) => Some(self.rooms[i].host_addr.clone()),
            None => None,
        }
    }

    fn insert_new(&mut self, name: String, host_addr: String)
        requires
            old(self).wf(),
            !old(self)@.contains_key(name@),
        ensures
            final(self).wf(),
            final(self)@ == old(self)@.insert(name@, host_addr@),
    {
        let r = HostedRoom { name, host_addr };
        proof {
            lemma_rooms_map_push(self.rooms@, r);
        }
        self.rooms.push(r);
    }

    /// Handles a room-protocol packet from the connection at `src`.
    pub fn handle_custom_protocol(&mut self, src: &str, data: &[u8]) -> (out: CustomOutcome)
        requires
            old(self).wf(),
            custom_protocol(data@),
        ensures
            final(self).wf(),
            (final(self)@, actions_view(out.actions@), opt_text(out.registered_room))
                == custom_outcome(old(self)@, src@, data@),
    {
        let ghost d = data@;
        let room_len = data[0] as usize;
        let room_bytes = vstd::slice::slice_subrange(data, 1, 1 + room_len);
        let room = lossy_string(room_bytes);
        let pass_len = data[1 + room_len] as usize;
        let pass_bytes = vstd::slice::slice_subrange(data, 2 + room_len, 2 + room_len + pass_len);
        let password = lossy_string(pass_bytes);
        let encrypted = vstd::slice::slice_subrange(data, 2 + room_len + pass_len, data.len());
        assert(room_bytes@ =~= room_field(d));
        assert(pass_bytes@ =~= pass_field(d));
        assert(encrypted@ =~= sealed_field(d));
        let pw: &str = password.as_str();
        assert(pw.spec_bytes() == relay_password(d));
        let mut actions: Vec<RelayAction> = Vec::new();
        let decrypted = match decrypt(encrypted, pw) {
            Some(m) => m,
            None => {
                assert(actions_view(actions@) =~= Seq::empty());
                return CustomOutcome { actions, registered_room: None };
            },
        };
        if decrypted.len() < 4 {
            assert(actions_view(actions@) =~= Seq::empty());
            return CustomOutcome { actions, registered_room: None };
        }
        let command = vstd::slice::slice_subrange(decrypted.as_slice(), 0, 4);
        assert(command@ =~= decrypted@.take(4));
        let tag_regh = regh();
        if bytes_equal(command, tag_regh.as_slice()) {
            match self.index_of(&room) {
                Some(_) => {
                    assert(actions_view(actions@) =~= Seq::empty());
                    return CustomOutcome { actions, registered_room: None };
                },
                None => {
                    self.insert_new(room.clone(), src.to_owned());
                    let ok = regh_ok();
                    let reply = reply_packet(room_bytes, pass_bytes, ok.as_slice(), pw);
                    actions.push(RelayAction::Reply(reply));
                    assert(actions_view(actions@) =~= seq![act_reply(relay_reply(d, msg_regh_ok()))]);
                    return CustomOutcome { actions, registered_room: Some(room) };
                },
            }
        }
        let tag_regc = regc();
        if bytes_equal(command, tag_regc.as_slice()) {
            match self.host_of(&room) {
                None => {
                    let refused = errr();
                    let reply = reply_packet(room_bytes, pass_bytes, refused.as_slice(), pw);
                    actions.push(RelayAction::Reply(reply));
                    assert(actions_view(actions@) =~= seq![act_reply(relay_reply(d, msg_errr()))]);
                    return CustomOutcome { actions, registered_room: None };
                },
                Some(host) => {
                    let ok = regc_ok();
                    let reply = reply_packet(room_bytes, pass_bytes, ok.as_slice(), pw);
                    actions.push(RelayAction::Reply(reply));
                    let joined = member_join();
                    let notice = reply_packet(room_bytes, pass_bytes, joined.as_slice(), pw);
                    actions.push(RelayAction::SendTo(host, notice));
                    assert(actions_view(actions@) =~= seq![
                        act_reply(relay_reply(d, msg_regc_ok())),
                        act_send(self@[room@], relay_reply(d, msg_member_join())),
                    ]);
                    return CustomOutcome { actions, registered_room: Some(room) };
                },
            }
        }
        let tag_ready = mc_ready();
        if bytes_equal(decrypted.as_slice(), tag_ready.as_slice()) {
            match self.host_of(&room) {
                Some(host) => {
                    let notice = reply_packet(room_bytes, pass_bytes, tag_ready.as_slice(), pw);
                    actions.push(RelayAction::SendTo(host, notice));
                    assert(actions_view(actions@) =~= seq![
                        act_send(self@[room@], relay_reply(d, msg_mc_ready())),
                    ]);
                },
                None => {
                    assert(actions_view(actions@) =~= Seq::empty());
                },
            }
            return CustomOutcome { actions, registered_room: None };
        }
        let tag_data = data_tag();
        if bytes_equal(command, tag_data.as_slice()) {
            match self.host_of(&room) {
                Some(host) => {
                    let forwarded = vstd::slice::slice_to_vec(data);
                    if host.as_str().to_owned() != src.to_owned() {
                        actions.push(RelayAction::SendTo(host, forwarded));
                        assert(actions_view(actions@) =~= seq![act_send(self@[room@], d)]);
                    } else {
                        actions.push(RelayAction::BroadcastExcept(host, forwarded));
                        assert(actions_view(actions@) =~= seq![act_broadcast(self@[room@], d)]);
                    }
                    return CustomOutcome { actions, registered_room: None };
                },
                None => {
                    assert(actions_view(actions@) =~= Seq::empty());
                    return CustomOutcome { actions, registered_room: None };
                },
            }
        }
        let refused = errr();
        let reply = reply_packet(room_bytes, pass_bytes, refused.as_slice(), pw);
        actions.push(RelayAction::Reply(reply));
        assert(actions_view(actions@) =~= seq![act_reply(relay_reply(d, msg_errr()))]);
        CustomOutcome { actions, registered_room: None }
    }

    /// Creates the room `room_name` hosted by `src` (command `0x20`): the reply
    /// is `[0x21, 0x00]` and the room is registered, or `[0x21, 0x01]` when the
    /// name is taken.
    pub fn create_room(&mut self, room_name: String, src: &str) -> (res: (Vec<u8>, Option<String>))
        requires
            old(self).wf(),
        ensures
            final(self).wf(),
            old(self)@.contains_key(room_name@) ==> final(self)@ == old(self)@ && res.0@ == seq![
                0x21u8,
                0x01,
            ] && res.1 is None,
            !old(self)@.contains_key(room_name@) ==> final(self)@ == old(self)@.insert(
                room_name@,
                src@,
            ) && res.0@ == seq![0x21u8, 0x00] && opt_text(res.1) == Some(room_name@),
    {
        match self.index_of(&room_name) {
            Some(_) => (vec![0x21u8, 0x01], None),
            None => {
                self.insert_new(room_name.clone(), src.to_owned());
                (vec![0x21u8, 0x00], Some(room_name))
            },
        }
    }

    /// A connection closed: when it registered `registered` and still hosts it,
    /// the room goes away.
    pub fn disconnect(&mut self, addr: &str, registered: Option<String>)
        requires
            old(self).wf(),
        ensures
            final(self).wf(),
            match registered {
                Some(r) => if old(self)@.contains_key(r@) && old(self)@[r@] == addr@ {
                    final(self)@ == old(self)@.remove(r@)
                } else {
                    final(self)@ == old(self)@
                },
                None => final(self)@ == old(self)@,
            },
    {
        if let Some(room_name) = registered {
            if let Some(i) = self.index_of(&room_name) {
                if self.rooms[i].host_addr == addr.to_owned() {
                    proof {
                        lemma_rooms_map_remove(self.rooms@, i as int);
                    }
                    self.rooms.remove(i);
                }
            }
        }
    }

    /// Forwards a data packet (command `0x40`, then a 4-byte big-endian name
    /// length, the room name and the data) from a member to the room's host:
    /// the host's address and `[0x40]`, the name length as 8 big-endian bytes,
    /// the name as text and the data. `None` when the packet is short, the room
    /// is unknown, or the sender is the host.
    pub fn data_forward(&self, src: &str, payload: &[u8]) -> (res: Option<(String, Vec<u8>)>)
        requires
            self.wf(),
        ensures
            match res {
                Some((host, packet)) => payload@.len() >= 4 && {
                    let n = crate::protocol::be_u32_value(payload@.take(4));
                    let name = utf8_lossy(payload@.subrange(4, 4 + n));
                    &&& payload@.len() >= 4 + n
                    &&& self@.contains_key(name)
                    &&& self@[name] != src@
                    &&& host@ == self@[name]
                    &&& packet@ == seq![0x40u8] + be_u64(n as u64) + encode_utf8(name)
                        + payload@.skip(4 + n)
                },
                None => payload@.len() < 4 || {
                    let n = crate::protocol::be_u32_value(payload@.take(4));
                    let name = utf8_lossy(payload@.subrange(4, 4 + n));
                    payload@.len() < 4 + n || !self@.contains_key(name) || self@[name] == src@
                },
            },
    {
        if payload.len() < 4 {
            return None;
        }
        let header: [u8; 4] = [payload[0], payload[1], payload[2], payload[3]];
        assert(header@ =~= payload@.take(4));
        let name_len = crate::protocol::frame_length(header) as usize;
        if payload.len() - 4 < name_len {
            return None;
        }
        let name = lossy_string(vstd::slice::slice_subrange(payload, 4, 4 + name_len));
        match self.host_of(&name) {
            Some(host) => {
                if host.as_str().to_owned() == src.to_owned() {
                    return None;
                }
                let mut packet: Vec<u8> = Vec::new();
                packet.push(0x40);
                let len_bytes = be_u64_bytes(name_len as u64);
                append_bytes(&mut packet, len_bytes.as_slice());
                append_bytes(&mut packet, name.as_str().as_bytes());
                let rest = vstd::slice::slice_subrange(payload, 4 + name_len, payload.len());
                append_bytes(&mut packet, rest);
                assert(rest@ =~= payload@.skip(4 + name_len));
                Some((host, packet))
            },
            None => None,
        }
    }

    /// Forwards a test packet (`0x41`, room length, room, password length,
    /// password): from a member, `[0x41]` to the host; from the host, `[0x41]`
    /// to every other connection. `None` when the packet is short or the room
    /// is unknown.
    pub fn test_forward(&self, src: &str, data: &[u8]) -> (res: Option<RelayAction>)
        requires
            self.wf(),
            data@.len() >= 2 ==> data@.len() != 2 + data@[1],
        ensures
            match res {
                Some(a) => data@.len() >= 2 && {
                    let r = data@[1] as int;
                    let name = utf8_lossy(data@.subrange(2, 2 + r));
                    &&& data@.len() >= 2 + r + 1 + data@[2 + r]
                    &&& self@.contains_key(name)
                    &&& action_view(a) == (if self@[name] != src@ {
                        act_send(self@[name], seq![0x41u8])
                    } else {
                        act_broadcast(self@[name], seq![0x41u8])
                    })
                },
                None => data@.len() < 2 || {
                    let r = data@[1] as int;
                    data@.len() < 2 + r || data@.len() < 2 + r + 1 + data@[2 + r]
                        || !self@.contains_key(utf8_lossy(data@.subrange(2, 2 + r)))
                },
            },
    {
        if data.len() < 2 {
            return None;
        }
        let room_len = data[1] as usize;
        if data.len() < 2 + room_len {
            return None;
        }
        let name = lossy_string(vstd::slice::slice_subrange(data, 2, 2 + room_len));
        let pass_len = data[2 + room_len] as usize;
        if data.len() < 2 + room_len + 1 + pass_len {
            return None;
        }
        match self.host_of(&name) {
            Some(host) => {
                if host.as_str().to_owned() != src.to_owned() {
                    Some(RelayAction::SendTo(host, vec![0x41u8]))
                } else {
                    Some(RelayAction::BroadcastExcept(host, vec![0x41u8]))
                }
            },
            None => None,
        }
    }
}

/// The eight big-endian bytes of `x`.
pub open spec fn be_u64(x: u64) -> Seq<u8> {
    Seq::new(8, |i: int| ((x as int / pow256(7 - i)) % 256) as u8)
}

/// `256` to the power `k`.
pub open spec fn pow256(k: int) -> int
    decreases k,
{
    if k <= 0 {
        1
    } else {
        256 * pow256(k - 1)
    }
}

proof fn lemma_pow256_pos(k: int)
    ensures
        pow256(k) >= 1,
    decreases k,
{
    if k > 0 {
        lemma_pow256_pos(k - 1);
    }
}

/// The eight big-endian bytes of `x`.
fn be_u64_bytes(x: u64) -> (b: Vec<u8>)
    ensures
        b@ == be_u64(x),
{
    let mut b: Vec<u8> = Vec::new();
    let mut div: u64 = 0x100000000000000;
    let mut i: usize = 0;
    assert(pow256(7) == 0x100000000000000) by {
        reveal_with_fuel(pow256, 9);
    }
    while i < 8
        invariant
            i <= 8,
            b@.len() == i,
            i < 8 ==> div == pow256(7 - i),
            div >= 1,
            forall|j: int| 0 <= j < i ==> b@[j] == ((x as int / pow256(7 - j)) % 256) as u8,
        decreases 8 - i,
    {
        b.push(((x / div) % 256) as u8);
        if i < 7 {
            assert(pow256(7 - i) == 256 * pow256(7 - i - 1));
            proof {
                lemma_pow256_pos(6 - i as int);
            }
            div = div / 256;
        }
        i = i + 1;
    }
    assert(b@ =~= be_u64(x));
    b
}

/// What a relay connection's packet asks for.
pub enum RelayRequest {
    /// A packet of the room protocol.
    Custom,
    /// `0x41`: a test packet.
    Test,
    /// `0x20`: create a room (JSON body).
    CreateRoom,
    /// `0x22`: look a room up (JSON body).
    FindRoom,
    /// `0x40`: data for a room's host.
    Data,
    /// `0x32`: ping, answered `[0x33]`.
    Ping,
    /// Anything else, dropped.
    Unknown,
}

/// Sorts a packet from a relay connection: room-protocol packets first, then
/// by the command byte; an empty packet is dropped.
pub fn classify_request(data: &[u8]) -> (req: RelayRequest)
    ensures
        data@.len() == 0 ==> req is Unknown,
        custom_protocol(data@) ==> req is Custom,
        data@.len() > 0 && !custom_protocol(data@) ==> match req {
            RelayRequest::Custom => false,
            RelayRequest::Test => data@[0] == 0x41,
            RelayRequest::CreateRoom => data@[0] == 0x20,
            RelayRequest::FindRoom => data@[0] == 0x22,
            RelayRequest::Data => data@[0] == 0x40,
            RelayRequest::Ping => data@[0] == 0x32,
            RelayRequest::Unknown => data@[0] != 0x41 && data@[0] != 0x20 && data@[0] != 0x22
                && data@[0] != 0x40 && data@[0] != 0x32,
        },
{
    if data.len() == 0 {
        return RelayRequest::Unknown;
    }
    if is_custom_protocol(data) {
        return RelayRequest::Custom;
    }
    match data[0] {
        0x41 => RelayRequest::Test,
        0x20 => RelayRequest::CreateRoom,
        0x22 => RelayRequest::FindRoom,
        0x40 => RelayRequest::Data,
        0x32 => RelayRequest::Ping,
        _ => RelayRequest::Unknown,
    }
}

/// The relay's byte counter for its bandwidth limit: bytes sent in the current
/// one-second window and the second the window began.
#[derive(Debug)]
pub struct BandwidthWindow {
    pub total_bytes_sent: u64,
    pub last_check: u64,
}

impl BandwidthWindow {
    /// Counts `bytes` at second `now`: a new window starts when a second or more
    /// has passed (and the packet is allowed, `None`); otherwise the bytes are
    /// added and the window's total and length in seconds come back, for the
    /// caller to compare with the limit.
    pub fn account(&mut self, now: u64, bytes: u64) -> (res: Option<(u64, u64)>)
        requires
            now >= old(self).last_check,
            now - old(self).last_check < 1 ==> old(self).total_bytes_sent + bytes <= u64::MAX,
        ensures
            now - old(self).last_check >= 1 ==> final(self).total_bytes_sent == bytes
                && final(self).last_check == now && res is None,
            now - old(self).last_check < 1 ==> final(self).total_bytes_sent
                == old(self).total_bytes_sent + bytes && final(self).last_check == old(
                self,
            ).last_check && res == Some((final(self).total_bytes_sent, (now - old(self).last_check + 1) as u64)),
    {
        if now - self.last_check >= 1 {
            self.total_bytes_sent = bytes;
            self.last_check = now;
            return None;
        }
        self.total_bytes_sent = self.total_bytes_sent + bytes;
        Some((self.total_bytes_sent, now - self.last_check + 1))
    }
}

} // verus!
