//! The central server's request/reply framing, as the desktop client and
//! the relays speak it: one command byte, then a JSON body.
use crate::protocol::append_bytes;
use vstd::prelude::*;
use vstd::string::StrSliceExecFns;

verus! {

/// A relay as the central server lists it.
#[derive(Debug, Clone)]
pub struct RelayInfo {
    pub id: String,
    pub name: String,
    pub address: String,
}

/// A room as the central server records it.
#[derive(Debug, Clone)]
pub struct RoomInfo {
    pub name: String,
    pub password_hash: String,
    pub host_relay_id: String,
    pub created_at: u64,
}

impl RoomInfo {
    /// A copy of the room.
    pub fn duplicate(&self) -> (r: RoomInfo)
        ensures
            r == *self,
    {
        RoomInfo {
            name: self.name.clone(),
            password_hash: self.password_hash.clone(),
            host_relay_id: self.host_relay_id.clone(),
            created_at: self.created_at,
        }
    }
}

impl RelayInfo {
    /// A copy of the relay.
    pub fn duplicate(&self) -> (r: RelayInfo)
        ensures
            r == *self,
    {
        RelayInfo { id: self.id.clone(), name: self.name.clone(), address: self.address.clone() }
    }
}

/// A relay registers itself.
pub const CMD_REGISTER_RELAY: u8 = 0x10;
/// A relay reports it is alive.
pub const CMD_HEARTBEAT: u8 = 0x11;
/// The client asks for the relay list.
pub const CMD_GET_RELAYS: u8 = 0x12;
/// The reply to `CMD_GET_RELAYS`.
pub const REPLY_RELAYS: u8 = 0x13;
/// A relay reports a latency to another relay.
pub const CMD_LATENCY_REPORT: u8 = 0x14;
/// Someone asks for the topology.
pub const CMD_GET_TOPOLOGY: u8 = 0x15;
/// The reply to `CMD_GET_TOPOLOGY`.
pub const REPLY_TOPOLOGY: u8 = 0x16;
/// The client creates a room.
pub const CMD_CREATE_ROOM: u8 = 0x20;
/// The reply to `CMD_CREATE_ROOM`.
pub const REPLY_CREATE_ROOM: u8 = 0x21;
/// The client looks a room up.
pub const CMD_GET_ROOM: u8 = 0x22;
/// The reply to `CMD_GET_ROOM`.
pub const REPLY_GET_ROOM: u8 = 0x23;
/// The client deletes a room.
pub const CMD_DELETE_ROOM: u8 = 0x24;
/// The reply to `CMD_DELETE_ROOM`.
pub const REPLY_DELETE_ROOM: u8 = 0x25;
/// A relay reports a probe of a link.
pub const CMD_PROBE_REPORT: u8 = 0x31;
/// A ping.
pub const CMD_PING: u8 = 0x32;
/// The answer to a ping.
pub const REPLY_PONG: u8 = 0x33;

/// A request: the command byte, then the body.
pub fn central_request(cmd: u8, body: &[u8]) -> (packet: Vec<u8>)
    ensures
        packet@ == seq![cmd] + body@,
{
    let mut packet: Vec<u8> = Vec::new();
    packet.push(cmd);
    append_bytes(&mut packet, body);
    assert(packet@ =~= seq![cmd] + body@);
    packet
}

/// The body of a reply that starts with `code`.
pub open spec fn reply_body_of(resp: Seq<u8>, code: u8) -> Option<Seq<u8>> {
    if resp.len() > 0 && resp[0] == code {
        Some(resp.skip(1))
    } else {
        None
    }
}

/// The body of a reply that starts with `code` (the relay list, the room
/// lookup), `None` for any other reply.
pub fn reply_body(resp: &[u8], code: u8) -> (body: Option<Vec<u8>>)
    ensures
        crate::crypto::opt_bytes(body) == reply_body_of(resp@, code),
{
    if resp.len() > 0 && resp[0] == code {
        let rest = vstd::slice::slice_subrange(resp, 1, resp.len());
        assert(rest@ =~= resp@.skip(1));
        Some(vstd::slice::slice_to_vec(rest))
    } else {
        None
    }
}

/// The room in a reply to `CMD_CREATE_ROOM`: present after `[0x21, 0x00]`.
pub open spec fn created_room_body_of(resp: Seq<u8>) -> Option<Seq<u8>> {
    if resp.len() > 1 && resp[0] == REPLY_CREATE_ROOM && resp[1] == 0 {
        Some(resp.skip(2))
    } else {
        None
    }
}

/// The JSON of the room that a `CMD_CREATE_ROOM` reply reports as created;
/// `None` when the room was refused.
pub fn created_room_body(resp: &[u8]) -> (body: Option<Vec<u8>>)
    ensures
        crate::crypto::opt_bytes(body) == created_room_body_of(resp@),
{
    if resp.len() > 1 && resp[0] == REPLY_CREATE_ROOM && resp[1] == 0 {
        let rest = vstd::slice::slice_subrange(resp, 2, resp.len());
        assert(rest@ =~= resp@.skip(2));
        Some(vstd::slice::slice_to_vec(rest))
    } else {
        None
    }
}

/// Whether a `CMD_DELETE_ROOM` reply reports the room deleted: `[0x25, 0x00, ..]`.
pub fn room_deleted(resp: &[u8]) -> (deleted: bool)
    ensures
        deleted == (resp@.len() >= 2 && resp@[0] == REPLY_DELETE_ROOM && resp@[1] == 0),
{
    resp.len() >= 2 && resp[0] == REPLY_DELETE_ROOM && resp[1] == 0
}

/// Whether the central server acknowledged a relay's registration: `[0x10, 0x00, ..]`.
pub fn is_register_ack(resp: &[u8]) -> (ack: bool)
    ensures
        ack == (resp@.len() >= 2 && resp@[0] == CMD_REGISTER_RELAY && resp@[1] == 0),
{
    resp.len() >= 2 && resp[0] == CMD_REGISTER_RELAY && resp[1] == 0
}

/// `char::is_whitespace`: the characters with the Unicode `White_Space`
/// property.
pub open spec fn is_white(c: char) -> bool {
    let u = c as u32;
    (0x09 <= u <= 0x0D) || u == 0x20 || u == 0x85 || u == 0xA0 || u == 0x1680 || (0x2000 <= u
        <= 0x200A) || u == 0x2028 || u == 0x2029 || u == 0x202F || u == 0x205F || u == 0x3000
}

/// The characters that a trim removes: white space when `target` is `None`,
/// otherwise the one character.
pub open spec fn trimmed_char(target: Option<char>, c: char) -> bool {
    match target {
        None => is_white(c),
        Some(t) => c == t,
    }
}

/// `s` without its leading trimmed characters.
pub open spec fn strip_start(s: Seq<char>, target: Option<char>) -> Seq<char>
    decreases s.len(),
{
    if s.len() > 0 && trimmed_char(target, s[0]) {
        strip_start(s.drop_first(), target)
    } else {
        s
    }
}

/// `s` without its trailing trimmed characters.
pub open spec fn strip_end(s: Seq<char>, target: Option<char>) -> Seq<char>
    decreases s.len(),
{
    if s.len() > 0 && trimmed_char(target, s.last()) {
        strip_end(s.drop_last(), target)
    } else {
        s
    }
}

/// `str::trim` (for `None`) or `str::trim_matches` of one character.
pub open spec fn strip(s: Seq<char>, target: Option<char>) -> Seq<char> {
    strip_end(strip_start(s, target), target)
}

/// `central_server:`
pub open spec fn setting_key() -> Seq<char> {
    seq!['c', 'e', 'n', 't', 'r', 'a', 'l', '_', 's', 'e', 'r', 'v', 'e', 'r', ':']
}

/// The value that a configuration line gives the central server's address:
/// after `central_server:` at the start of the trimmed line, the rest
/// trimmed, then stripped of double and then of single quotes.
pub open spec fn setting_value(line: Seq<char>) -> Option<Seq<char>> {
    let t = strip(line, None);
    let k = setting_key();
    if t.len() >= k.len() && t.take(k.len() as int) == k {
        Some(strip(strip(strip(t.skip(k.len() as int), None), Some('"')), Some('\'')))
    } else {
        None
    }
}

/// The length of the first line of `s` (up to the first `\n`).
pub open spec fn first_line_len(s: Seq<char>) -> nat
    decreases s.len(),
{
    if s.len() == 0 || s[0] == '\n' {
        0
    } else {
        1 + first_line_len(s.drop_first())
    }
}

/// The central server's address that a configuration text sets: the first
/// line that sets a non-empty value.
pub open spec fn setting_in(s: Seq<char>) -> Option<Seq<char>>
    decreases s.len(),
{
    let n = first_line_len(s);
    match setting_value(s.take(n as int)) {
        Some(v) if v.len() > 0 => Some(v),
        _ => if n < s.len() {
            setting_in(s.skip(n as int + 1))
        } else {
            None
        },
    }
}

proof fn lemma_first_line_len(s: Seq<char>, m: int)
    requires
        0 <= m <= s.len(),
        forall|k: int| 0 <= k < m ==> s[k] != '\n',
        m == s.len() || s[m] == '\n',
    ensures
        first_line_len(s) == m,
    decreases m,
{
    if m > 0 {
        lemma_first_line_len(s.drop_first(), m - 1);
    }
}

fn trims(c: char, target: Option<char>) -> (b: bool)
    ensures
        b == trimmed_char(target, c),
{
    match target {
        Some(t) => c == t,
        None => {
            let u = c as u32;
            (0x09 <= u && u <= 0x0D) || u == 0x20 || u == 0x85 || u == 0xA0 || u == 0x1680 || (0x2000
                <= u && u <= 0x200A) || u == 0x2028 || u == 0x2029 || u == 0x202F || u == 0x205F || u
                == 0x3000
        },
    }
}

/// The bounds of `s[a..b]` once trimmed.
fn stripped_range(s: &str, a: usize, b: usize, target: Option<char>) -> (r: (usize, usize))
    requires
        a <= b <= s@.len(),
    ensures
        a <= r.0 <= r.1 <= b,
        s@.subrange(r.0 as int, r.1 as int) == strip(s@.subrange(a as int, b as int), target),
{
    let mut i = a;
    while i < b && trims(s.get_char(i), target)
        invariant
            a <= i <= b,
            b <= s@.len(),
            strip_start(s@.subrange(i as int, b as int), target) == strip_start(
                s@.subrange(a as int, b as int),
                target,
            ),
        decreases b - i,
    {
        assert(s@.subrange(i as int, b as int).drop_first() =~= s@.subrange(i + 1, b as int));
        i = i + 1;
    }
    assert(strip_start(s@.subrange(i as int, b as int), target) == s@.subrange(i as int, b as int));
    let mut j = b;
    while j > i && trims(s.get_char(j - 1), target)
        invariant
            i <= j <= b,
            b <= s@.len(),
            strip_end(s@.subrange(i as int, j as int), target) == strip_end(
                s@.subrange(i as int, b as int),
                target,
            ),
        decreases j - i,
    {
        assert(s@.subrange(i as int, j as int).drop_last() =~= s@.subrange(i as int, j - 1));
        j = j - 1;
    }
    assert(strip_end(s@.subrange(i as int, j as int), target) == s@.subrange(i as int, j as int));
    (i, j)
}

/// Whether `s[from..]` starts with `central_server:`.
fn starts_with_key(s: &str, from: usize, to: usize) -> (ok: bool)
    requires
        from <= to <= s@.len(),
    ensures
        ok == (to - from >= setting_key().len() && s@.subrange(from as int, to as int).take(
            setting_key().len() as int,
        ) == setting_key()),
{
    let key: [char; 15] = ['c', 'e', 'n', 't', 'r', 'a', 'l', '_', 's', 'e', 'r', 'v', 'e', 'r', ':'];
    assert(key@ =~= setting_key());
    if to - from < 15 {
        return false;
    }
    let mut k: usize = 0;
    while k < 15
        invariant
            k <= 15,
            from + 15 <= to <= s@.len(),
            key@ == setting_key(),
            forall|m: int| 0 <= m < k ==> s@[from + m] == key@[m],
        decreases 15 - k,
    {
        if s.get_char(from + k) != key[k] {
            assert(s@.subrange(from as int, to as int).take(15)[k as int] != setting_key()[k as int]);
            return false;
        }
        k = k + 1;
    }
    assert(s@.subrange(from as int, to as int).take(15) =~= setting_key());
    true
}

/// The central server's address that a configuration text sets with a
/// line `central_server: <address>` (the first such line with a non-empty
/// value; the address may be quoted).
pub fn central_server_setting(content: &str) -> (res: Option<String>)
    ensures
        match res {
            Some(v) => setting_in(content@) == Some(v@),
            None => setting_in(content@) is None,
        },
{
    let n = content.unicode_len();
    let mut a: usize = 0;
    assert(content@.skip(0) =~= content@);
    loop
        invariant
            n == content@.len(),
            a <= n,
            setting_in(content@) == setting_in(content@.skip(a as int)),
        decreases n - a,
    {
        let mut b = a;
        while b < n && content.get_char(b) != '\n'
            invariant
                a <= b <= n,
                n == content@.len(),
                forall|k: int| a <= k < b ==> content@[k] != '\n',
            decreases n - b,
        {
            b = b + 1;
        }
        let ghost rest = content@.skip(a as int);
        proof {
            lemma_first_line_len(rest, b - a);
            assert(rest.take(b - a) =~= content@.subrange(a as int, b as int));
        }
        let (t0, t1) = stripped_range(content, a, b, None);
        if starts_with_key(content, t0, t1) {
            let (v0, v1) = stripped_range(content, t0 + 15, t1, None);
            let (w0, w1) = stripped_range(content, v0, v1, Some('"'));
            let (x0, x1) = stripped_range(content, w0, w1, Some('\''));
            proof {
                assert(content@.subrange(t0 + 15, t1 as int) =~= content@.subrange(t0 as int, t1 as int).skip(
                    15,
                ));
            }
            if x1 > x0 {
                let value = content.substring_char(x0, x1).to_owned();
                return Some(value);
            }
        }
        if b == n {
            return None;
        }
        assert(rest.skip(b - a + 1) =~= content@.skip(b + 1));
        a = b + 1;
    }
}

} // verus!
