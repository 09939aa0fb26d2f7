//! The relay wire protocol: `[room_len][room][pass_len][password][AES data]`
//! packets carried in TCP frames with a 4-byte big-endian length prefix.
use crate::crypto::{decrypt, decryption, encrypt, encryption, opt_bytes};
use vstd::prelude::*;
use vstd::string::StringSliceAdditionalSpecFns;

verus! {

/// `REGH`: a host registers its room with the relay.
pub open spec fn msg_regh() -> Seq<u8> {
    seq![0x52u8, 0x45, 0x47, 0x48]
}

/// `REGC`: a member joins a room at the relay.
pub open spec fn msg_regc() -> Seq<u8> {
    seq![0x52u8, 0x45, 0x47, 0x43]
}

/// `REGH_OK`: the relay accepted a host.
pub open spec fn msg_regh_ok() -> Seq<u8> {
    seq![0x52u8, 0x45, 0x47, 0x48, 0x5F, 0x4F, 0x4B]
}

/// `REGC_OK`: the relay accepted a member.
pub open spec fn msg_regc_ok() -> Seq<u8> {
    seq![0x52u8, 0x45, 0x47, 0x43, 0x5F, 0x4F, 0x4B]
}

/// `ERRR`: the relay refused a request.
pub open spec fn msg_errr() -> Seq<u8> {
    seq![0x45u8, 0x52, 0x52, 0x52]
}

/// `DATA`: the prefix of game traffic.
pub open spec fn msg_data() -> Seq<u8> {
    seq![0x44u8, 0x41, 0x54, 0x41]
}

/// `MEMBER_JOIN`: the relay tells a host that a member joined.
pub open spec fn msg_member_join() -> Seq<u8> {
    seq![0x4Du8, 0x45, 0x4D, 0x42, 0x45, 0x52, 0x5F, 0x4A, 0x4F, 0x49, 0x4E]
}

/// `MC_READY`: a member's Minecraft is connected.
pub open spec fn msg_mc_ready() -> Seq<u8> {
    seq![0x4Du8, 0x43, 0x5F, 0x52, 0x45, 0x41, 0x44, 0x59]
}

/// `TEST_PACKET`: the payload of a relay test packet.
pub open spec fn msg_test_packet() -> Seq<u8> {
    seq![0x54u8, 0x45, 0x53, 0x54, 0x5F, 0x50, 0x41, 0x43, 0x4B, 0x45, 0x54]
}

pub fn regh() -> (m: Vec<u8>)
    ensures
        m@ == msg_regh(),
{
    vec![0x52u8, 0x45, 0x47, 0x48]
}

pub fn regc() -> (m: Vec<u8>)
    ensures
        m@ == msg_regc(),
{
    vec![0x52u8, 0x45, 0x47, 0x43]
}

pub fn regh_ok() -> (m: Vec<u8>)
    ensures
        m@ == msg_regh_ok(),
{
    vec![0x52u8, 0x45, 0x47, 0x48, 0x5F, 0x4F, 0x4B]
}

pub fn regc_ok() -> (m: Vec<u8>)
    ensures
        m@ == msg_regc_ok(),
{
    vec![0x52u8, 0x45, 0x47, 0x43, 0x5F, 0x4F, 0x4B]
}

pub fn errr() -> (m: Vec<u8>)
    ensures
        m@ == msg_errr(),
{
    vec![0x45u8, 0x52, 0x52, 0x52]
}

pub fn data_tag() -> (m: Vec<u8>)
    ensures
        m@ == msg_data(),
{
    vec![0x44u8, 0x41, 0x54, 0x41]
}

pub fn member_join() -> (m: Vec<u8>)
    ensures
        m@ == msg_member_join(),
{
    vec![0x4Du8, 0x45, 0x4D, 0x42, 0x45, 0x52, 0x5F, 0x4A, 0x4F, 0x49, 0x4E]
}

pub fn mc_ready() -> (m: Vec<u8>)
    ensures
        m@ == msg_mc_ready(),
{
    vec![0x4Du8, 0x43, 0x5F, 0x52, 0x45, 0x41, 0x44, 0x59]
}

pub fn test_packet_payload() -> (m: Vec<u8>)
    ensures
        m@ == msg_test_packet(),
{
    vec![0x54u8, 0x45, 0x53, 0x54, 0x5F, 0x50, 0x41, 0x43, 0x4B, 0x45, 0x54]
}

/// The leading byte of a relay test packet.
pub open spec fn test_packet_tag() -> u8 {
    0x41
}

/// A packet around `payload`: each length is written as one byte (the length
/// modulo 256), followed by the room and password bytes, then the payload.
pub open spec fn packet_bytes(room: Seq<u8>, password: Seq<u8>, payload: Seq<u8>) -> Seq<u8> {
    seq![room.len() as u8] + room + seq![password.len() as u8] + password + payload
}

/// A packet whose payload is `data` encrypted under `password`.
pub open spec fn sealed_packet(room: Seq<u8>, password: Seq<u8>, data: Seq<u8>) -> Seq<u8> {
    packet_bytes(room, password, encryption(data, password))
}

/// The bytes after the room and password fields, when both fields fit in `data`.
pub open spec fn sealed_payload(data: Seq<u8>) -> Option<Seq<u8>> {
    if data.len() < 2 {
        None
    } else {
        let r = data[0] as int;
        if data.len() < 1 + r + 1 {
            None
        } else {
            let p = data[1 + r] as int;
            if data.len() < 1 + r + 1 + p {
                None
            } else {
                Some(data.skip(2 + r + p))
            }
        }
    }
}

/// What `try_decrypt_response` gives: the payload after the two fields,
/// decrypted under `password`.
pub open spec fn opened_packet(data: Seq<u8>, password: Seq<u8>) -> Option<Seq<u8>> {
    match sealed_payload(data) {
        Some(e) => decryption(e, password),
        None => None,
    }
}

/// Appends all of `src` to `out`.
pub fn append_bytes(out: &mut Vec<u8>, src: &[u8])
    ensures
        final(out)@ == old(out)@ + src@,
{
    let mut i: usize = 0;
    while i < src.len()
        invariant
            i <= src@.len(),
            out@ == old(out)@ + src@.take(i as int),
        decreases src@.len() - i,
    {
        out.push(src[i]);
        assert(src@.take(i + 1) =~= src@.take(i as int).push(src@[i as int]));
        i = i + 1;
    }
    assert(src@.take(src@.len() as int) =~= src@);
}

/// Builds `[room_len][room][pass_len][password][payload]`.
pub fn frame_fields(room: &[u8], password: &[u8], payload: &[u8]) -> (packet: Vec<u8>)
    ensures
        packet@ == packet_bytes(room@, password@, payload@),
{
    let mut packet: Vec<u8> = Vec::new();
    packet.push(room.len() as u8);
    append_bytes(&mut packet, room);
    packet.push(password.len() as u8);
    append_bytes(&mut packet, password);
    append_bytes(&mut packet, payload);
    assert(packet@ =~= packet_bytes(room@, password@, payload@));
    packet
}

/// Encrypts `data` under `password` and frames it with the room and password.
pub fn pack_packet(room: &str, password: &str, data: &[u8]) -> (packet: Vec<u8>)
    ensures
        packet@ == sealed_packet(room.spec_bytes(), password.spec_bytes(), data@),
{
    let encrypted = encrypt(data, password);
    frame_fields(room.as_bytes(), password.as_bytes(), encrypted.as_slice())
}

/// Skips the room and password fields of a packet and decrypts the rest under
/// `password`. A packet sealed under `password` with fields shorter than 256
/// bytes opens to the data it was sealed with.
pub fn try_decrypt_response(data: &[u8], password: &str) -> (res: Option<Vec<u8>>)
    ensures
        opt_bytes(res) == opened_packet(data@, password.spec_bytes()),
        forall|room: Seq<u8>, field: Seq<u8>, d: Seq<u8>|
            room.len() < 256 && field.len() < 256 && #[trigger] packet_bytes(
                room,
                field,
                encryption(d, password.spec_bytes()),
            ) == data@ ==> opt_bytes(res) == Some(d),
{
    proof {
        assert forall|room: Seq<u8>, field: Seq<u8>, d: Seq<u8>|
            room.len() < 256 && field.len() < 256 && #[trigger] packet_bytes(
                room,
                field,
                encryption(d, password.spec_bytes()),
            ) == data@ implies sealed_payload(data@) == Some(
            encryption(d, password.spec_bytes()),
        ) by {
            let e = encryption(d, password.spec_bytes());
            assert(data@[0] == room.len() as u8);
            assert(data@[1 + room.len() as int] == field.len() as u8);
            assert(data@.skip(2 + room.len() as int + field.len() as int) =~= e);
        }
    }
    if data.len() < 2 {
        return None;
    }
    let room_len = data[0] as usize;
    if data.len() < 1 + room_len + 1 {
        return None;
    }
    let pass_len = data[1 + room_len] as usize;
    if data.len() < 1 + room_len + 1 + pass_len {
        return None;
    }
    let encrypted_start = 1 + room_len + 1 + pass_len;
    let encrypted = vstd::slice::slice_subrange(data, encrypted_start, data.len());
    assert(encrypted@ =~= data@.skip(encrypted_start as int));
    decrypt(encrypted, password)
}

/// A test packet: the tag byte `0x41` before a packet sealing `TEST_PACKET`.
pub fn relay_test_packet(room: &str, password: &str) -> (packet: Vec<u8>)
    ensures
        packet@ == seq![test_packet_tag()] + sealed_packet(
            room.spec_bytes(),
            password.spec_bytes(),
            msg_test_packet(),
        ),
{
    let test_data = test_packet_payload();
    let mut packet: Vec<u8> = Vec::new();
    packet.push(0x41);
    let sealed = pack_packet(room, password, test_data.as_slice());
    append_bytes(&mut packet, sealed.as_slice());
    packet
}

/// The four bytes of `x` in big-endian order.
pub open spec fn be_u32(x: u32) -> Seq<u8> {
    seq![(x / 0x1000000) as u8, ((x / 0x10000) % 0x100) as u8, ((x / 0x100) % 0x100) as u8, (x % 0x100) as u8]
}

/// The big-endian number in four bytes.
pub open spec fn be_u32_value(b: Seq<u8>) -> int {
    b[0] * 0x1000000 + b[1] * 0x10000 + b[2] * 0x100 + b[3]
}

/// A TCP frame: the length of `data` (as a `u32`) in four big-endian bytes,
/// then `data`.
pub fn frame_packet(data: &[u8]) -> (frame: Vec<u8>)
    ensures
        frame@ == be_u32(data@.len() as u32) + data@,
{
    let len = data.len() as u32;
    let mut frame: Vec<u8> = Vec::new();
    frame.push((len / 0x1000000) as u8);
    frame.push(((len / 0x10000) % 0x100) as u8);
    frame.push(((len / 0x100) % 0x100) as u8);
    frame.push((len % 0x100) as u8);
    append_bytes(&mut frame, data);
    assert(frame@ =~= be_u32(data@.len() as u32) + data@);
    frame
}

/// The payload length that a frame's 4-byte header announces.
pub fn frame_length(header: [u8; 4]) -> (len: u32)
    ensures
        len == be_u32_value(header@),
{
    let len: u32 = (header[0] as u32) * 0x1000000 + (header[1] as u32) * 0x10000 + (header[2] as u32)
        * 0x100 + (header[3] as u32);
    len
}

/// The header of a frame announces the length it was written with.
pub proof fn lemma_frame_header_roundtrip(len: u32)
    ensures
        be_u32_value(be_u32(len)) == len,
{
    let b = be_u32(len);
    assert(b[0] == len / 0x1000000);
    assert(b[1] == (len / 0x10000) % 0x100);
    assert(b[2] == (len / 0x100) % 0x100);
    assert(b[3] == len % 0x100);
    assert(be_u32_value(b) == len) by (nonlinear_arith)
        requires
            b[0] == len / 0x1000000,
            b[1] == (len / 0x10000) % 0x100,
            b[2] == (len / 0x100) % 0x100,
            b[3] == len % 0x100,
            be_u32_value(b) == b[0] * 0x1000000 + b[1] * 0x10000 + b[2] * 0x100 + b[3],
            0 <= len < 0x100000000,
    ;
}

/// The game bytes of a decrypted `DATA` message.
pub open spec fn data_content(msg: Seq<u8>) -> Option<Seq<u8>> {
    if msg.len() >= 4 && msg.take(4) == msg_data() {
        Some(msg.skip(4))
    } else {
        None
    }
}

/// Whether `a` and `b` hold the same bytes.
pub fn bytes_equal(a: &[u8], b: &[u8]) -> (eq: bool)
    ensures
        eq == (a@ == b@),
{
    if a.len() != b.len() {
        return false;
    }
    let mut i: usize = 0;
    while i < a.len()
        invariant
            i <= a@.len(),
            a@.len() == b@.len(),
            forall|j: int| 0 <= j < i ==> a@[j] == b@[j],
        decreases a@.len() - i,
    {
        if a[i] != b[i] {
            return false;
        }
        i = i + 1;
    }
    assert(a@ =~= b@);
    true
}

/// The game bytes of a decrypted `DATA` message, `None` for any other message.
pub fn unwrap_data(msg: &[u8]) -> (res: Option<Vec<u8>>)
    ensures
        opt_bytes(res) == data_content(msg@),
{
    if msg.len() < 4 {
        return None;
    }
    let tag = data_tag();
    let head = vstd::slice::slice_subrange(msg, 0, 4);
    if !bytes_equal(head, tag.as_slice()) {
        assert(head@ =~= msg@.take(4));
        return None;
    }
    assert(head@ =~= msg@.take(4));
    let rest = vstd::slice::slice_subrange(msg, 4, msg.len());
    assert(rest@ =~= msg@.skip(4));
    Some(vstd::slice::slice_to_vec(rest))
}

/// A packet carrying game bytes: `DATA` followed by `payload`, sealed for the room.
pub fn data_packet(room: &str, password: &str, payload: &[u8]) -> (packet: Vec<u8>)
    ensures
        packet@ == sealed_packet(room.spec_bytes(), password.spec_bytes(), msg_data() + payload@),
{
    let mut msg = data_tag();
    append_bytes(&mut msg, payload);
    pack_packet(room, password, msg.as_slice())
}

/// The game bytes carried by a packet from the relay, `None` when it does not
/// open under `password` or is not a `DATA` message. The game bytes sealed by
/// `data_packet` under `password` come back.
pub fn relayed_data(packet: &[u8], password: &str) -> (res: Option<Vec<u8>>)
    ensures
        opt_bytes(res) == (match opened_packet(packet@, password.spec_bytes()) {
            Some(m) => data_content(m),
            None => None,
        }),
        forall|room: Seq<u8>, field: Seq<u8>, p: Seq<u8>|
            room.len() < 256 && field.len() < 256 && #[trigger] packet_bytes(
                room,
                field,
                encryption(msg_data() + p, password.spec_bytes()),
            ) == packet@ ==> opt_bytes(res) == Some(p),
{
    match try_decrypt_response(packet, password) {
        Some(msg) => {
            proof {
                assert forall|room: Seq<u8>, field: Seq<u8>, p: Seq<u8>|
                    room.len() < 256 && field.len() < 256 && #[trigger] packet_bytes(
                        room,
                        field,
                        encryption(msg_data() + p, password.spec_bytes()),
                    ) == packet@ implies data_content(msg@) == Some(p) by {
                    assert(msg@ == msg_data() + p);
                    assert((msg_data() + p).take(4) =~= msg_data());
                    assert((msg_data() + p).skip(4) =~= p);
                }
            }
            unwrap_data(msg.as_slice())
        },
        None => None,
    }
}

/// What the host does with a packet read from the relay.
pub enum HostInbound {
    /// A relay test packet (leading byte `0x41`).
    Test,
    /// Game bytes for the host's Minecraft.
    Data(Vec<u8>),
    /// Anything else, skipped.
    Ignored,
}

/// Sorts a packet that the host read from the relay: test packets by their
/// leading byte, then the game bytes of a `DATA` message that opens under
/// `password`; everything else is skipped.
pub fn classify_host_inbound(packet: &[u8], password: &str) -> (res: HostInbound)
    ensures
        packet@.len() > 0 && packet@[0] == test_packet_tag() ==> res is Test,
        !(packet@.len() > 0 && packet@[0] == test_packet_tag()) ==> match res {
            HostInbound::Test => false,
            HostInbound::Data(d) => (match opened_packet(packet@, password.spec_bytes()) {
                Some(m) => data_content(m),
                None => None,
            }) == Some(d@),
            HostInbound::Ignored => (match opened_packet(packet@, password.spec_bytes()) {
                Some(m) => data_content(m),
                None => None,
            }) is None,
        },
{
    if packet.len() > 0 && packet[0] == 0x41 {
        return HostInbound::Test;
    }
    match relayed_data(packet, password) {
        Some(d) => HostInbound::Data(d),
        None => HostInbound::Ignored,
    }
}

/// The relay's answer to a registration.
pub enum RegistrationReply {
    /// The expected acknowledgement.
    Accepted,
    /// `ERRR`: the relay refused.
    Refused,
    /// Some other message.
    Unexpected,
    /// The reply did not open under the password.
    Undecryptable,
}

/// Reads the relay's reply to a registration whose acknowledgement is `ack`
/// (`REGH_OK` for a host, `REGC_OK` for a member).
pub fn registration_reply(packet: &[u8], password: &str, ack: &[u8]) -> (res: RegistrationReply)
    ensures
        match opened_packet(packet@, password.spec_bytes()) {
            None => res is Undecryptable,
            Some(m) => if m == ack@ {
                res is Accepted
            } else if m == msg_errr() {
                res is Refused
            } else {
                res is Unexpected
            },
        },
{
    match try_decrypt_response(packet, password) {
        None => RegistrationReply::Undecryptable,
        Some(m) => {
            let refused = errr();
            if bytes_equal(m.as_slice(), ack) {
                RegistrationReply::Accepted
            } else if bytes_equal(m.as_slice(), refused.as_slice()) {
                RegistrationReply::Refused
            } else {
                RegistrationReply::Unexpected
            }
        },
    }
}

} // verus!
