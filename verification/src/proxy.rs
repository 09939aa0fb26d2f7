//! PROXY protocol version 2 headers, which a load balancer puts in front of a
//! TCP stream to pass on the client's real address.
use crate::protocol::bytes_equal;
use vstd::prelude::*;

verus! {

/// An address of the header: 4 address bytes for IPv4, 16 for IPv6, and a port.
#[derive(Debug)]
pub struct ProxyEndpoint {
    pub ip: Vec<u8>,
    pub port: u16,
}

/// The source (the real client) and destination of a proxied connection.
#[derive(Debug)]
pub struct ProxyProtocolHeader {
    pub src_addr: ProxyEndpoint,
    pub dst_addr: ProxyEndpoint,
}

/// The 12-byte signature that opens a version 2 header.
pub open spec fn proxy_signature() -> Seq<u8> {
    seq![0x0Du8, 0x0A, 0x0D, 0x0A, 0x00, 0x0D, 0x0A, 0x51, 0x55, 0x49, 0x54, 0x0A]
}

fn signature() -> (s: Vec<u8>)
    ensures
        s@ == proxy_signature(),
{
    vec![0x0Du8, 0x0A, 0x0D, 0x0A, 0x00, 0x0D, 0x0A, 0x51, 0x55, 0x49, 0x54, 0x0A]
}

/// The length of the address block that bytes 14 and 15 announce (big endian).
pub open spec fn announced_len(data: Seq<u8>) -> int {
    data[14] * 256 + data[15]
}

/// The fixed part of a version 2 `PROXY` header over a stream protocol: at least
/// 16 bytes, the signature, version 2 in the high nibble of byte 12, and
/// protocol 1 in the low nibble of byte 13.
pub open spec fn proxy_prefix_ok(data: Seq<u8>) -> bool {
    &&& data.len() >= 16
    &&& data.take(12) == proxy_signature()
    &&& data[12] / 16 == 2
    &&& data[13] % 16 == 1
}

/// The endpoint made of `ip` and the big-endian port in `hi`, `lo`.
pub open spec fn endpoint(ip: Seq<u8>, hi: u8, lo: u8) -> (Seq<u8>, u16) {
    (ip, (hi * 256 + lo) as u16)
}

/// The header that `data` holds: source and destination endpoints, for
/// family 1 (IPv4, at least 12 address bytes) or family 2 (IPv6, at least 36),
/// read from the address block that follows the 16 fixed bytes.
pub open spec fn proxy_header(data: Seq<u8>) -> Option<((Seq<u8>, u16), (Seq<u8>, u16))> {
    if !proxy_prefix_ok(data) {
        None
    } else {
        let len = announced_len(data);
        let hd = data.subrange(16, 16 + len);
        let family = data[13] / 16;
        if family == 1 && len >= 12 {
            Some((endpoint(hd.subrange(0, 4), hd[8], hd[9]), endpoint(hd.subrange(4, 8), hd[10], hd[11])))
        } else if family == 2 && len >= 36 {
            Some((endpoint(hd.subrange(0, 16), hd[32], hd[33]), endpoint(hd.subrange(16, 32), hd[34], hd[35])))
        } else {
            None
        }
    }
}

pub open spec fn endpoint_view(e: ProxyEndpoint) -> (Seq<u8>, u16) {
    (e.ip@, e.port)
}

/// Whether `buf` begins with the 12-byte signature.
pub fn has_proxy_signature(buf: &[u8]) -> (ok: bool)
    ensures
        ok == (buf@.len() >= 12 && buf@.take(12) == proxy_signature()),
{
    if buf.len() < 12 {
        return false;
    }
    let sig = signature();
    let head = vstd::slice::slice_subrange(buf, 0, 12);
    assert(head@ =~= buf@.take(12));
    bytes_equal(head, sig.as_slice())
}

/// The length of the address block that a 16-byte fixed header announces.
pub fn proxy_payload_len(header: &[u8]) -> (len: usize)
    requires
        header@.len() >= 16,
    ensures
        len == announced_len(header@),
{
    header[14] as usize * 256 + header[15] as usize
}

fn port_of(hi: u8, lo: u8) -> (p: u16)
    ensures
        p == (hi * 256 + lo) as u16,
{
    (hi as u16) * 256 + lo as u16
}

/// Parses a version 2 `PROXY` header. The address block must be complete when
/// the fixed part is valid (reading it whole is the caller's part).
pub fn parse_proxy_protocol_v2(data: &[u8]) -> (res: Option<ProxyProtocolHeader>)
    requires
        proxy_prefix_ok(data@) ==> data@.len() >= 16 + announced_len(data@),
    ensures
        match res {
            Some(h) => proxy_header(data@) == Some((endpoint_view(h.src_addr), endpoint_view(h.dst_addr))),
            None => proxy_header(data@) is None,
        },
{
    if data.len() < 16 || !has_proxy_signature(data) {
        return None;
    }
    let version = data[12] / 16;
    if version != 2 {
        return None;
    }
    let family = data[13] / 16;
    if data[13] % 16 != 1 {
        return None;
    }
    let len = proxy_payload_len(data);
    let hd = vstd::slice::slice_subrange(data, 16, 16 + len);
    if family == 1 && hd.len() >= 12 {
        let src_ip = vstd::slice::slice_to_vec(vstd::slice::slice_subrange(hd, 0, 4));
        let dst_ip = vstd::slice::slice_to_vec(vstd::slice::slice_subrange(hd, 4, 8));
        let src_port = port_of(hd[8], hd[9]);
        let dst_port = port_of(hd[10], hd[11]);
        Some(ProxyProtocolHeader {
            src_addr: ProxyEndpoint { ip: src_ip, port: src_port },
            dst_addr: ProxyEndpoint { ip: dst_ip, port: dst_port },
        })
    } else if family == 2 && hd.len() >= 36 {
        let src_ip = vstd::slice::slice_to_vec(vstd::slice::slice_subrange(hd, 0, 16));
        let dst_ip = vstd::slice::slice_to_vec(vstd::slice::slice_subrange(hd, 16, 32));
        let src_port = port_of(hd[32], hd[33]);
        let dst_port = port_of(hd[34], hd[35]);
        Some(ProxyProtocolHeader {
            src_addr: ProxyEndpoint { ip: src_ip, port: src_port },
            dst_addr: ProxyEndpoint { ip: dst_ip, port: dst_port },
        })
    } else {
        None
    }
}

} // verus!
