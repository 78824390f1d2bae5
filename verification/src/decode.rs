//! The protocol decoder: turns a raw Ethernet II frame into a normalised
//! `NetworkEvent`, or rejects it. Malformed headers at any layer drop the
//! whole frame — no event, no panic — because a single bad frame on a live
//! interface must never halt capture.
//!
//! The wire formats are stated here as spec functions over the frame's
//! bytes; the parsing code is proved to accept exactly the well-formed
//! frames and to render the endpoint strings those specs describe.

use vstd::prelude::*;
use vstd::string::*;

use crate::model::{NetworkEvent, Protocol};
use crate::text::{
    byte_hex_uc, dec_str, hex_str_lc, u16_to_hex_string, u64_to_string, append_byte_hex,
};

verus! {

pub const ETHERTYPE_IPV4: u16 = 0x0800;
pub const ETHERTYPE_ARP: u16 = 0x0806;
pub const ETHERTYPE_IPV6: u16 = 0x86DD;

pub const IP_PROTO_ICMP: u8 = 1;
pub const IP_PROTO_TCP: u8 = 6;
pub const IP_PROTO_UDP: u8 = 17;
pub const IP_PROTO_ICMPV6: u8 = 58;

pub const DNS_PORT: u16 = 53;

/// The big-endian 16-bit value at offset `i`.
pub open spec fn be16(f: Seq<u8>, i: int) -> int {
    f[i] * 256 + f[i + 1]
}

/// The EtherType declared by a frame (it has one only when the fixed
/// 14-byte Ethernet II header is complete).
pub open spec fn ether_type(f: Seq<u8>) -> int {
    be16(f, 12)
}

/// The dotted-decimal rendering of an IPv4 address.
pub open spec fn ipv4_str(a: u8, b: u8, c: u8, d: u8) -> Seq<char> {
    dec_str(a as nat) + "."@ + dec_str(b as nat) + "."@ + dec_str(c as nat) + "."@ + dec_str(
        d as nat,
    )
}

/// Renders an IPv4 address as dotted decimal.
pub fn ipv4_string(a: u8, b: u8, c: u8, d: u8) -> (s: String)
    ensures
        s@ == ipv4_str(a, b, c, d),
        s@.len() > 0,
{
    let mut s = u64_to_string(a as u64);
    s.append(".");
    s.append(u64_to_string(b as u64).as_str());
    s.append(".");
    s.append(u64_to_string(c as u64).as_str());
    s.append(".");
    s.append(u64_to_string(d as u64).as_str());
    proof {
        assert(s@ =~= ipv4_str(a, b, c, d));
    }
    s
}

/// The colon-joined upper-case hex rendering of a byte string (the usual
/// MAC address notation when it has six bytes).
pub open spec fn mac_str(bytes: Seq<u8>) -> Seq<char>
    decreases bytes.len(),
{
    if bytes.len() == 0 {
        Seq::empty()
    } else if bytes.len() == 1 {
        byte_hex_uc(bytes[0])
    } else {
        mac_str(bytes.drop_last()) + ":"@ + byte_hex_uc(bytes.last())
    }
}

/// Renders bytes as colon-separated upper-case hex pairs.
pub fn format_mac(bytes: &Vec<u8>) -> (s: String)
    ensures
        s@ == mac_str(bytes@),
{
    let mut s = String::new();
    let n = bytes.len();
    let mut i: usize = 0;
    while i < n
        invariant
            n == bytes@.len(),
            i <= n,
            s@ == mac_str(bytes@.take(i as int)),
        decreases n - i,
    {
        if i > 0 {
            s.append(":");
        }
        append_byte_hex(&mut s, bytes[i]);
        proof {
            assert(bytes@.take(i + 1).drop_last() =~= bytes@.take(i as int));
            assert(bytes@.take(i + 1).last() == bytes@[i as int]);
        }
        i = i + 1;
    }
    proof {
        assert(bytes@.take(n as int) =~= bytes@);
    }
    s
}

/// The 16-bit group `k` of the IPv6 address whose first byte sits at `base`.
pub open spec fn ipv6_group(f: Seq<u8>, base: int, k: int) -> nat {
    be16(f, base + 2 * k) as nat
}

/// The first `k` groups of an IPv6 address, colon-joined, each in
/// lower-case hex without leading zeros. This crate renders all eight
/// groups in full rather than compressing zero runs.
pub open spec fn ipv6_prefix_str(f: Seq<u8>, base: int, k: int) -> Seq<char>
    decreases k,
{
    if k <= 0 {
        Seq::empty()
    } else if k == 1 {
        hex_str_lc(ipv6_group(f, base, 0))
    } else {
        ipv6_prefix_str(f, base, k - 1) + ":"@ + hex_str_lc(ipv6_group(f, base, k - 1))
    }
}

/// The full-form textual rendering of the IPv6 address at `base`.
pub open spec fn ipv6_str(f: Seq<u8>, base: int) -> Seq<char> {
    ipv6_prefix_str(f, base, 8)
}

/// Renders the IPv6 address whose 16 bytes start at `base`.
fn ipv6_string(frame: &Vec<u8>, base: usize) -> (s: String)
    requires
        base + 16 <= frame@.len(),
    ensures
        s@ == ipv6_str(frame@, base as int),
        s@.len() > 0,
{
    let n = frame.len();
    let mut s = String::new();
    let mut k: usize = 0;
    while k < 8
        invariant
            n == frame@.len(),
            base + 16 <= n,
            k <= 8,
            s@ == ipv6_prefix_str(frame@, base as int, k as int),
        decreases 8 - k,
    {
        if k > 0 {
            s.append(":");
        }
        let g: u16 = (frame[base + 2 * k] as u16) * 256 + (frame[base + 2 * k + 1] as u16);
        proof {
            assert(g as nat == ipv6_group(frame@, base as int, k as int));
        }
        s.append(u16_to_hex_string(g).as_str());
        k = k + 1;
    }
    proof {
        assert(s@ == ipv6_prefix_str(frame@, base as int, 8));
        assert(ipv6_prefix_str(frame@, base as int, 8) == ipv6_prefix_str(frame@, base as int, 7)
            + ":"@ + hex_str_lc(ipv6_group(frame@, base as int, 7)));
    }
    s
}

/// The `"<address>:<port>"` rendering of an endpoint.
pub open spec fn endpoint_str(ip: Seq<char>, port: int) -> Seq<char> {
    ip + ":"@ + dec_str(port as nat)
}

/// Renders `"<address>:<port>"`.
fn endpoint_string(ip: String, port: u16) -> (s: String)
    ensures
        s@ == endpoint_str(ip@, port as int),
        s@.len() > 0,
{
    let mut s = ip;
    s.append(":");
    s.append(u64_to_string(port as u64).as_str());
    s
}

/// The `"<MAC> (<IPv4>)"` rendering of an ARP endpoint whose six MAC bytes
/// start at `m` and whose four address bytes start at `p`.
pub open spec fn arp_endpoint_str(f: Seq<u8>, m: int, p: int) -> Seq<char> {
    mac_str(f.subrange(m, m + 6)) + " ("@ + ipv4_str(f[p], f[p + 1], f[p + 2], f[p + 3]) + ")"@
}

fn arp_endpoint_string(frame: &Vec<u8>, m: usize, p: usize) -> (s: String)
    requires
        m + 6 <= frame@.len(),
        p + 4 <= frame@.len(),
    ensures
        s@ == arp_endpoint_str(frame@, m as int, p as int),
        s@.len() > 0,
{
    let n = frame.len();
    let mut mac_bytes: Vec<u8> = Vec::new();
    let mut i: usize = 0;
    while i < 6
        invariant
            n == frame@.len(),
            m + 6 <= n,
            i <= 6,
            mac_bytes@ == frame@.subrange(m as int, m + i),
        decreases 6 - i,
    {
        mac_bytes.push(frame[m + i]);
        proof {
            assert(frame@.subrange(m as int, m + i + 1) =~= frame@.subrange(m as int, m + i).push(
                frame@[m + i],
            ));
        }
        i = i + 1;
    }
    let mut s = format_mac(&mac_bytes);
    s.append(" (");
    s.append(ipv4_string(frame[p], frame[p + 1], frame[p + 2], frame[p + 3]).as_str());
    s.append(")");
    proof {
        assert(s@ =~= arp_endpoint_str(frame@, m as int, p as int));
    }
    s
}

/// A complete TCP header at offset `off`: the fixed 20 bytes are present,
/// the data-offset field is at least 5, and the header it declares fits.
pub open spec fn tcp_ok(f: Seq<u8>, off: int) -> bool {
    &&& f.len() >= off + 20
    &&& f[off + 12] / 16 >= 5
    &&& f.len() >= off + (f[off + 12] / 16) * 4
}

/// A complete 8-byte UDP header at offset `off`.
pub open spec fn udp_ok(f: Seq<u8>, off: int) -> bool {
    f.len() >= off + 8
}

/// The IPv4 header-length field, in 32-bit words.
pub open spec fn ipv4_ihl(f: Seq<u8>) -> int {
    f[14] as int % 16
}

/// Where the transport header of an IPv4 frame begins.
pub open spec fn ipv4_transport_off(f: Seq<u8>) -> int {
    14 + ipv4_ihl(f) * 4
}

/// A well-formed IPv4 frame: version 4, a complete variable-length header,
/// and a complete transport header where the protocol declares one.
pub open spec fn ipv4_ok(f: Seq<u8>) -> bool {
    &&& f.len() >= 34
    &&& f[14] / 16 == 4
    &&& ipv4_ihl(f) >= 5
    &&& f.len() >= ipv4_transport_off(f)
    &&& (f[23] == IP_PROTO_TCP ==> tcp_ok(f, ipv4_transport_off(f)))
    &&& (f[23] == IP_PROTO_UDP ==> udp_ok(f, ipv4_transport_off(f)))
}

/// A well-formed IPv6 frame: the fixed 40-byte header is complete, and the
/// immediate next-header's transport header is complete where it declares
/// one. Extension-header chains are not followed; their frames fall under
/// the unknown-protocol policy.
pub open spec fn ipv6_ok(f: Seq<u8>) -> bool {
    &&& f.len() >= 54
    &&& (f[20] == IP_PROTO_TCP ==> tcp_ok(f, 54))
    &&& (f[20] == IP_PROTO_UDP ==> udp_ok(f, 54))
}

/// A frame the decoder accepts: a complete Ethernet II header with a known
/// EtherType, and a well-formed payload for that EtherType.
pub open spec fn frame_ok(f: Seq<u8>) -> bool {
    &&& f.len() >= 14
    &&& {
        let et = ether_type(f);
        if et == ETHERTYPE_ARP as int {
            f.len() >= 42
        } else if et == ETHERTYPE_IPV4 as int {
            ipv4_ok(f)
        } else if et == ETHERTYPE_IPV6 as int {
            ipv6_ok(f)
        } else {
            false
        }
    }
}

/// The protocol tag of a transport layer with ports: DNS when either port
/// is 53, otherwise TCP or UDP as carried.
pub open spec fn transport_protocol(f: Seq<u8>, off: int, is_tcp: bool) -> Protocol {
    if be16(f, off) == DNS_PORT as int || be16(f, off + 2) == DNS_PORT as int {
        Protocol::Dns
    } else if is_tcp {
        Protocol::Tcp
    } else {
        Protocol::Udp
    }
}

/// The protocol tag of a well-formed IPv4 frame.
pub open spec fn ipv4_protocol(f: Seq<u8>) -> Protocol {
    if f[23] == IP_PROTO_TCP {
        transport_protocol(f, ipv4_transport_off(f), true)
    } else if f[23] == IP_PROTO_UDP {
        transport_protocol(f, ipv4_transport_off(f), false)
    } else if f[23] == IP_PROTO_ICMP {
        Protocol::Icmp
    } else {
        Protocol::Unknown
    }
}

/// The protocol tag of a well-formed IPv6 frame.
pub open spec fn ipv6_protocol(f: Seq<u8>) -> Protocol {
    if f[20] == IP_PROTO_TCP {
        transport_protocol(f, 54, true)
    } else if f[20] == IP_PROTO_UDP {
        transport_protocol(f, 54, false)
    } else if f[20] == IP_PROTO_ICMPV6 {
        Protocol::Icmpv6
    } else {
        Protocol::Unknown
    }
}

/// The protocol tag of a well-formed frame.
pub open spec fn frame_protocol(f: Seq<u8>) -> Protocol {
    let et = ether_type(f);
    if et == ETHERTYPE_ARP as int {
        Protocol::Arp
    } else if et == ETHERTYPE_IPV4 as int {
        ipv4_protocol(f)
    } else {
        ipv6_protocol(f)
    }
}

/// The source endpoint text of a well-formed IPv4 frame.
pub open spec fn ipv4_source(f: Seq<u8>) -> Seq<char> {
    let ip = ipv4_str(f[26], f[27], f[28], f[29]);
    if f[23] == IP_PROTO_TCP || f[23] == IP_PROTO_UDP {
        endpoint_str(ip, be16(f, ipv4_transport_off(f)))
    } else {
        ip
    }
}

/// The destination endpoint text of a well-formed IPv4 frame.
pub open spec fn ipv4_destination(f: Seq<u8>) -> Seq<char> {
    let ip = ipv4_str(f[30], f[31], f[32], f[33]);
    if f[23] == IP_PROTO_TCP || f[23] == IP_PROTO_UDP {
        endpoint_str(ip, be16(f, ipv4_transport_off(f) + 2))
    } else {
        ip
    }
}

/// The source endpoint text of a well-formed IPv6 frame.
pub open spec fn ipv6_source(f: Seq<u8>) -> Seq<char> {
    let ip = ipv6_str(f, 22);
    if f[20] == IP_PROTO_TCP || f[20] == IP_PROTO_UDP {
        endpoint_str(ip, be16(f, 54))
    } else {
        ip
    }
}

/// The destination endpoint text of a well-formed IPv6 frame.
pub open spec fn ipv6_destination(f: Seq<u8>) -> Seq<char> {
    let ip = ipv6_str(f, 38);
    if f[20] == IP_PROTO_TCP || f[20] == IP_PROTO_UDP {
        endpoint_str(ip, be16(f, 56))
    } else {
        ip
    }
}

/// The source endpoint text of a well-formed frame.
pub open spec fn frame_source(f: Seq<u8>) -> Seq<char> {
    let et = ether_type(f);
    if et == ETHERTYPE_ARP as int {
        arp_endpoint_str(f, 22, 28)
    } else if et == ETHERTYPE_IPV4 as int {
        ipv4_source(f)
    } else {
        ipv6_source(f)
    }
}

/// The destination endpoint text of a well-formed frame.
pub open spec fn frame_destination(f: Seq<u8>) -> Seq<char> {
    let et = ether_type(f);
    if et == ETHERTYPE_ARP as int {
        arp_endpoint_str(f, 32, 38)
    } else if et == ETHERTYPE_IPV4 as int {
        ipv4_destination(f)
    } else {
        ipv6_destination(f)
    }
}

/// Whether either transport port is the DNS port.
pub fn is_dns_port(src: u16, dst: u16) -> (b: bool)
    ensures
        b == (src == DNS_PORT || dst == DNS_PORT),
{
    src == DNS_PORT || dst == DNS_PORT
}

/// Parses the TCP header at `off` and renders the two endpoints from the
/// given address texts; DNS traffic is reclassified by port.
pub fn parse_tcp(frame: &Vec<u8>, off: usize, src_ip: String, dst_ip: String) -> (r: Option<
    (Protocol, String, String),
>)
    requires
        off <= frame@.len(),
    ensures
        r is Some <==> tcp_ok(frame@, off as int),
        r matches Some(t) ==> {
            &&& t.0 == transport_protocol(frame@, off as int, true)
            &&& t.1@ == endpoint_str(src_ip@, be16(frame@, off as int))
            &&& t.2@ == endpoint_str(dst_ip@, be16(frame@, off + 2))
            &&& t.1@.len() > 0 && t.2@.len() > 0
        },
{
    let n = frame.len();
    if n - off < 20 {
        return None;
    }
    let data_off = frame[off + 12] / 16;
    if data_off < 5 {
        return None;
    }
    if n - off < (data_off as usize) * 4 {
        return None;
    }
    let sp: u16 = (frame[off] as u16) * 256 + frame[off + 1] as u16;
    let dp: u16 = (frame[off + 2] as u16) * 256 + frame[off + 3] as u16;
    let protocol = if is_dns_port(sp, dp) {
        Protocol::Dns
    } else {
        Protocol::Tcp
    };
    Some((protocol, endpoint_string(src_ip, sp), endpoint_string(dst_ip, dp)))
}

/// Parses the UDP header at `off` and renders the two endpoints from the
/// given address texts; DNS traffic is reclassified by port.
pub fn parse_udp(frame: &Vec<u8>, off: usize, src_ip: String, dst_ip: String) -> (r: Option<
    (Protocol, String, String),
>)
    requires
        off <= frame@.len(),
    ensures
        r is Some <==> udp_ok(frame@, off as int),
        r matches Some(t) ==> {
            &&& t.0 == transport_protocol(frame@, off as int, false)
            &&& t.1@ == endpoint_str(src_ip@, be16(frame@, off as int))
            &&& t.2@ == endpoint_str(dst_ip@, be16(frame@, off + 2))
            &&& t.1@.len() > 0 && t.2@.len() > 0
        },
{
    let n = frame.len();
    if n - off < 8 {
        return None;
    }
    let sp: u16 = (frame[off] as u16) * 256 + frame[off + 1] as u16;
    let dp: u16 = (frame[off + 2] as u16) * 256 + frame[off + 3] as u16;
    let protocol = if is_dns_port(sp, dp) {
        Protocol::Dns
    } else {
        Protocol::Udp
    };
    Some((protocol, endpoint_string(src_ip, sp), endpoint_string(dst_ip, dp)))
}

/// Parses the ARP payload of a frame: rejected outright when the 28 bytes
/// after the Ethernet header are not all present.
pub fn parse_arp(frame: &Vec<u8>) -> (r: Option<(Protocol, String, String)>)
    ensures
        r is Some <==> frame@.len() >= 42,
        r matches Some(t) ==> {
            &&& t.0 == Protocol::Arp
            &&& t.1@ == arp_endpoint_str(frame@, 22, 28)
            &&& t.2@ == arp_endpoint_str(frame@, 32, 38)
            &&& t.1@.len() > 0 && t.2@.len() > 0
        },
{
    if frame.len() < 42 {
        return None;
    }
    let source = arp_endpoint_string(frame, 22, 28);
    let destination = arp_endpoint_string(frame, 32, 38);
    Some((Protocol::Arp, source, destination))
}

/// Parses the IPv4 header and the transport layer it carries.
pub fn parse_ipv4(frame: &Vec<u8>) -> (r: Option<(Protocol, String, String)>)
    ensures
        r is Some <==> ipv4_ok(frame@),
        r matches Some(t) ==> {
            &&& t.0 == ipv4_protocol(frame@)
            &&& t.1@ == ipv4_source(frame@)
            &&& t.2@ == ipv4_destination(frame@)
            &&& t.1@.len() > 0 && t.2@.len() > 0
        },
{
    let n = frame.len();
    if n < 34 {
        return None;
    }
    let vihl = frame[14];
    if vihl / 16 != 4 {
        return None;
    }
    let ihl = (vihl % 16) as usize;
    if ihl < 5 {
        return None;
    }
    let off = 14 + ihl * 4;
    if n < off {
        return None;
    }
    let src_ip = ipv4_string(frame[26], frame[27], frame[28], frame[29]);
    let dst_ip = ipv4_string(frame[30], frame[31], frame[32], frame[33]);
    let proto = frame[23];
    if proto == IP_PROTO_TCP {
        parse_tcp(frame, off, src_ip, dst_ip)
    } else if proto == IP_PROTO_UDP {
        parse_udp(frame, off, src_ip, dst_ip)
    } else if proto == IP_PROTO_ICMP {
        Some((Protocol::Icmp, src_ip, dst_ip))
    } else {
        Some((Protocol::Unknown, src_ip, dst_ip))
    }
}

/// Parses the IPv6 header and the transport layer its immediate
/// next-header field declares.
pub fn parse_ipv6(frame: &Vec<u8>) -> (r: Option<(Protocol, String, String)>)
    ensures
        r is Some <==> ipv6_ok(frame@),
        r matches Some(t) ==> {
            &&& t.0 == ipv6_protocol(frame@)
            &&& t.1@ == ipv6_source(frame@)
            &&& t.2@ == ipv6_destination(frame@)
            &&& t.1@.len() > 0 && t.2@.len() > 0
        },
{
    let n = frame.len();
    if n < 54 {
        return None;
    }
    let src_ip = ipv6_string(frame, 22);
    let dst_ip = ipv6_string(frame, 38);
    let nh = frame[20];
    if nh == IP_PROTO_TCP {
        parse_tcp(frame, 54, src_ip, dst_ip)
    } else if nh == IP_PROTO_UDP {
        parse_udp(frame, 54, src_ip, dst_ip)
    } else if nh == IP_PROTO_ICMPV6 {
        Some((Protocol::Icmpv6, src_ip, dst_ip))
    } else {
        Some((Protocol::Unknown, src_ip, dst_ip))
    }
}

/// Decodes one raw frame into a normalised event, or rejects it.
///
/// The decoder accepts a frame exactly when `frame_ok` holds of its bytes;
/// an accepted frame yields the protocol tag and the two endpoint texts
/// that the wire-format specs prescribe, the full frame length, and the
/// capture timestamp it was handed. A rejected frame yields nothing — never
/// a partial or placeholder event.
pub fn decode_frame(frame: &Vec<u8>, timestamp: u64) -> (r: Option<NetworkEvent>)
    ensures
        r is Some <==> frame_ok(frame@),
        r matches Some(e) ==> {
            &&& e.protocol == frame_protocol(frame@)
            &&& e.source@ == frame_source(frame@)
            &&& e.destination@ == frame_destination(frame@)
            &&& e.payload_size == frame@.len()
            &&& e.timestamp == timestamp
            &&& e.is_populated()
        },
{
    let n = frame.len();
    if n < 14 {
        return None;
    }
    let et: u16 = (frame[12] as u16) * 256 + frame[13] as u16;
    let parsed = if et == ETHERTYPE_ARP {
        parse_arp(frame)
    } else if et == ETHERTYPE_IPV4 {
        parse_ipv4(frame)
    } else if et == ETHERTYPE_IPV6 {
        parse_ipv6(frame)
    } else {
        None
    };
    match parsed {
        Some(t) => Some(
            NetworkEvent {
                protocol: t.0,
                source: t.1,
                destination: t.2,
                payload_size: n,
                timestamp,
            },
        ),
        None => None,
    }
}

/// For every frame shorter than the minimum header size for its declared
/// EtherType — and for every frame too short to declare one — the decoder
/// accepts nothing, so it returns no event.
pub proof fn lemma_short_frame_rejected(f: Seq<u8>)
    requires
        f.len() < 14 || (ether_type(f) == ETHERTYPE_ARP as int && f.len() < 42) || (ether_type(f)
            == ETHERTYPE_IPV4 as int && f.len() < 34) || (ether_type(f) == ETHERTYPE_IPV6 as int
            && f.len() < 54),
    ensures
        !frame_ok(f),
{
}

/// Whether a well-formed frame carries a transport layer with ports.
pub open spec fn has_transport_ports(f: Seq<u8>) -> bool {
    &&& frame_ok(f)
    &&& {
        let et = ether_type(f);
        if et == ETHERTYPE_IPV4 as int {
            f[23] == IP_PROTO_TCP || f[23] == IP_PROTO_UDP
        } else if et == ETHERTYPE_IPV6 as int {
            f[20] == IP_PROTO_TCP || f[20] == IP_PROTO_UDP
        } else {
            false
        }
    }
}

/// Where that transport layer begins.
pub open spec fn transport_offset(f: Seq<u8>) -> int {
    if ether_type(f) == ETHERTYPE_IPV4 as int {
        ipv4_transport_off(f)
    } else {
        54
    }
}

/// A decoded TCP or UDP event is tagged DNS exactly when either of its
/// ports equals 53.
pub proof fn lemma_dns_port_classification(f: Seq<u8>)
    requires
        has_transport_ports(f),
    ensures
        frame_protocol(f) == Protocol::Dns <==> (be16(f, transport_offset(f)) == DNS_PORT as int
            || be16(f, transport_offset(f) + 2) == DNS_PORT as int),
{
}

} // verus!
