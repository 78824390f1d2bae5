use netwatch::decode::{decode_frame, format_mac, is_dns_port};
use netwatch::model::Protocol;

fn eth(ethertype: u16, payload: &[u8]) -> Vec<u8> {
    let mut f = vec![0u8; 12];
    f.push((ethertype >> 8) as u8);
    f.push((ethertype & 0xFF) as u8);
    f.extend_from_slice(payload);
    f
}

fn arp_payload(smac: [u8; 6], sip: [u8; 4], tmac: [u8; 6], tip: [u8; 4]) -> Vec<u8> {
    let mut p = vec![0u8; 8];
    p.extend_from_slice(&smac);
    p.extend_from_slice(&sip);
    p.extend_from_slice(&tmac);
    p.extend_from_slice(&tip);
    p
}

fn ipv4_frame(proto: u8, src: [u8; 4], dst: [u8; 4], transport: &[u8]) -> Vec<u8> {
    let mut p = vec![0u8; 20];
    p[0] = 0x45;
    p[9] = proto;
    p[12..16].copy_from_slice(&src);
    p[16..20].copy_from_slice(&dst);
    p.extend_from_slice(transport);
    eth(0x0800, &p)
}

fn tcp_header(sport: u16, dport: u16) -> Vec<u8> {
    let mut t = vec![0u8; 20];
    t[0] = (sport >> 8) as u8;
    t[1] = (sport & 0xFF) as u8;
    t[2] = (dport >> 8) as u8;
    t[3] = (dport & 0xFF) as u8;
    t[12] = 0x50;
    t
}

fn udp_header(sport: u16, dport: u16) -> Vec<u8> {
    let mut u = vec![0u8; 8];
    u[0] = (sport >> 8) as u8;
    u[1] = (sport & 0xFF) as u8;
    u[2] = (dport >> 8) as u8;
    u[3] = (dport & 0xFF) as u8;
    u
}

#[test]
fn arp_round_trip() {
    let frame = eth(
        0x0806,
        &arp_payload(
            [0xAA, 0xBB, 0xCC, 0xDD, 0xEE, 0xFF],
            [10, 0, 0, 1],
            [0x11, 0x22, 0x33, 0x44, 0x55, 0x66],
            [10, 0, 0, 2],
        ),
    );
    let e = decode_frame(&frame, 7).expect("well-formed ARP frame");
    assert_eq!(e.protocol, Protocol::Arp);
    assert_eq!(e.protocol.label(), "ARP");
    assert_eq!(e.source, "AA:BB:CC:DD:EE:FF (10.0.0.1)");
    assert_eq!(e.destination, "11:22:33:44:55:66 (10.0.0.2)");
    assert_eq!(e.payload_size, frame.len());
    assert_eq!(e.timestamp, 7);
}

#[test]
fn short_frames_yield_no_event() {
    // too short for the Ethernet header itself
    assert!(decode_frame(&vec![0u8; 13], 0).is_none());
    // one byte short of a whole ARP payload
    let mut arp = eth(0x0806, &[0u8; 28]);
    assert!(decode_frame(&arp, 0).is_some());
    arp.pop();
    assert!(decode_frame(&arp, 0).is_none());
    // one byte short of an IPv4 header
    let mut v4 = vec![0u8; 12];
    v4.push(0x08);
    v4.push(0x00);
    v4.extend_from_slice(&[0u8; 19]);
    assert!(decode_frame(&v4, 0).is_none());
    // one byte short of an IPv6 header
    let mut v6 = vec![0u8; 12];
    v6.push(0x86);
    v6.push(0xDD);
    v6.extend_from_slice(&[0u8; 39]);
    assert!(decode_frame(&v6, 0).is_none());
}

#[test]
fn unknown_ethertype_is_dropped() {
    let frame = eth(0x1234, &[0u8; 60]);
    assert!(decode_frame(&frame, 0).is_none());
}

#[test]
fn tcp_frame_decodes_with_ports() {
    let frame = ipv4_frame(6, [1, 2, 3, 4], [5, 6, 7, 8], &tcp_header(1234, 80));
    let e = decode_frame(&frame, 1).unwrap();
    assert_eq!(e.protocol, Protocol::Tcp);
    assert_eq!(e.source, "1.2.3.4:1234");
    assert_eq!(e.destination, "5.6.7.8:80");
}

#[test]
fn tcp_port_53_is_dns() {
    let to53 = ipv4_frame(6, [1, 2, 3, 4], [5, 6, 7, 8], &tcp_header(40000, 53));
    assert_eq!(decode_frame(&to53, 0).unwrap().protocol, Protocol::Dns);
    let from53 = ipv4_frame(6, [1, 2, 3, 4], [5, 6, 7, 8], &tcp_header(53, 40000));
    assert_eq!(decode_frame(&from53, 0).unwrap().protocol, Protocol::Dns);
}

#[test]
fn udp_port_53_is_dns() {
    let to53 = ipv4_frame(17, [9, 9, 9, 9], [8, 8, 8, 8], &udp_header(5353, 53));
    let e = decode_frame(&to53, 0).unwrap();
    assert_eq!(e.protocol, Protocol::Dns);
    assert_eq!(e.protocol.label(), "DNS");
    assert_eq!(e.source, "9.9.9.9:5353");
    assert_eq!(e.destination, "8.8.8.8:53");
    let plain = ipv4_frame(17, [9, 9, 9, 9], [8, 8, 8, 8], &udp_header(1000, 2000));
    assert_eq!(decode_frame(&plain, 0).unwrap().protocol, Protocol::Udp);
}

#[test]
fn icmp_has_no_ports() {
    let frame = ipv4_frame(1, [1, 2, 3, 4], [5, 6, 7, 8], &[0u8; 8]);
    let e = decode_frame(&frame, 0).unwrap();
    assert_eq!(e.protocol, Protocol::Icmp);
    assert_eq!(e.source, "1.2.3.4");
    assert_eq!(e.destination, "5.6.7.8");
}

#[test]
fn unknown_ip_protocol_is_forwarded() {
    let frame = ipv4_frame(99, [1, 2, 3, 4], [5, 6, 7, 8], &[]);
    let e = decode_frame(&frame, 0).unwrap();
    assert_eq!(e.protocol, Protocol::Unknown);
    assert_eq!(e.protocol.label(), "Unknown");
    assert_eq!(e.source, "1.2.3.4");
}

#[test]
fn wrong_ip_version_is_dropped() {
    let mut frame = ipv4_frame(6, [1, 2, 3, 4], [5, 6, 7, 8], &tcp_header(1, 2));
    frame[14] = 0x65; // version 6 in an IPv4 frame
    assert!(decode_frame(&frame, 0).is_none());
    let mut low_ihl = ipv4_frame(6, [1, 2, 3, 4], [5, 6, 7, 8], &tcp_header(1, 2));
    low_ihl[14] = 0x44; // header length below the minimum
    assert!(decode_frame(&low_ihl, 0).is_none());
}

#[test]
fn truncated_tcp_is_dropped() {
    let mut frame = ipv4_frame(6, [1, 2, 3, 4], [5, 6, 7, 8], &tcp_header(1, 2));
    frame.pop();
    assert!(decode_frame(&frame, 0).is_none());
    let mut bad_offset = ipv4_frame(6, [1, 2, 3, 4], [5, 6, 7, 8], &tcp_header(1, 2));
    bad_offset[46] = 0x40; // data offset below the minimum
    assert!(decode_frame(&bad_offset, 0).is_none());
}

#[test]
fn ipv6_decodes_in_full_form() {
    let mut p = vec![0u8; 40];
    p[6] = 58; // ICMPv6
    p[8] = 0x20;
    p[9] = 0x01;
    p[10] = 0x0d;
    p[11] = 0xb8;
    p[23] = 1; // source ends ...:1
    p[39] = 2; // destination ends ...:2
    let frame = eth(0x86DD, &p);
    let e = decode_frame(&frame, 0).unwrap();
    assert_eq!(e.protocol, Protocol::Icmpv6);
    assert_eq!(e.protocol.label(), "ICMPv6");
    assert_eq!(e.source, "2001:db8:0:0:0:0:0:1");
    assert_eq!(e.destination, "0:0:0:0:0:0:0:2");
}

#[test]
fn ipv6_tcp_port_53_is_dns() {
    let mut p = vec![0u8; 40];
    p[6] = 6;
    p[23] = 1;
    p[39] = 2;
    p.extend_from_slice(&tcp_header(53, 9000));
    let frame = eth(0x86DD, &p);
    let e = decode_frame(&frame, 0).unwrap();
    assert_eq!(e.protocol, Protocol::Dns);
    assert_eq!(e.source, "0:0:0:0:0:0:0:1:53");
}

#[test]
fn mac_formatting_is_uppercase_hex() {
    assert_eq!(format_mac(&vec![0xAA, 0x0F, 0x00]), "AA:0F:00");
    assert_eq!(format_mac(&vec![]), "");
    assert_eq!(format_mac(&vec![0x01]), "01");
}

#[test]
fn ipv4_options_shift_the_transport_header() {
    // a 24-byte IP header: the ports sit four bytes later
    let mut p = vec![0u8; 24];
    p[0] = 0x46;
    p[9] = 6;
    p[12..16].copy_from_slice(&[1, 2, 3, 4]);
    p[16..20].copy_from_slice(&[5, 6, 7, 8]);
    p.extend_from_slice(&tcp_header(7777, 8888));
    let frame = eth(0x0800, &p);
    let e = decode_frame(&frame, 0).unwrap();
    assert_eq!(e.protocol, Protocol::Tcp);
    assert_eq!(e.source, "1.2.3.4:7777");
    assert_eq!(e.destination, "5.6.7.8:8888");
}

#[test]
fn dns_port_check() {
    assert!(is_dns_port(53, 1000));
    assert!(is_dns_port(1000, 53));
    assert!(!is_dns_port(80, 443));
}
