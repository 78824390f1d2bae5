use netwatch::detection::{
    detect_arp_spoofing, detect_dns_flood, detect_large_transfers, detect_port_scanning,
    detect_rare_ports, detect_suspicious_dns, detect_suspicious_traffic, detect_udp_floods,
};
use netwatch::model::{ActivityType, DnsAnswer, NetworkEvent, Protocol};

const NOW: u64 = 1_000_000_000_000;

fn ev(protocol: Protocol, source: &str, destination: &str, payload_size: usize) -> NetworkEvent {
    NetworkEvent {
        protocol,
        source: source.to_string(),
        destination: destination.to_string(),
        payload_size,
        timestamp: NOW,
    }
}

fn answer(query: &str, resolved_ip: &str, source: &str, high_entropy: bool) -> DnsAnswer {
    DnsAnswer {
        query: query.to_string(),
        resolved_ip: resolved_ip.to_string(),
        source: source.to_string(),
        record_type: "A".to_string(),
        timestamp: NOW,
        high_entropy,
    }
}

#[test]
fn port_scan_fires_above_fifteen_distinct_ports() {
    let mut events = Vec::new();
    for p in 0..16u16 {
        events.push(ev(Protocol::Tcp, "1.2.3.4:40000", &format!("5.6.7.8:{}", 4000 + p), 60));
    }
    let alerts = detect_port_scanning(&events, NOW, NOW);
    assert_eq!(alerts.len(), 1);
    assert_eq!(alerts[0].activity_type, ActivityType::PortScanning);
    assert_eq!(alerts[0].source, "1.2.3.4:40000");
    assert_eq!(alerts[0].details, "16 unique ports scanned on 5.6.7.8");
    assert_eq!(alerts[0].timestamp, NOW);
}

#[test]
fn port_scan_quiet_at_fifteen_distinct_ports() {
    let mut events = Vec::new();
    for p in 0..15u16 {
        events.push(ev(Protocol::Tcp, "1.2.3.4:40000", &format!("5.6.7.8:{}", 4000 + p), 60));
    }
    // repeats of an already-counted port do not add distinct ports
    events.push(ev(Protocol::Tcp, "1.2.3.4:40000", "5.6.7.8:4000", 60));
    assert!(detect_port_scanning(&events, NOW, NOW).is_empty());
}

#[test]
fn port_scan_ignores_unsplittable_destinations() {
    let mut events = Vec::new();
    for p in 0..16u16 {
        // an IPv6-style destination holds several colons and is excluded
        events.push(ev(
            Protocol::Tcp,
            "1.2.3.4:40000",
            &format!("0:0:0:0:0:0:0:1:{}", 4000 + p),
            60,
        ));
    }
    assert!(detect_port_scanning(&events, NOW, NOW).is_empty());
}

#[test]
fn dns_flood_boundary() {
    let mut events = Vec::new();
    for _ in 0..301 {
        events.push(ev(Protocol::Dns, "9.9.9.9:5353", "8.8.8.8:53", 70));
    }
    let alerts = detect_dns_flood(&events, NOW, NOW);
    assert_eq!(alerts.len(), 1);
    assert_eq!(alerts[0].activity_type, ActivityType::DnsFlood);
    assert_eq!(alerts[0].source, "9.9.9.9:5353");
    assert_eq!(alerts[0].details, "301 DNS queries in 1 minute");

    events.pop();
    assert!(detect_dns_flood(&events, NOW, NOW).is_empty());
}

#[test]
fn dns_flood_window_excludes_old_queries() {
    let mut events = Vec::new();
    for _ in 0..301 {
        let mut e = ev(Protocol::Dns, "9.9.9.9:5353", "8.8.8.8:53", 70);
        e.timestamp = NOW - 60_000_001; // just before the window opens
        events.push(e);
    }
    assert!(detect_dns_flood(&events, NOW, NOW).is_empty());
}

#[test]
fn arp_spoofing_boundary() {
    let macs = ["AA:00:00:00:00:01", "AA:00:00:00:00:02", "AA:00:00:00:00:03", "AA:00:00:00:00:04"];
    let mut events = Vec::new();
    for m in macs.iter() {
        events.push(ev(
            Protocol::Arp,
            &format!("{} (192.168.1.10)", m),
            "FF:FF:FF:FF:FF:FF (192.168.1.1)",
            42,
        ));
    }
    let alerts = detect_arp_spoofing(&events, NOW);
    assert_eq!(alerts.len(), 1);
    assert_eq!(alerts[0].activity_type, ActivityType::ArpSpoofing);
    assert_eq!(alerts[0].source, "192.168.1.10");
    assert_eq!(
        alerts[0].details,
        "Multiple MACs (AA:00:00:00:00:01, AA:00:00:00:00:02, AA:00:00:00:00:03, AA:00:00:00:00:04) claiming same IP"
    );

    events.pop();
    assert!(detect_arp_spoofing(&events, NOW).is_empty());
}

#[test]
fn arp_spoofing_counts_distinct_macs_only() {
    let mut events = Vec::new();
    for _ in 0..10 {
        events.push(ev(
            Protocol::Arp,
            "AA:00:00:00:00:01 (192.168.1.10)",
            "FF:FF:FF:FF:FF:FF (192.168.1.1)",
            42,
        ));
    }
    assert!(detect_arp_spoofing(&events, NOW).is_empty());
}

#[test]
fn udp_flood_boundary() {
    let mut events = Vec::new();
    for _ in 0..1001 {
        events.push(ev(Protocol::Udp, "7.7.7.7:9000", "5.5.5.5:9001", 100));
    }
    let alerts = detect_udp_floods(&events, NOW, NOW);
    assert_eq!(alerts.len(), 1);
    assert_eq!(alerts[0].activity_type, ActivityType::UdpFlood);
    assert_eq!(alerts[0].source, "7.7.7.7:9000");
    assert_eq!(alerts[0].details, "1001 UDP packets in 1 minute");

    events.pop();
    assert!(detect_udp_floods(&events, NOW, NOW).is_empty());
}

#[test]
fn large_transfer_boundary() {
    let mut events = Vec::new();
    events.push(ev(Protocol::Tcp, "2.2.2.2:5000", "3.3.3.3:443", 6_000_000));
    events.push(ev(Protocol::Tcp, "2.2.2.2:5000", "3.3.3.3:443", 6_000_000));
    let alerts = detect_large_transfers(&events, NOW, NOW);
    assert_eq!(alerts.len(), 1);
    assert_eq!(alerts[0].activity_type, ActivityType::LargeDataTransfer);
    assert_eq!(alerts[0].source, "2.2.2.2:5000");
    assert_eq!(alerts[0].details, "12000000 bytes transferred in 5 minutes");

    // exactly the threshold stays quiet: the condition is strictly greater
    let exact = vec![ev(Protocol::Tcp, "2.2.2.2:5000", "3.3.3.3:443", 10_000_000)];
    assert!(detect_large_transfers(&exact, NOW, NOW).is_empty());
}

#[test]
fn rare_port_fires_above_five_connections() {
    let mut events = Vec::new();
    for i in 0..6 {
        let src = if i % 2 == 0 { "1.1.1.1:9000" } else { "2.2.2.2:9000" };
        events.push(ev(Protocol::Tcp, src, "4.4.4.4:55555", 60));
    }
    let alerts = detect_rare_ports(&events, NOW, NOW);
    assert_eq!(alerts.len(), 1);
    assert_eq!(alerts[0].activity_type, ActivityType::RarePortActivity);
    assert_eq!(alerts[0].source, "1.1.1.1:9000, 2.2.2.2:9000");
    assert_eq!(alerts[0].details, "6 connections to port 55555");
}

#[test]
fn rare_port_quiet_at_five_or_on_common_ports() {
    let mut five = Vec::new();
    for _ in 0..5 {
        five.push(ev(Protocol::Tcp, "1.1.1.1:9000", "4.4.4.4:55555", 60));
    }
    assert!(detect_rare_ports(&five, NOW, NOW).is_empty());

    let mut common = Vec::new();
    for _ in 0..100 {
        common.push(ev(Protocol::Tcp, "1.1.1.1:9000", "4.4.4.4:443", 60));
    }
    assert!(detect_rare_ports(&common, NOW, NOW).is_empty());
}

#[test]
fn suspicious_dns_needs_risk_and_http() {
    let answers = vec![answer("qwer1234.xyz", "203.0.113.5", "10.0.0.2:5353", false)];
    let with_http = vec![ev(Protocol::Tcp, "10.0.0.2:44000", "203.0.113.5:80", 60)];
    let (alerts, mappings) = detect_suspicious_dns(&answers, &with_http, NOW, NOW);
    assert_eq!(alerts.len(), 1);
    assert_eq!(alerts[0].activity_type, ActivityType::SuspiciousDns);
    assert_eq!(alerts[0].source, "10.0.0.2:5353");
    assert_eq!(
        alerts[0].details,
        "Suspicious Medium domain: qwer1234.xyz resolved to 203.0.113.5 (HTTP traffic detected)"
    );
    assert_eq!(mappings.len(), 1);
    assert_eq!(mappings[0].query, "qwer1234.xyz");
    assert_eq!(mappings[0].resolved_ip, "203.0.113.5");
    assert!(mappings[0].is_http);
    assert_eq!(mappings[0].source, "10.0.0.2:5353");

    // without the HTTP connection nothing is reported
    let no_http = vec![ev(Protocol::Tcp, "10.0.0.2:44000", "203.0.113.5:443", 60)];
    let (alerts2, mappings2) = detect_suspicious_dns(&answers, &no_http, NOW, NOW);
    assert!(alerts2.is_empty() && mappings2.is_empty());

    // a low-risk domain is never reported
    let benign = vec![answer("example.com", "203.0.113.5", "10.0.0.2:5353", false)];
    let (alerts3, _) = detect_suspicious_dns(&benign, &with_http, NOW, NOW);
    assert!(alerts3.is_empty());

    // only A-record answers take part in the correlation
    let mut aaaa = answer("qwer1234.xyz", "203.0.113.5", "10.0.0.2:5353", false);
    aaaa.record_type = "AAAA".to_string();
    let (alerts4, _) = detect_suspicious_dns(&vec![aaaa], &with_http, NOW, NOW);
    assert!(alerts4.is_empty());
}

fn alert_contents(alerts: &[netwatch::model::SuspiciousActivity]) -> Vec<(String, String, String)> {
    let mut v: Vec<(String, String, String)> = alerts
        .iter()
        .map(|a| (a.activity_type.label(), a.source.clone(), a.details.clone()))
        .collect();
    v.sort();
    v
}

#[test]
fn sweep_is_idempotent_up_to_timestamps() {
    let mut events = Vec::new();
    for p in 0..16u16 {
        events.push(ev(Protocol::Tcp, "1.2.3.4:40000", &format!("5.6.7.8:{}", 4000 + p), 60));
    }
    for _ in 0..301 {
        events.push(ev(Protocol::Dns, "9.9.9.9:5353", "8.8.8.8:53", 70));
    }
    for m in ["AA:00:00:00:00:01", "AA:00:00:00:00:02", "AA:00:00:00:00:03", "AA:00:00:00:00:04"] {
        events.push(ev(
            Protocol::Arp,
            &format!("{} (192.168.1.10)", m),
            "FF:FF:FF:FF:FF:FF (192.168.1.1)",
            42,
        ));
    }
    events.push(ev(Protocol::Tcp, "10.0.0.2:44000", "203.0.113.5:80", 60));
    let answers = vec![answer("qwer1234.xyz", "203.0.113.5", "10.0.0.2:5353", false)];

    let (r1, m1) = detect_suspicious_traffic(&events, &answers, NOW, NOW);
    let (r2, m2) = detect_suspicious_traffic(&events, &answers, NOW, NOW + 30_000_000);

    assert!(!r1.is_empty());
    assert_eq!(alert_contents(&r1), alert_contents(&r2));
    assert_eq!(m1.len(), m2.len());
    for (a, b) in m1.iter().zip(m2.iter()) {
        assert_eq!(a.query, b.query);
        assert_eq!(a.resolved_ip, b.resolved_ip);
        assert_eq!(a.source, b.source);
        assert_eq!(a.is_http, b.is_http);
    }
    // the two sweeps carry their own detection times
    assert!(r1.iter().all(|a| a.timestamp == NOW));
    assert!(r2.iter().all(|a| a.timestamp == NOW + 30_000_000));
}

#[test]
fn sweep_gathers_every_detector() {
    let mut events = Vec::new();
    for p in 0..16u16 {
        events.push(ev(Protocol::Tcp, "1.2.3.4:40000", &format!("5.6.7.8:{}", 4000 + p), 60));
    }
    for _ in 0..301 {
        events.push(ev(Protocol::Dns, "9.9.9.9:5353", "8.8.8.8:53", 70));
    }
    let (alerts, _) = detect_suspicious_traffic(&events, &Vec::new(), NOW, NOW);
    let kinds: Vec<String> = alerts.iter().map(|a| a.activity_type.label()).collect();
    assert!(kinds.contains(&"Port Scanning".to_string()));
    assert!(kinds.contains(&"DNS Flood".to_string()));
    assert_eq!(alerts.len(), 2);
}

#[test]
fn dns_flood_groups_by_source() {
    let mut events = Vec::new();
    for _ in 0..301 {
        events.push(ev(Protocol::Dns, "9.9.9.9:5353", "8.8.8.8:53", 70));
        events.push(ev(Protocol::Dns, "6.6.6.6:5353", "8.8.8.8:53", 70));
    }
    let alerts = detect_dns_flood(&events, NOW, NOW);
    assert_eq!(alerts.len(), 2);
    assert_eq!(alerts[0].source, "9.9.9.9:5353");
    assert_eq!(alerts[1].source, "6.6.6.6:5353");
}

#[test]
fn port_scan_groups_by_source_and_destination() {
    let mut events = Vec::new();
    for p in 0..16u16 {
        // the same 16 ports against two destinations, from one source
        events.push(ev(Protocol::Tcp, "1.2.3.4:40000", &format!("5.6.7.8:{}", 4000 + p), 60));
        events.push(ev(Protocol::Tcp, "1.2.3.4:40000", &format!("5.6.7.9:{}", 4000 + p), 60));
    }
    let alerts = detect_port_scanning(&events, NOW, NOW);
    assert_eq!(alerts.len(), 2);
    assert_eq!(alerts[0].details, "16 unique ports scanned on 5.6.7.8");
    assert_eq!(alerts[1].details, "16 unique ports scanned on 5.6.7.9");
}

#[test]
fn detectors_tolerate_short_history() {
    let events: Vec<NetworkEvent> = Vec::new();
    let (alerts, mappings) = detect_suspicious_traffic(&events, &Vec::new(), NOW, NOW);
    assert!(alerts.is_empty());
    assert!(mappings.is_empty());
}
