use netwatch::model::{NetworkEvent, Protocol};
use netwatch::stats::{CountTable, NetworkStats};
use netwatch::text::split_ip_port;

fn lookup(table: &CountTable, key: &str) -> u64 {
    for (i, k) in table.keys.iter().enumerate() {
        if k == key {
            return table.counts[i];
        }
    }
    0
}

fn ev(protocol: Protocol, source: &str, destination: &str, payload_size: usize) -> NetworkEvent {
    NetworkEvent {
        protocol,
        source: source.to_string(),
        destination: destination.to_string(),
        payload_size,
        timestamp: 0,
    }
}

#[test]
fn stats_start_empty() {
    let s = NetworkStats::new();
    assert_eq!(s.total_packets, 0);
    assert_eq!(s.total_bytes, 0);
    assert_eq!(s.protocol_counts.keys.len(), 0);
}

#[test]
fn stats_accumulate_per_protocol_and_endpoint() {
    let mut s = NetworkStats::new();
    s.update(&ev(Protocol::Tcp, "1.2.3.4:1000", "5.6.7.8:80", 100));
    s.update(&ev(Protocol::Tcp, "1.2.3.4:1000", "5.6.7.8:443", 150));
    s.update(&ev(Protocol::Dns, "9.9.9.9:5353", "8.8.8.8:53", 70));

    assert_eq!(s.total_packets, 3);
    assert_eq!(s.total_bytes, 320);
    assert_eq!(lookup(&s.protocol_counts, "TCP"), 2);
    assert_eq!(lookup(&s.protocol_counts, "DNS"), 1);
    assert_eq!(lookup(&s.protocol_counts, "UDP"), 0);
    assert_eq!(lookup(&s.unique_sources, "1.2.3.4:1000"), 2);
    assert_eq!(lookup(&s.unique_sources, "9.9.9.9:5353"), 1);
    assert_eq!(lookup(&s.unique_destinations, "5.6.7.8:80"), 1);
    assert_eq!(lookup(&s.unique_destinations, "5.6.7.8:443"), 1);
    assert_eq!(s.unique_sources.keys.len(), 2);
}

#[test]
fn endpoint_splitting_policy() {
    assert_eq!(split_ip_port(&"1.2.3.4:80".to_string()), Some(("1.2.3.4".to_string(), 80)));
    assert_eq!(split_ip_port(&"0:0:0:0:0:0:0:1:80".to_string()), None);
    assert_eq!(split_ip_port(&"no port here".to_string()), None);
    assert_eq!(split_ip_port(&"1.2.3.4:".to_string()), None);
    assert_eq!(split_ip_port(&"1.2.3.4:http".to_string()), None);
    assert_eq!(split_ip_port(&"1.2.3.4:99999999999999999999".to_string()), None);
    assert_eq!(split_ip_port(&"h:080".to_string()), Some(("h".to_string(), 80)));
}
