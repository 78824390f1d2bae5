//! The value records that flow through the system: decoded protocol events,
//! alerts raised by the detection engine, and DNS correlation records.

use vstd::prelude::*;
use vstd::string::*;

verus! {

/// The protocol family of a decoded frame. DNS is a refinement of TCP/UDP
/// applied when either endpoint's port equals 53; `Unknown` covers IP
/// payloads whose transport protocol the decoder does not recognise.
#[derive(Clone, Copy, PartialEq, Eq, Structural, Debug)]
pub enum Protocol {
    Arp,
    Tcp,
    Udp,
    Dns,
    Icmp,
    Icmpv6,
    Unknown,
}

/// The display tag of a protocol.
pub open spec fn protocol_label(p: Protocol) -> Seq<char> {
    match p {
        Protocol::Arp => "ARP"@,
        Protocol::Tcp => "TCP"@,
        Protocol::Udp => "UDP"@,
        Protocol::Dns => "DNS"@,
        Protocol::Icmp => "ICMP"@,
        Protocol::Icmpv6 => "ICMPv6"@,
        Protocol::Unknown => "Unknown"@,
    }
}

impl Protocol {
    /// The display tag, as a string.
    pub fn label(&self) -> (s: String)
        ensures
            s@ == protocol_label(*self),
    {
        match self {
            Protocol::Arp => String::from_str("ARP"),
            Protocol::Tcp => String::from_str("TCP"),
            Protocol::Udp => String::from_str("UDP"),
            Protocol::Dns => String::from_str("DNS"),
            Protocol::Icmp => String::from_str("ICMP"),
            Protocol::Icmpv6 => String::from_str("ICMPv6"),
            Protocol::Unknown => String::from_str("Unknown"),
        }
    }
}

/// The atomic observation unit: one accepted frame, normalised.
///
/// For ARP the endpoints read `"<MAC> (<IPv4>)"`; for IP-based protocols,
/// `"<IP>:<port>"` where a port is known and the bare address otherwise.
/// `payload_size` is the full frame length; `timestamp` is the capture time
/// in microseconds since the epoch.
#[derive(Clone, Debug)]
pub struct NetworkEvent {
    pub protocol: Protocol,
    pub source: String,
    pub destination: String,
    pub payload_size: usize,
    pub timestamp: u64,
}

impl NetworkEvent {
    /// Every emitted event names both endpoints; malformed frames produce
    /// no event at all rather than a placeholder.
    pub open spec fn is_populated(&self) -> bool {
        self.source@.len() > 0 && self.destination@.len() > 0
    }
}

/// The pattern a suspicious-activity record reports.
#[derive(Clone, Copy, PartialEq, Eq, Structural, Debug)]
pub enum ActivityType {
    PortScanning,
    LargeDataTransfer,
    DnsFlood,
    RarePortActivity,
    ArpSpoofing,
    UdpFlood,
    SuspiciousDns,
}

/// The display tag of an activity type.
pub open spec fn activity_label(t: ActivityType) -> Seq<char> {
    match t {
        ActivityType::PortScanning => "Port Scanning"@,
        ActivityType::LargeDataTransfer => "Large Data Transfer"@,
        ActivityType::DnsFlood => "DNS Flood"@,
        ActivityType::RarePortActivity => "Rare Port Activity"@,
        ActivityType::ArpSpoofing => "ARP Spoofing"@,
        ActivityType::UdpFlood => "UDP Flood"@,
        ActivityType::SuspiciousDns => "Suspicious DNS"@,
    }
}

impl ActivityType {
    /// The display tag, as a string.
    pub fn label(&self) -> (s: String)
        ensures
            s@ == activity_label(*self),
    {
        match self {
            ActivityType::PortScanning => String::from_str("Port Scanning"),
            ActivityType::LargeDataTransfer => String::from_str("Large Data Transfer"),
            ActivityType::DnsFlood => String::from_str("DNS Flood"),
            ActivityType::RarePortActivity => String::from_str("Rare Port Activity"),
            ActivityType::ArpSpoofing => String::from_str("ARP Spoofing"),
            ActivityType::UdpFlood => String::from_str("UDP Flood"),
            ActivityType::SuspiciousDns => String::from_str("Suspicious DNS"),
        }
    }
}

/// An alert: produced by the detection engine at scan time, never mutated.
/// `timestamp` is the detection time, not an event time.
#[derive(Clone, Debug)]
pub struct SuspiciousActivity {
    pub activity_type: ActivityType,
    pub source: String,
    pub details: String,
    pub timestamp: u64,
}

/// One answer from the name-resolution history, as handed to the detection
/// engine: a binding of a queried domain to a resolved address.
///
/// `high_entropy` records whether the Shannon entropy of the query exceeded
/// the scorer's threshold; the comparison is floating-point and is computed
/// by the caller at ingestion.
#[derive(Clone, Debug)]
pub struct DnsAnswer {
    pub query: String,
    pub resolved_ip: String,
    pub source: String,
    pub record_type: String,
    pub timestamp: u64,
    pub high_entropy: bool,
}

/// A correlation record kept when a flagged resolution was followed by HTTP
/// traffic to the resolved address; persisted for offline analysis.
#[derive(Clone, Debug)]
pub struct DnsMapping {
    pub query: String,
    pub resolved_ip: String,
    pub timestamp: u64,
    pub is_http: bool,
    pub source: String,
}

} // verus!
