//! Passive network monitoring core: a verified packet decoder that turns raw
//! Ethernet frames into typed protocol events, and a verified threat-detection
//! engine that scans a rolling event history for reconnaissance and abuse
//! patterns (port scans, floods, ARP spoofing, suspicious name resolution).
//!
//! Capture, storage and alert delivery are left to the surrounding process;
//! this crate holds the logic worth proving: byte-level header parsing with
//! exact malformed-input handling, and windowed grouping/thresholding over
//! the decoded events.

pub mod decode;
pub mod detection;
pub mod model;
pub mod risk;
pub mod stats;
pub mod text;
