//! Network utility modules for fast-path device pre-detection.

pub mod arp;
pub mod icmp;
/// IPv4 dotted-decimal text and address classes.
pub mod ipv4;
pub mod ndp;
pub mod pcap;
pub mod responders;
/// Raw TCP SYN probe construction and SYN-ACK recognition.
pub mod syn_scan;
