//! The logic of a LAN scanner: ARP discovery of the hosts of an IPv4
//! subnet, TCP and UDP port lists, and the text the scan shows.

pub mod text;
pub mod device;
pub mod ipv4;
pub mod network;
pub mod port_scanner;
pub mod resolver;
pub mod scanner;
