# lanscan

A LAN scanner: it discovers the devices of an IPv4 subnet by ARP and can
probe their TCP and UDP ports.

- `src/` is the library, written in Verus with its contracts proved:
  - `text.rs`: white space, trimming, splitting, integer parsing in the
    manner of `from_str_radix`, decimal and hexadecimal text;
  - `device.rs`: MAC addresses (reading and writing their text) and devices;
  - `ipv4.rs`: IPv4 addresses and networks, with network and broadcast
    addresses, membership and the list of addresses;
  - `network.rs`: the choice of the interface to scan from and its network;
  - `scanner.rs`: ARP request frames, reading ARP replies, the hosts to ask
    and the collection of replies;
  - `port_scanner.rs`: port specifications such as `22,80,100-200`, the
    results of TCP and UDP scans, and the text of the result table;
  - `resolver.rs`: the host name shown for a device.
- `app/main.rs` is the program: command line, raw Ethernet I/O (pnet),
  sockets, threads, reverse DNS and printing.
- `tests/` runs the library on concrete values.
