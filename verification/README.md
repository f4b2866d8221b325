# dafydd

Locate instruments and embedded devices over serial ports, USB and TCP/IP.

- `src/` is the library, verified with Verus: ICMP, TCP/SYN packet building
  and checksums, reply recognition, kernel neighbour-table parsers (Linux
  `/proc/net/arp` and `ip -6 neigh`, Darwin routing messages and `ndp -an`,
  Windows `GetIpNetTable2` rows), IPv4 network arithmetic and the subnets of
  the local interfaces, the TCP sweep plan (priority addresses, batches,
  hosts left for ICMP), serial line settings and port selection, USB
  descriptor filters and the hotplug watch state, match construction, the
  watch diff and USB/serial correlation. Contracts state what each function
  returns; proof functions state the laws that relate them.
- `app/` holds the Python extension (pyo3) and all I/O: sockets, serial
  ports, USB enumeration, the Tokio runtime and the discovery loops, each of
  which asks the library what to probe and what a reply means.
- `tests/` exercises the library on concrete values.
