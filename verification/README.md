# echelon

Wear monitoring of machines: particle counts are read from CSV files on an
FTP server, classified (bearing, gear train, mixed), and lines of log files
are forwarded to a server over a small reliable protocol on top of UDP.

The library in `src/` is verified with Verus:

- `packet` — the 16-byte header, packet encoding and decoding, the checksum.
- `connection` — one connection: sequence numbers, acknowledgement and
  round-trip estimation, retransmission with back-off, in-order delivery,
  and the `Link` through which datagrams leave.
- `protocol` — the connections of an endpoint keyed by peer: connect, send
  (split into packets), disconnect, server and receiver handling, maintenance.
- `model` — wear readings and their classification, labels and alert text.
- `observation` — the CSV format of readings, directory listings and where a
  pass over the files resumes.
- `ftp_reader` — the FTP reader: Windows-style listings, file order, reading
  a file from a line on, and the reader's progress through the files.
- `text`, `time` — character-level text handling; points in time and the
  calendar parsing done by `chrono`.

Times are nanoseconds; the caller chooses the clock origin. Datagrams leave
through a `Link`: it hands each datagram to a `PacketSink` (which the program
implements for a UDP socket) and records the datagram, its peer and the
sink's answer. The contracts state exactly which datagrams are handed over,
retransmissions included, and that an operation fails exactly when the sink
refused one; what the sink then does with a datagram is outside the proofs.

Every packet acknowledges, by number, the last data packet its sender has
received in order, and with it every earlier one. Before any data packet was
received a packet carries the `NO_ACK` flag (in the header's flags byte) and
acknowledges nothing, so that every acknowledgement number, the largest
included, keeps its meaning.

`app/` is the program around the library: the UDP endpoint and its threads,
the FTP transfers, the web API, alert mail, the state files, and the
command line.
