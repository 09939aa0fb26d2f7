# MC Link

Play Minecraft LAN worlds with friends elsewhere through relay servers: no
public IP, no port forwarding.

```
host Minecraft -> MC Link (host) -> relay server <- MC Link (member) <- member Minecraft
                                         |
                              central server (rooms, relay list)
```

## Layout

- `src/` is the verified library (Verus). Every function carries a
  contract, and the laws of the protocol are proved as `lemma_*` functions.
  - `crypto`: SHA-256 key derivation, AES-256-ECB with PKCS#7 padding, the
    de-duplication checksum; `decrypt` undoes `encrypt`.
  - `protocol`: `[room_len][room][pass_len][password][AES data]` packets and
    4-byte big-endian TCP frames.
  - `relay_server`: the TCP relay's room table and what each packet does.
  - `udp_relay`: the built-in UDP relay (rooms, members, repeated packets,
    periodic cleanup).
  - `central`, `central_server`, `room_paths`: the central server's
    request framing, its relay/room/latency records and the room routes.
  - `routing`: lowest-latency relay chains (fewest links among equally fast
    ones, then link order), visiting no relay twice.
  - `lan`: Minecraft LAN announcements.
  - `proxy`: PROXY protocol v2 headers.
  - `state`, `commands`, `latency`: the desktop client's session rules and
    the search for a free local port.
  - `keyed`, `text`: vectors viewed as maps, byte and text helpers.
- `tests/` runs the library on concrete values.
- `app/` holds the programs: sockets, threads, JSON, configuration files and
  the float-weighted path search of the central server.
