# nebuladns

An authoritative DNS server whose core logic is written in Verus and proved
against its contracts.

## Layout

- `src/wire/` — the DNS wire codec: header, names (with compression pointers),
  questions, resource records, EDNS, and whole messages. `roundtrip.rs` holds
  the proof that decoding an encoded message gives the message back (names up
  to ASCII case).
- `src/zone/` — the zone model: TOML-shaped documents, validation into a
  well-formed `Zone`, the lookup index, record mutation, and the registry of
  served zones.
- `src/server.rs` — answering a query against the registry (exact response
  bytes), and TCP length framing.
- `src/api/` — the control plane: bearer-token authentication (fail-closed),
  the hash-chained audit log, rate limiting, idempotent write batches, request
  handlers and health bodies.
- `src/mcp/` — the Model Context Protocol front end: tool catalogue, argument
  handling, the write gate, and request routing.
- `src/http.rs`, `src/cli.rs` — the small HTTP/1.1 client used by the CLI and
  the MCP server, and the CLI's probes.
- `src/config.rs`, `src/metrics.rs`, `src/text.rs`, `src/addr.rs` — settings,
  metric label values, text helpers and listen addresses.
- `app/` — the binaries: sockets, async runtime, HTTP server, Prometheus
  registry, systemd notification, JSON/TOML framing. It calls the library for
  every decision.
- `tests/` — executable tests of the library.

Calls into `sha2` and `subtle` are made from the library through small trusted
wrappers whose contracts say what those crates document.
