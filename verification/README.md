# mcp-edge

A minimal Model Context Protocol runtime for small devices, with its
protocol logic proved correct in Verus.

## Layout

- `src/` — the verified library.
  - `json.rs`: the byte-level JSON scanner (`classify`, `obj_get`,
    `unquote`, ...) and its specification.
  - `writer.rs`: the truncating reply writer and JSON string escaping.
  - `rpc.rs`: the JSON-RPC reply texts; every reply to a request opens
    with its id and ends with a newline.
  - `frame.rs`: newline framing (`Framer`), specified byte by byte, with
    the laws that chunking does not matter and that an oversized frame is
    skipped up to the next newline.
  - `frame_laws.rs`: what reaches the sink does not depend on chunking
    either, when each message gets the same answer.
  - `runtime.rs`: the allocation-free `Runtime`, `Provider` and `Output`.
  - `routes.rs`, `route_laws.rs`: the gateway's packed routing table and
    the properties that span its operations (consistency, unique tool
    names, remove undoes add, failed adds change nothing).
  - `gateway.rs`: `Gateway` and `DynamicGateway` as decision functions:
    they answer a message, or say which leaf to forward a call to and how
    to finish the reply.
  - `transport.rs`: transport endpoints.
  - `minimal.rs`: the single-file `String`-based runtime.
  - `text.rs`: UTF-8 checks through `core::str::from_utf8`.
- `app/` — the program around it: sockets, threads, leaf connections, the
  shared dynamic gateway with its client notifications, and the demo
  server with mock sensors.
- `tests/` — tests of the library.
