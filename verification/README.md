# bolina

The Bolina protocol node as a verified library: the wire codec, the intent
table and the durable grant ledger's replay, the evidence and envelope
ledgers, the Noise_IK handshake and transport sessions, relays, and the
authority decisions over parsed envelopes. Every function in `src/` is
verified with Verus against its contract, except thirteen trusted wrappers
(marked `#[verifier::external_body]`) whose contracts Verus takes on
trust:

- ten in `src/crypto.rs`, over the outside primitives: BLAKE2s-256 and the
  keyed BLAKE2s MAC, Ed25519 public key, signing and verification, X25519,
  ChaCha20-Poly1305 sealing and opening, constant-time comparison, and the
  OS random source; each names or states what the outside crate returns;
- three in `src/http_parse.rs`, over std: `std::str::from_utf8`,
  `str::trim` and `usize::from_str`, stated as their documentation gives
  them.

Layout:

- `src/` — the library (`codec`, `http_parse`, `control_api`, `control`,
  `daemon`, `keys`, `ca`, `ledger_envelope`, `relay_serve`, `state/`,
  `transport/`).
- `tests/` — the tests, run against the compiled library.
- `app/` — the node program: environment, files, sockets, the clock and the
  poll loop around the library.
