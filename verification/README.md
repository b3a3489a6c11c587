# iiod_rs

A client library for the `iiod` network protocol that Linux IIO devices
(PlutoSDR, FMCOMMS boards and others) speak, written in Verus.

- `src/` is the verified library:
  - `text.rs`: decimal numbers, Unicode whitespace trimming, string assembly;
  - `error.rs`: the error type and its messages;
  - `protocol.rs`: the VERSION and PRINT commands, return codes, errno texts;
  - `transport.rs`: the `Transport` trait, `Logged` (a transport with the
    record of the calls made on it), line endings, default port;
  - `xml.rs`: the tag events of the PRINT description, read with quick-xml;
  - `device.rs`: the device tree built from those events, and `Context`.
- `app/` holds the TCP transport and the connection helpers, which need
  sockets and timeouts.
- `tests/` exercises the library with mock transports.
