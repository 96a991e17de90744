# newppp

An encrypted proxy for personal and small-team use. A client takes SOCKS5 and
HTTP proxy requests on the local machine and forwards them to a server, over
WebTransport (QUIC) where that works and over HTTPS POST or WebSocket where it
does not. TCP and UDP are carried.

The protocol and every decision of both ends are a library, written in Verus:
its functions carry contracts, and the contracts are proved.

## Layout

- `src/` is the library.
  - `proto/`: key derivation, authentication, counters and replay windows
    (`crypto`), frames (`frame`), addresses (`addr`), the multiplexer of the
    fallback channel (`mux`), message streams as byte streams (`stream`).
  - `server/`: users and authentication, connection and session tables with
    their quotas (`state`), the cap on unauthenticated connections (`limit`),
    targets and dedicated streams (`hub`), resolver answers for UDP (`dns`),
    connection start (`wt`), the HTTP front (`fallback`).
  - `client/`: handshake, transport choice with its circuit breaker
    (`outbound`), the connection pool (`wt`), the fallback channel
    (`fallback`), SNI masquerading (`masquerade`), certificate pinning (`tls`),
    the HPKE suite of ECH (`ech`), SOCKS5 and HTTP proxy protocols (`socks5`,
    `http_proxy`).
  - `config`, `clock`, `health`, `quic_tune`, `net`, and the helpers `text`,
    `wire` and `tables`.
- `app/` is the program around it: command line, sockets, TLS, QUIC and the
  tasks that move bytes. The bandwidth limit and the clock offset, which are
  computed in floating point, stand there too.
- `tests/` runs the library.

Functions whose behaviour depends on the time come in two forms: one takes the
time as an argument and has an exact contract, the other reads the calibrated
clock (`clock::Clock`). Laws
that relate several functions are proof functions named `law_...`.

What is taken from other crates without proof (ciphers, hashes, hash tables,
byte buffers, random numbers, URL parsing, HPKE) stands behind functions marked
`external_body`; the comment above each says what is claimed of it.
