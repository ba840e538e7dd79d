# mini-dns

A lightweight DNS server whose logic is verified with [Verus](https://github.com/verus-lang/verus).
It serves authoritative zones, can forward or recursively resolve the names it does not know, and
answers over UDP, TCP, TLS, HTTPS and QUIC.

- `src/` is the library: parsing and writing messages, zone files, lookup with wildcards and CNAME
  chains, EDNS and truncation, the answer cache, conditional forwarding, single-flight, the walk of
  the recursive resolver, rate limiting, blocking, DNS64, zone transfers, DNSSEC signing, DoH
  requests and what the configuration means. Functions state what they return, and Verus proves
  it; only what a clock shows or chance draws is left open. Functions named `law_...` state what holds across several of them.
- `tests/` runs the library on concrete values.
- `app/` is the program around it: sockets, TLS, HTTP and QUIC, signals, files and the command line.

The library does no I/O. Where a query has to go upstream it says what to ask and is told the
reply; time comes from clocks that callers can also supply themselves (`..._at`).

What the library takes from other crates (`dashmap`, `ring`, `base64`, `rustls-pemfile`, `rcgen`)
and from parts of the standard library stands behind small functions marked
`#[verifier::external_body]`; their comments say what is relied on.
