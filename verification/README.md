# shairplay

The protocol logic of an AirPlay receiver, verified with Verus.

- `src/` is the library. Every function states what it returns or changes in `requires` and
  `ensures` clauses, and Verus proves them.
  - `wire`, `text`, `net`, `error`: byte orders, texts, addresses, errors.
  - `crypto`: AES-128 counter mode for audio and video, the ChaCha20-Poly1305 transport with its
    key derivation.
  - `proto`: DMAP track metadata and session descriptions.
  - `dacp`, `raop::remote`: remote control of the sender.
  - `raop`: realtime and buffered audio, the playout buffer, the event connection, timing, screen
    mirroring, HTTP live streaming with its property lists.
- `app/` holds what needs sockets, timers, threads or floating point. It reads and writes, and asks
  the library what to do.
- `tests/` runs the library with the outside crates linked.

Ciphers, key derivation, property lists and byte buffers come from outside crates. Each call stands
in a small function marked `external_body` whose contract is believed, not proved; its doc comment
names the outside function and says what is claimed of it. The proof functions named `law_*` state
what holds across functions.
