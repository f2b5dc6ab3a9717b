# micowireless

Receiver core of a wireless microphone: a phone streams PCM16 audio over UDP
(`mow2` datagrams, optionally sealed with ChaCha20-Poly1305 under a key derived
from a pair code) and the desktop plays it through a reordering buffer that
conceals lost frames with silence.

- `src/` — the verified library:
  - `wire` — the datagram format, its parser, the AEAD nonce, and the round-trip
    and nonce-uniqueness laws;
  - `crypto` — pair-code key derivation (SHA-256) and payload opening;
  - `jitter` — the reordering buffer, specified by `push_outcome`, with its
    well-formedness law;
  - `receiver` — start checks, per-datagram bookkeeping, status;
  - `discovery` — answers to discovery probes;
  - `listing` — sorted, duplicate-free name lists and IPv4 texts;
  - `playback` — feeding output frames and choosing the output device;
  - `metrics`, `text` — counters and decimal rendering.
- `app/` — the desktop shell (Tauri commands, sockets, threads, audio device,
  sample-level conversion).
- `tests/` — tests run against the compiled library.
