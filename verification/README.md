# murmr

A peer-to-peer voice chat. `src/` is the verified library:

- `codec` — A-law companding of 16-bit samples, with its symmetry,
  monotonicity, quantization-error and saturation laws.
- `net::stun` — binding requests, the parser of binding replies
  (XOR-MAPPED-ADDRESS), the LAN check and the hole-punching decision.
- `crypto` — X25519 key agreement and HKDF-SHA256 session keys;
  `crypto::chacha` — XChaCha20-Poly1305 sealing of payloads.
- `net` — audio and key packet formats, the per-datagram receive decision,
  the jitter buffer, and the sending and receiving ends of a session.
- `audio` — cutting the captured sample stream into 960-sample frames.

`app/` holds the program around it: sockets, threads, the sound devices,
float sample conversion, and a line-based command front end.
