//! Verified core of a peer-to-peer voice chat: the A-law codec, the STUN
//! reply parser, the key agreement, the sealed audio packet format, the
//! jitter buffer that orders received frames, and the capture framer.
pub mod audio;
pub mod codec;
pub mod crypto;
pub mod net;
