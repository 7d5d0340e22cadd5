//! Wire formats of the voice link and the decisions taken per datagram: the
//! sealed audio packet, the key offer, the jitter buffer that puts received
//! frames back in order, and the two ends of a session.
use vstd::prelude::*;
use std::collections::BTreeMap;
use crate::codec::{alaw_encode, linear_to_alaw};
use crate::crypto::chacha::{
    chacha, decrypt, nonce_gen, openable_length, xchacha20poly1305_seal, SEAL_LIMIT,
};

pub mod stun;

verus! {

broadcast use vstd::std_specs::btree::group_btree_axioms;

/// Little-endian bytes of a 16-bit value.
pub open spec fn u16_le(v: u16) -> Seq<u8> {
    seq![(v % 256) as u8, (v / 256) as u8]
}

/// Bytes of an audio packet: its kind, a zero byte, the sequence number
/// (little-endian), the 24-byte nonce, then the sealed payload.
pub open spec fn audio_packet(kind: u8, seqnum: u16, nonce: Seq<u8>, sealed: Seq<u8>) -> Seq<u8> {
    seq![kind, 0u8] + u16_le(seqnum) + nonce + sealed
}

/// Bytes of the packet that offers a public key: two zero bytes, then the key.
pub open spec fn key_packet(public: Seq<u8>) -> Seq<u8> {
    seq![0u8, 0u8] + public
}

/// A-law bytes of a run of samples.
pub open spec fn alaw_bytes(samples: Seq<i16>) -> Seq<u8> {
    samples.map_values(|s: i16| alaw_encode(s))
}

/// Whether no sample is `i16::MIN`, whose magnitude does not fit in an `i16`.
pub open spec fn encodable(samples: Seq<i16>) -> bool {
    forall|i: int| 0 <= i < samples.len() ==> samples[i] != i16::MIN
}

/// The datagram that says goodbye: the ASCII bytes of "GOODBYE".
pub open spec fn goodbye() -> Seq<u8> {
    seq![0x47u8, 0x4Fu8, 0x4Fu8, 0x44u8, 0x42u8, 0x59u8, 0x45u8]
}

/// Bytes of the goodbye datagram.
pub const GOODBYE: [u8; 7] = [0x47, 0x4F, 0x4F, 0x44, 0x42, 0x59, 0x45];

/// Shortest datagram that is read as a key offer or an audio packet.
pub const MIN_PACKET: usize = 28;

fn append_bytes(buf: &mut Vec<u8>, more: &[u8])
    ensures
        final(buf)@ == old(buf)@ + more@,
{
    let mut k: usize = 0;
    while k < more.len()
        invariant
            k <= more.len(),
            buf@ == old(buf)@ + more@.subrange(0, k as int),
        decreases more.len() - k,
    {
        buf.push(more[k]);
        k += 1;
        assert(buf@ =~= old(buf)@ + more@.subrange(0, k as int));
    }
    assert(more@.subrange(0, more.len() as int) =~= more@);
}

/// Frames an audio packet around a nonce and a sealed payload.
pub fn frame_audio_packet(kind: u8, seqnum: u16, nonce: [u8; 24], sealed: &[u8]) -> (packet: Vec<u8>)
    ensures
        packet@ == audio_packet(kind, seqnum, nonce@, sealed@),
{
    let mut buf: Vec<u8> = Vec::new();
    buf.push(kind);
    buf.push(0);
    buf.push((seqnum % 256) as u8);
    buf.push((seqnum / 256) as u8);
    append_bytes(&mut buf, &nonce);
    append_bytes(&mut buf, sealed);
    assert(buf@ =~= audio_packet(kind, seqnum, nonce@, sealed@));
    buf
}

/// Encodes `samples` to A-law, seals them under `key` and `nonce`, and frames
/// the audio packet.
pub fn seal_audio_packet(samples: Vec<i16>, kind: u8, seqnum: u16, key: [u8; 32], nonce: [u8; 24]) -> (packet: Vec<u8>)
    requires
        encodable(samples@),
        samples.len() < SEAL_LIMIT,
        samples.len() + 16 <= isize::MAX,
    ensures
        packet@ == audio_packet(
            kind,
            seqnum,
            nonce@,
            xchacha20poly1305_seal(key@, nonce@, alaw_bytes(samples@)),
        ),
        packet@.len() == MIN_PACKET + samples.len() + 16,
{
    let ghost input = samples@;
    let aud = linear_to_alaw(samples);
    assert(aud@ =~= alaw_bytes(input));
    match chacha(key, nonce, aud.as_slice()) {
        Ok(sealed) => frame_audio_packet(kind, seqnum, nonce, sealed.as_slice()),
        Err(_) => {
            assert(false);
            Vec::new()
        },
    }
}

/// Builds an audio packet for `samples` with a fresh random nonce.
pub fn seri_packet_audio(samples: Vec<i16>, kind: u8, seqnum: u16, key: [u8; 32]) -> (packet: Vec<u8>)
    requires
        encodable(samples@),
        samples.len() < SEAL_LIMIT,
        samples.len() + 16 <= isize::MAX,
    ensures
        exists|nonce: Seq<u8>|
            nonce.len() == 24 && packet@ == audio_packet(
                kind,
                seqnum,
                nonce,
                #[trigger] xchacha20poly1305_seal(key@, nonce, alaw_bytes(samples@)),
            ),
        packet@.len() == MIN_PACKET + samples.len() + 16,
{
    let nonce = nonce_gen();
    seal_audio_packet(samples, kind, seqnum, key, nonce)
}

/// Builds the packet that offers our public key to the peer.
pub fn seri_packet_crypto(public: [u8; 32]) -> (packet: Vec<u8>)
    ensures
        packet@ == key_packet(public@),
{
    let mut buf: Vec<u8> = Vec::with_capacity(34);
    buf.push(0);
    buf.push(0);
    append_bytes(&mut buf, &public);
    assert(buf@ =~= key_packet(public@));
    buf
}

/// Largest number of frames the jitter buffer holds while it waits for the
/// expected one; with more, it gives up on that frame.
pub const MAX_WAIT: usize = 5;

/// Samples of silence played in place of a frame given up on.
pub const SILENCE_SAMPLES: usize = 480;

/// Sequence number after `s`, wrapping from 65535 to 0.
pub open spec fn next_seq(s: u16) -> u16 {
    if s == 0xFFFFu16 {
        0
    } else {
        (s + 1) as u16
    }
}

/// What the jitter buffer hands to the player after a frame arrives.
#[derive(Debug, PartialEq, Eq)]
pub enum Playout {
    /// Play this frame, the one that was expected.
    Frame(Vec<u8>),
    /// The expected frame is given up on: play `SILENCE_SAMPLES` of silence.
    Silence,
    /// Keep waiting for the expected frame.
    Wait,
}

/// Frames, next expected sequence number and playout after `frame` arrives
/// with sequence number `seq`: the frame is stored (replacing one with the same
/// number); then the expected frame, if stored, is taken out and played and
/// the expectation moves on; else, with more than `MAX_WAIT` frames stored,
/// silence is played and the expectation moves on; else nothing happens.
pub open spec fn jitter_step(frames: Map<u16, Vec<u8>>, expected: u16, seq: u16, frame: Vec<u8>) -> (
    Map<u16, Vec<u8>>,
    u16,
    Playout,
) {
    let stored = frames.insert(seq, frame);
    if stored.contains_key(expected) {
        (stored.remove(expected), next_seq(expected), Playout::Frame(stored[expected]))
    } else if stored.len() > MAX_WAIT {
        (stored, next_seq(expected), Playout::Silence)
    } else {
        (stored, expected, Playout::Wait)
    }
}

/// Reorders received audio frames by sequence number before they are played.
pub struct JitterBuffer {
    frames: BTreeMap<u16, Vec<u8>>,
    expected: u16,
}

impl JitterBuffer {
    /// Frames stored, by sequence number.
    pub closed spec fn stored(&self) -> Map<u16, Vec<u8>> {
        self.frames@
    }

    /// Sequence number of the frame to be played next.
    pub closed spec fn next_expected(&self) -> u16 {
        self.expected
    }

    /// An empty buffer that expects sequence number 1 first.
    pub fn new() -> (jb: JitterBuffer)
        ensures
            jb.stored() == Map::<u16, Vec<u8>>::empty(),
            jb.next_expected() == 1,
    {
        JitterBuffer { frames: BTreeMap::new(), expected: 1 }
    }

    /// Sequence number of the frame to be played next.
    pub fn expected(&self) -> (e: u16)
        ensures
            e == self.next_expected(),
    {
        self.expected
    }

    /// Number of frames stored.
    pub fn len(&self) -> (n: usize)
        ensures
            n == self.stored().len(),
    {
        self.frames.len()
    }

    /// Takes in a frame and says what to play.
    pub fn push(&mut self, seq: u16, frame: Vec<u8>) -> (playout: Playout)
        ensures
            (final(self).stored(), final(self).next_expected(), playout) == jitter_step(
                old(self).stored(),
                old(self).next_expected(),
                seq,
                frame,
            ),
    {
        let ghost stored = self.frames@.insert(seq, frame);
        self.frames.insert(seq, frame);
        let expected = self.expected;
        match self.frames.remove(&expected) {
            Some(f) => {
                self.expected = expected.wrapping_add(1);
                Playout::Frame(f)
            },
            None => {
                if self.frames.len() > MAX_WAIT {
                    self.expected = expected.wrapping_add(1);
                    Playout::Silence
                } else {
                    Playout::Wait
                }
            },
        }
    }
}

/// The 32 bytes of a public key that start at offset `at` of `buf`.
pub fn public_key_at(buf: &[u8], at: usize) -> (public: [u8; 32])
    requires
        at + 32 <= buf.len(),
    ensures
        public@ == buf@.subrange(at as int, at + 32),
{
    let mut public: [u8; 32] = [0u8; 32];
    let mut k: usize = 0;
    while k < 32
        invariant
            k <= 32,
            at + 32 <= buf.len(),
            forall|j: int| 0 <= j < k ==> public@[j] == buf@[at + j],
        decreases 32 - k,
    {
        public[k] = buf[at + k];
        k += 1;
    }
    assert(public@ =~= buf@.subrange(at as int, at + 32));
    public
}

/// What one received datagram is, once read and (for audio) opened.
#[derive(Debug, PartialEq, Eq)]
pub enum Incoming {
    /// The peer said goodbye.
    Goodbye,
    /// Shorter than `MIN_PACKET` bytes: ignored.
    Runt,
    /// The peer offers this public key.
    KeyOffer([u8; 32]),
    /// An audio frame with its sequence number and opened A-law payload.
    Audio { seq: u16, payload: Vec<u8> },
    /// An audio packet arrived before any session key.
    NoKey,
    /// An audio packet that is not sealed under the session key.
    Rejected,
}

/// Little-endian 16-bit value of the two bytes at `i`.
pub open spec fn le16(b: Seq<u8>, i: int) -> u16 {
    (b[i] as int + b[i + 1] as int * 256) as u16
}

/// Reads the first `len` bytes of the receive buffer `buf` as one datagram, and
/// opens audio payloads with `key`. A key offer takes bytes 2 to 34 of the
/// buffer whatever the datagram's length (the buffer is at least that long).
pub fn open_datagram(buf: &[u8], len: usize, key: Option<[u8; 32]>) -> (incoming: Incoming)
    requires
        len <= buf.len(),
        34 <= buf.len(),
        openable_length(len - MIN_PACKET),
    ensures
        buf@.subrange(0, len as int) == goodbye() <==> incoming is Goodbye,
        incoming is Runt <==> buf@.subrange(0, len as int) != goodbye() && len < MIN_PACKET,
        len >= MIN_PACKET && buf[0] == 0 ==> (incoming matches Incoming::KeyOffer(k) && k@
            == buf@.subrange(2, 34)),
        len >= MIN_PACKET && buf[0] != 0 && key is None ==> incoming is NoKey,
        len >= MIN_PACKET && buf[0] != 0 && key is Some ==> match incoming {
            Incoming::Audio { seq, payload } => {
                &&& seq == le16(buf@, 2)
                &&& buf@.subrange(28, len as int) == xchacha20poly1305_seal(
                    key->0@,
                    buf@.subrange(4, 28),
                    payload@,
                )
            },
            Incoming::Rejected => forall|m: Seq<u8>|
                m.len() < SEAL_LIMIT ==> #[trigger] xchacha20poly1305_seal(
                    key->0@,
                    buf@.subrange(4, 28),
                    m,
                ) != buf@.subrange(28, len as int),
            _ => false,
        },
        forall|kind: u8, seqnum: u16, nonce: Seq<u8>, m: Seq<u8>|
            kind != 0 && nonce.len() == 24 && m.len() < SEAL_LIMIT && key is Some && buf@.subrange(
                0,
                len as int,
            ) == #[trigger] audio_packet(
                kind,
                seqnum,
                nonce,
                xchacha20poly1305_seal(key->0@, nonce, m),
            ) ==> (incoming matches Incoming::Audio { seq, payload } && seq == seqnum && payload@ == m),
{
    let is_goodbye = len == 7 && buf[0] == GOODBYE[0] && buf[1] == GOODBYE[1] && buf[2] == GOODBYE[2]
        && buf[3] == GOODBYE[3] && buf[4] == GOODBYE[4] && buf[5] == GOODBYE[5] && buf[6]
        == GOODBYE[6];
    proof {
        if is_goodbye {
            assert(buf@.subrange(0, len as int) =~= goodbye());
        } else if len == 7 {
            assert(buf@.subrange(0, len as int) != goodbye()) by {
                if buf@.subrange(0, len as int) == goodbye() {
                    assert(buf@.subrange(0, len as int)[0] == goodbye()[0]);
                    assert(buf@.subrange(0, len as int)[1] == goodbye()[1]);
                    assert(buf@.subrange(0, len as int)[2] == goodbye()[2]);
                    assert(buf@.subrange(0, len as int)[3] == goodbye()[3]);
                    assert(buf@.subrange(0, len as int)[4] == goodbye()[4]);
                    assert(buf@.subrange(0, len as int)[5] == goodbye()[5]);
                    assert(buf@.subrange(0, len as int)[6] == goodbye()[6]);
                }
            }
        } else {
            assert(buf@.subrange(0, len as int).len() != goodbye().len());
        }
    }
    proof {
        assert forall|kind: u8, seqnum: u16, n: Seq<u8>, c: Seq<u8>|
            n.len() == 24 && buf@.subrange(0, len as int) == #[trigger] audio_packet(
                kind,
                seqnum,
                n,
                c,
            ) implies len >= MIN_PACKET && buf@[0] == kind by {
            let pkt = audio_packet(kind, seqnum, n, c);
            assert(pkt.len() == 28 + c.len());
            assert(pkt[0] == kind);
            assert(buf@.subrange(0, len as int)[0] == buf@[0]);
        }
    }
    if is_goodbye {
        return Incoming::Goodbye;
    }
    if len < MIN_PACKET {
        return Incoming::Runt;
    }
    if buf[0] == 0 {
        let public = public_key_at(buf, 2);
        return Incoming::KeyOffer(public);
    }
    let session_key = match key {
        Some(k) => k,
        None => {
            return Incoming::NoKey;
        },
    };
    let mut nonce: [u8; 24] = [0u8; 24];
    let mut k: usize = 0;
    while k < 24
        invariant
            k <= 24,
            MIN_PACKET <= len <= buf.len(),
            forall|j: int| 0 <= j < k ==> nonce@[j] == buf@[4 + j],
        decreases 24 - k,
    {
        nonce[k] = buf[4 + k];
        k += 1;
    }
    assert(nonce@ =~= buf@.subrange(4, 28));
    let sealed = &buf[28..len];
    assert(sealed@ =~= buf@.subrange(28, len as int));
    let seq: u16 = (buf[2] as u16) + (buf[3] as u16) * 256;
    proof {
        assert forall|kind: u8, seqnum: u16, n: Seq<u8>, m: Seq<u8>|
            kind != 0 && n.len() == 24 && m.len() < SEAL_LIMIT && buf@.subrange(0, len as int)
                == #[trigger] audio_packet(
                kind,
                seqnum,
                n,
                xchacha20poly1305_seal(session_key@, n, m),
            ) implies n == buf@.subrange(4, 28) && seqnum == seq && buf@.subrange(28, len as int)
            == xchacha20poly1305_seal(session_key@, n, m) by {
            let pkt = audio_packet(kind, seqnum, n, xchacha20poly1305_seal(session_key@, n, m));
            assert(buf@.subrange(4, 28) =~= pkt.subrange(4, 28));
            assert(pkt.subrange(4, 28) =~= n);
            assert(buf@.subrange(28, len as int) =~= pkt.subrange(28, pkt.len() as int));
            assert(pkt.subrange(28, pkt.len() as int) =~= xchacha20poly1305_seal(session_key@, n, m));
            assert(buf@[2] == pkt[2] && buf@[3] == pkt[3]);
            assert(seqnum as int == (seqnum % 256) as int + (seqnum / 256) as int * 256);
        }
    }
    match decrypt(session_key, nonce, sealed) {
        Ok(payload) => Incoming::Audio { seq, payload },
        Err(_) => Incoming::Rejected,
    }
}

/// What the receiving side does with one datagram.
#[derive(Debug, PartialEq, Eq)]
pub enum RecvAction {
    /// The peer left: stop receiving.
    Stop,
    /// Nothing to do with this datagram.
    Skip,
    /// Answer the peer's key offer: finish the key agreement with this public
    /// key, then hand the session key to `Receiver::set_key`.
    KeyOffer([u8; 32]),
    /// An audio frame went into the jitter buffer; play what it gives.
    Play(Playout),
    /// Audio arrived before the session key.
    NoKey,
    /// Audio that is not sealed under the session key.
    Rejected,
}

/// The receiving end of a session: the session key once agreed, and the
/// jitter buffer of received frames.
pub struct Receiver {
    jitter: JitterBuffer,
    key: Option<[u8; 32]>,
}

impl Receiver {
    /// The session key, once agreed.
    pub closed spec fn session_key(&self) -> Option<[u8; 32]> {
        self.key
    }

    /// The jitter buffer of received frames.
    pub closed spec fn buffer(&self) -> JitterBuffer {
        self.jitter
    }

    /// A receiver with no key and an empty jitter buffer that expects frame 1.
    pub fn new() -> (r: Receiver)
        ensures
            r.session_key() is None,
            r.buffer().stored() == Map::<u16, Vec<u8>>::empty(),
            r.buffer().next_expected() == 1,
    {
        Receiver { jitter: JitterBuffer::new(), key: None }
    }

    /// Installs the agreed session key.
    pub fn set_key(&mut self, key: [u8; 32])
        ensures
            final(self).session_key() == Some(key),
            final(self).buffer() == old(self).buffer(),
    {
        self.key = Some(key);
    }

    /// Number of frames waiting in the jitter buffer.
    pub fn buffered(&self) -> (n: usize)
        ensures
            n == self.buffer().stored().len(),
    {
        self.jitter.len()
    }

    /// Handles the first `len` bytes of the receive buffer `buf`: a goodbye
    /// stops, short datagrams are skipped, key offers are passed up, and audio
    /// is opened with the session key and put through the jitter buffer. Only
    /// audio that opens changes the state.
    pub fn on_datagram(&mut self, buf: &[u8], len: usize) -> (action: RecvAction)
        requires
            len <= buf.len(),
            34 <= buf.len(),
            openable_length(len - MIN_PACKET),
        ensures
            final(self).session_key() == old(self).session_key(),
            buf@.subrange(0, len as int) == goodbye() <==> action is Stop,
            action is Skip <==> buf@.subrange(0, len as int) != goodbye() && len < MIN_PACKET,
            len >= MIN_PACKET && buf[0] == 0 ==> (action matches RecvAction::KeyOffer(k) && k@
                == buf@.subrange(2, 34)),
            len >= MIN_PACKET && buf[0] != 0 && old(self).session_key() is None ==> action is NoKey,
            !(action is Play) ==> final(self).buffer() == old(self).buffer(),
            action is Rejected ==> forall|m: Seq<u8>|
                m.len() < SEAL_LIMIT ==> #[trigger] xchacha20poly1305_seal(
                    old(self).session_key()->0@,
                    buf@.subrange(4, 28),
                    m,
                ) != buf@.subrange(28, len as int),
            len >= MIN_PACKET && buf[0] != 0 && old(self).session_key() is Some ==> (action is Play
                || action is Rejected),
            action matches RecvAction::Play(p) ==> exists|payload: Vec<u8>|
                {
                    &&& buf@.subrange(28, len as int) == #[trigger] xchacha20poly1305_seal(
                        old(self).session_key()->0@,
                        buf@.subrange(4, 28),
                        payload@,
                    )
                    &&& (final(self).buffer().stored(), final(self).buffer().next_expected(), p)
                        == jitter_step(
                        old(self).buffer().stored(),
                        old(self).buffer().next_expected(),
                        le16(buf@, 2),
                        payload,
                    )
                },
            forall|kind: u8, seqnum: u16, nonce: Seq<u8>, m: Seq<u8>|
                kind != 0 && nonce.len() == 24 && m.len() < SEAL_LIMIT && old(self).session_key() is Some
                    && buf@.subrange(0, len as int) == #[trigger] audio_packet(
                    kind,
                    seqnum,
                    nonce,
                    xchacha20poly1305_seal(old(self).session_key()->0@, nonce, m),
                ) ==> (action matches RecvAction::Play(p) && exists|payload: Vec<u8>|
                    payload@ == m && (
                        final(self).buffer().stored(),
                        final(self).buffer().next_expected(),
                        p,
                    ) == #[trigger] jitter_step(
                        old(self).buffer().stored(),
                        old(self).buffer().next_expected(),
                        seqnum,
                        payload,
                    )),
    {
        match open_datagram(buf, len, self.key) {
            Incoming::Goodbye => RecvAction::Stop,
            Incoming::Runt => RecvAction::Skip,
            Incoming::KeyOffer(k) => RecvAction::KeyOffer(k),
            Incoming::NoKey => RecvAction::NoKey,
            Incoming::Rejected => RecvAction::Rejected,
            Incoming::Audio { seq, payload } => {
                let ghost p = payload;
                let playout = self.jitter.push(seq, payload);
                assert(buf@.subrange(28, len as int) == xchacha20poly1305_seal(
                    old(self).session_key()->0@,
                    buf@.subrange(4, 28),
                    p@,
                ));
                let action = RecvAction::Play(playout);
                proof {
                    assert forall|kind: u8, seqnum: u16, nonce: Seq<u8>, m: Seq<u8>|
                        kind != 0 && nonce.len() == 24 && m.len() < SEAL_LIMIT && old(
                            self,
                        ).session_key() is Some && buf@.subrange(0, len as int)
                            == #[trigger] audio_packet(
                            kind,
                            seqnum,
                            nonce,
                            xchacha20poly1305_seal(old(self).session_key()->0@, nonce, m),
                        ) implies exists|payload: Vec<u8>|
                        payload@ == m && (
                            final(self).buffer().stored(),
                            final(self).buffer().next_expected(),
                            playout,
                        ) == #[trigger] jitter_step(
                            old(self).buffer().stored(),
                            old(self).buffer().next_expected(),
                            seqnum,
                            payload,
                        ) by {
                        assert(seq == seqnum && p@ == m);
                        assert((
                            final(self).buffer().stored(),
                            final(self).buffer().next_expected(),
                            playout,
                        ) == jitter_step(
                            old(self).buffer().stored(),
                            old(self).buffer().next_expected(),
                            seqnum,
                            p,
                        ));
                    }
                }
                action
            },
        }
    }
}

/// The sending end of a session: the session key and the sequence number of
/// the last audio packet sent.
pub struct Sender {
    key: [u8; 32],
    counter: u16,
}

impl Sender {
    /// The session key.
    pub closed spec fn session_key(&self) -> [u8; 32] {
        self.key
    }

    /// Sequence number of the last packet sent (0 before the first).
    pub closed spec fn sent(&self) -> u16 {
        self.counter
    }

    /// A sender that has sent nothing yet.
    pub fn new(key: [u8; 32]) -> (s: Sender)
        ensures
            s.session_key() == key,
            s.sent() == 0,
    {
        Sender { key, counter: 0 }
    }

    /// Sequence number of the last packet sent.
    pub fn counter(&self) -> (c: u16)
        ensures
            c == self.sent(),
    {
        self.counter
    }

    /// Numbers and seals the next frame of samples as an audio packet of kind 1.
    /// The sequence number is a 16-bit counter that must not overflow.
    pub fn next_packet(&mut self, samples: Vec<i16>) -> (packet: Vec<u8>)
        requires
            old(self).sent() < 0xFFFF,
            encodable(samples@),
            samples.len() < SEAL_LIMIT,
            samples.len() + 16 <= isize::MAX,
        ensures
            final(self).session_key() == old(self).session_key(),
            final(self).sent() == old(self).sent() + 1,
            exists|nonce: Seq<u8>|
                nonce.len() == 24 && packet@ == audio_packet(
                    1,
                    final(self).sent(),
                    nonce,
                    #[trigger] xchacha20poly1305_seal(
                        old(self).session_key()@,
                        nonce,
                        alaw_bytes(samples@),
                    ),
                ),
            packet@.len() == MIN_PACKET + samples.len() + 16,
    {
        self.counter = self.counter + 1;
        seri_packet_audio(samples, 1, self.counter, self.key)
    }
}

/// Frames, expectation and playouts after a run of arrivals, in order.
pub open spec fn replay_jitter(
    frames: Map<u16, Vec<u8>>,
    expected: u16,
    arrivals: Seq<(u16, Vec<u8>)>,
) -> (Map<u16, Vec<u8>>, u16, Seq<Playout>)
    decreases arrivals.len(),
{
    if arrivals.len() == 0 {
        (frames, expected, Seq::empty())
    } else {
        let (f1, e1, p) = jitter_step(frames, expected, arrivals[0].0, arrivals[0].1);
        let (f2, e2, ps) = replay_jitter(f1, e1, arrivals.drop_first());
        (f2, e2, seq![p] + ps)
    }
}

/// Sequence number `n` places after `s`, wrapping modulo 2^16.
pub open spec fn seq_after(s: u16, n: int) -> u16 {
    ((s as int + n) % 0x10000) as u16
}

/// Payloads numbered consecutively from `first`.
pub open spec fn in_order(first: u16, payloads: Seq<Vec<u8>>) -> Seq<(u16, Vec<u8>)> {
    Seq::new(payloads.len(), |i: int| (seq_after(first, i), payloads[i]))
}

/// A stream that arrives in order, starting at the expected number, is played
/// frame by frame as it arrives, and the buffer stays empty.
pub proof fn lemma_in_order_stream(expected: u16, payloads: Seq<Vec<u8>>)
    ensures
        replay_jitter(Map::empty(), expected, in_order(expected, payloads)) == (
            Map::<u16, Vec<u8>>::empty(),
            seq_after(expected, payloads.len() as int),
            payloads.map_values(|f: Vec<u8>| Playout::Frame(f)),
        ),
    decreases payloads.len(),
{
    let arrivals = in_order(expected, payloads);
    if payloads.len() == 0 {
        assert(payloads.map_values(|f: Vec<u8>| Playout::Frame(f)) =~= Seq::<Playout>::empty());
    } else {
        let first = payloads[0];
        assert(arrivals[0] == (expected, first));
        let stored = Map::<u16, Vec<u8>>::empty().insert(expected, first);
        assert(stored.remove(expected) =~= Map::<u16, Vec<u8>>::empty());
        let rest = payloads.drop_first();
        assert(next_seq(expected) == seq_after(expected, 1));
        assert(arrivals.drop_first() =~= in_order(next_seq(expected), rest)) by {
            assert forall|i: int| 0 <= i < rest.len() implies seq_after(expected, i + 1) == seq_after(
                next_seq(expected),
                i,
            ) by {
                if expected == 0xFFFF {
                    assert((expected as int + i + 1) % 0x10000 == i % 0x10000);
                }
            }
        }
        lemma_in_order_stream(next_seq(expected), rest);
        assert(seq_after(next_seq(expected), rest.len() as int) == seq_after(
            expected,
            payloads.len() as int,
        ));
        assert(seq![Playout::Frame(first)] + rest.map_values(|f: Vec<u8>| Playout::Frame(f))
            =~= payloads.map_values(|f: Vec<u8>| Playout::Frame(f)));
    }
}

/// No arriving frame is lost, and only the expected frame is ever played:
/// after a frame arrives, the frames still stored, together with the frame
/// played (under the old expected number), are exactly the frames stored
/// before with the new one added. A frame is played exactly when one is stored
/// under the expected number once the new one is in; then that frame is played
/// and the expected number moves on by one (wrapping). Silence moves it on too,
/// and only comes when more than `MAX_WAIT` frames wait without the expected
/// one; otherwise nothing is played and the expectation stays.
pub proof fn lemma_jitter_frames_kept(
    frames: Map<u16, Vec<u8>>,
    expected: u16,
    seq: u16,
    frame: Vec<u8>,
)
    requires
        frames.dom().finite(),
    ensures
        ({
            let (after, next, playout) = jitter_step(frames, expected, seq, frame);
            let arrived = frames.insert(seq, frame);
            &&& playout is Frame <==> arrived.contains_key(expected)
            &&& playout matches Playout::Frame(f) ==> f == arrived[expected] && after.insert(
                expected,
                f,
            ) == arrived && !after.contains_key(expected)
            &&& !(playout is Frame) ==> after == arrived
            &&& playout is Silence <==> !arrived.contains_key(expected) && arrived.len() > MAX_WAIT
            &&& playout is Wait ==> next == expected
            &&& !(playout is Wait) ==> next as int == (expected as int + 1) % 0x10000
        }),
{
    let arrived = frames.insert(seq, frame);
    if arrived.contains_key(expected) {
        assert(arrived.remove(expected).insert(expected, arrived[expected]) =~= arrived);
    }
}

} // verus!
