use murmr::codec::linear_to_alaw;
use murmr::crypto::chacha::{chacha, decrypt};
use murmr::net::{
    frame_audio_packet, open_datagram, public_key_at, seal_audio_packet, seri_packet_audio,
    seri_packet_crypto, Incoming, JitterBuffer, Playout, RecvAction, Receiver, Sender, GOODBYE,
};

const KEY: [u8; 32] = [0x42; 32];
const NONCE: [u8; 24] = [0x11; 24];

fn in_buffer(datagram: &[u8]) -> (Vec<u8>, usize) {
    let mut buf = vec![0u8; 4096];
    buf[..datagram.len()].copy_from_slice(datagram);
    (buf, datagram.len())
}

#[test]
fn key_packet_layout() {
    let public = [9u8; 32];
    let p = seri_packet_crypto(public);
    assert_eq!(p.len(), 34);
    assert_eq!(&p[..2], &[0, 0]);
    assert_eq!(&p[2..], &public);
}

#[test]
fn audio_packet_layout() {
    let p = frame_audio_packet(1, 0x0102, NONCE, &[0xAA, 0xBB]);
    assert_eq!(&p[..4], &[1, 0, 0x02, 0x01]);
    assert_eq!(&p[4..28], &NONCE);
    assert_eq!(&p[28..], &[0xAA, 0xBB]);
}

#[test]
fn sealed_audio_packet_carries_the_alaw_payload() {
    let samples = vec![0i16, 100, -100, 4000];
    let p = seal_audio_packet(samples.clone(), 1, 7, KEY, NONCE);
    let sealed = chacha(KEY, NONCE, &linear_to_alaw(samples.clone())).unwrap();
    assert_eq!(p, frame_audio_packet(1, 7, NONCE, &sealed));
    let (buf, len) = in_buffer(&p);
    assert_eq!(
        open_datagram(&buf, len, Some(KEY)),
        Incoming::Audio { seq: 7, payload: linear_to_alaw(samples) }
    );
}

#[test]
fn random_nonce_packets_open_too() {
    let samples = vec![5i16; 960];
    let p1 = seri_packet_audio(samples.clone(), 1, 300, KEY);
    let p2 = seri_packet_audio(samples.clone(), 1, 300, KEY);
    assert_eq!(p1.len(), 28 + 960 + 16);
    assert_ne!(p1[4..28], p2[4..28]);
    let (buf, len) = in_buffer(&p1);
    assert_eq!(
        open_datagram(&buf, len, Some(KEY)),
        Incoming::Audio { seq: 300, payload: linear_to_alaw(samples) }
    );
}

#[test]
fn datagram_kinds() {
    let (buf, len) = in_buffer(&GOODBYE);
    assert_eq!(open_datagram(&buf, len, None), Incoming::Goodbye);
    let (buf, len) = in_buffer(b"GOODBYF");
    assert_eq!(open_datagram(&buf, len, None), Incoming::Runt);
    let (buf, len) = in_buffer(&[1u8; 27]);
    assert_eq!(open_datagram(&buf, len, Some(KEY)), Incoming::Runt);
    let (buf, len) = in_buffer(&seri_packet_crypto([5; 32]));
    assert_eq!(open_datagram(&buf, len, None), Incoming::KeyOffer([5; 32]));
    let p = frame_audio_packet(1, 1, NONCE, &[0u8; 20]);
    let (buf, len) = in_buffer(&p);
    assert_eq!(open_datagram(&buf, len, None), Incoming::NoKey);
    assert_eq!(open_datagram(&buf, len, Some(KEY)), Incoming::Rejected);
}

#[test]
fn key_offer_reads_the_buffer_past_a_short_datagram() {
    let mut buf = vec![0u8; 4096];
    buf[2..34].copy_from_slice(&[6u8; 32]);
    buf[0] = 0;
    assert_eq!(open_datagram(&buf, 28, None), Incoming::KeyOffer([6; 32]));
    assert_eq!(public_key_at(&buf, 2), [6u8; 32]);
}

#[test]
fn in_order_frames_play_at_once() {
    let mut jb = JitterBuffer::new();
    for seq in 1..=20u16 {
        assert_eq!(jb.push(seq, vec![seq as u8]), Playout::Frame(vec![seq as u8]));
        assert_eq!(jb.len(), 0);
        assert_eq!(jb.expected(), seq + 1);
    }
}

#[test]
fn early_frame_waits_for_the_expected_one() {
    let mut jb = JitterBuffer::new();
    assert_eq!(jb.push(2, vec![2]), Playout::Wait);
    assert_eq!(jb.expected(), 1);
    assert_eq!(jb.push(1, vec![1]), Playout::Frame(vec![1]));
    assert_eq!(jb.expected(), 2);
    assert_eq!(jb.len(), 1);
    assert_eq!(jb.push(4, vec![4]), Playout::Frame(vec![2]));
    assert_eq!(jb.expected(), 3);
}

#[test]
fn lost_frame_is_replaced_by_silence() {
    let mut jb = JitterBuffer::new();
    for seq in 2..=6u16 {
        assert_eq!(jb.push(seq, vec![]), Playout::Wait);
    }
    assert_eq!(jb.len(), 5);
    assert_eq!(jb.push(7, vec![]), Playout::Silence);
    assert_eq!(jb.expected(), 2);
    assert_eq!(jb.len(), 6);
    assert_eq!(jb.push(8, vec![]), Playout::Frame(vec![]));
    assert_eq!(jb.expected(), 3);
}

#[test]
fn duplicate_frame_replaces_the_stored_one() {
    let mut jb = JitterBuffer::new();
    assert_eq!(jb.push(3, vec![1]), Playout::Wait);
    assert_eq!(jb.push(3, vec![2]), Playout::Wait);
    assert_eq!(jb.len(), 1);
}

#[test]
fn sequence_numbers_wrap() {
    let mut jb = JitterBuffer::new();
    for seq in 1..=u16::MAX {
        assert_eq!(jb.push(seq, vec![]), Playout::Frame(vec![]));
    }
    assert_eq!(jb.expected(), 0);
    assert_eq!(jb.push(0, vec![9]), Playout::Frame(vec![9]));
    assert_eq!(jb.expected(), 1);
}

#[test]
fn sender_and_receiver_carry_audio_end_to_end() {
    let mut tx = Sender::new(KEY);
    let mut rx = Receiver::new();
    let frame: Vec<i16> = (0..960).map(|i| (i * 13 - 6000) as i16).collect();
    let packet = tx.next_packet(frame.clone());
    assert_eq!(tx.counter(), 1);
    let (buf, len) = in_buffer(&packet);
    assert_eq!(rx.on_datagram(&buf, len), RecvAction::NoKey);
    rx.set_key(KEY);
    assert_eq!(rx.on_datagram(&buf, len), RecvAction::Play(Playout::Frame(linear_to_alaw(frame))));
    assert_eq!(rx.buffered(), 0);
}

#[test]
fn receiver_steps() {
    let mut rx = Receiver::new();
    let (buf, len) = in_buffer(&GOODBYE);
    assert_eq!(rx.on_datagram(&buf, len), RecvAction::Stop);
    let (buf, len) = in_buffer(&[3u8; 10]);
    assert_eq!(rx.on_datagram(&buf, len), RecvAction::Skip);
    let (buf, len) = in_buffer(&seri_packet_crypto([1; 32]));
    assert_eq!(rx.on_datagram(&buf, len), RecvAction::KeyOffer([1; 32]));
    rx.set_key(KEY);
    let (buf, len) = in_buffer(&frame_audio_packet(1, 1, NONCE, &[0u8; 40]));
    assert_eq!(rx.on_datagram(&buf, len), RecvAction::Rejected);
    let mut tx = Sender::new([1; 32]);
    let (buf, len) = in_buffer(&tx.next_packet(vec![1, 2, 3]));
    assert_eq!(rx.on_datagram(&buf, len), RecvAction::Rejected);
}

#[test]
fn audio_packet_opens_with_its_own_nonce() {
    let samples: Vec<i16> = (0..960).map(|i| (i * 31 - 15000) as i16).collect();
    let out = seri_packet_audio(samples.clone(), 1, 9, KEY);
    assert_eq!(out.len(), 28 + samples.len() + 16);
    assert_eq!(&out[..4], &[1, 0, 9, 0]);
    let nonce: [u8; 24] = out[4..28].try_into().unwrap();
    assert_eq!(decrypt(KEY, nonce, &out[28..]), Ok(linear_to_alaw(samples)));
}
