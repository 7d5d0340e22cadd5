use murmr::net::stun::{
    format_endpoint, get_ip, is_lan, keep_punching, new_binding_request, stun_reply, stun_request,
    MappedAddress, PunchReply, StunReply,
};

const TID: [u8; 12] = [1, 2, 3, 4, 5, 6, 7, 8, 9, 10, 11, 12];
const COOKIE: [u8; 4] = [0x21, 0x12, 0xA4, 0x42];

fn header(tid: [u8; 12], body_len: u16) -> Vec<u8> {
    let mut b = vec![0x01, 0x01];
    b.extend_from_slice(&body_len.to_be_bytes());
    b.extend_from_slice(&COOKIE);
    b.extend_from_slice(&tid);
    b
}

fn xor_mapped(ip: [u8; 4], port: u16) -> Vec<u8> {
    let xport = port ^ 0x2112;
    let mut b = vec![0x00, 0x20, 0x00, 0x08, 0x00, 0x01];
    b.extend_from_slice(&xport.to_be_bytes());
    for j in 0..4 {
        b.push(ip[j] ^ COOKIE[j]);
    }
    b
}

fn reply(tid: [u8; 12], ip: [u8; 4], port: u16) -> Vec<u8> {
    let mut b = header(tid, 12);
    b.extend(xor_mapped(ip, port));
    b
}

#[test]
fn request_has_type_cookie_and_id() {
    let p = stun_request(TID);
    assert_eq!(&p[0..4], &[0, 1, 0, 0]);
    assert_eq!(&p[4..8], &COOKIE);
    assert_eq!(&p[8..20], &TID);
}

#[test]
fn new_request_carries_its_id() {
    let (tid, packet) = new_binding_request();
    assert_eq!(packet, stun_request(tid));
    let (tid2, _) = new_binding_request();
    assert_ne!(tid, tid2);
}

#[test]
fn mapped_address_is_read_back() {
    let buf = reply(TID, [203, 0, 113, 5], 54321);
    assert_eq!(get_ip(&buf, TID, buf.len()), Some("203.0.113.5:54321".to_string()));
    assert_eq!(
        stun_reply(&buf, TID, buf.len()),
        StunReply::Mapped(MappedAddress { octets: [203, 0, 113, 5], port: 54321 })
    );
}

#[test]
fn mapped_address_in_a_large_receive_buffer() {
    let mut buf = [0u8; 512];
    let r = reply(TID, [8, 8, 4, 4], 19302);
    buf[..r.len()].copy_from_slice(&r);
    assert_eq!(get_ip(&buf, TID, r.len()), Some("8.8.4.4:19302".to_string()));
}

#[test]
fn other_attributes_are_skipped_with_padding() {
    let mut b = header(TID, 0);
    // SOFTWARE attribute of 5 bytes, padded to 8
    b.extend_from_slice(&[0x80, 0x22, 0x00, 0x05, b'm', b'u', b'r', b'm', b'r', 0, 0, 0]);
    b.extend(xor_mapped([192, 0, 2, 1], 3478));
    assert_eq!(get_ip(&b, TID, b.len()), Some("192.0.2.1:3478".to_string()));
}

#[test]
fn ipv6_mapped_address_is_not_taken() {
    let mut b = header(TID, 0);
    b.extend_from_slice(&[0x00, 0x20, 0x00, 0x14, 0x00, 0x02, 0, 0]);
    b.extend_from_slice(&[0u8; 16]);
    assert_eq!(get_ip(&b, TID, b.len()), None);
}

#[test]
fn reply_to_another_request_is_refused() {
    let buf = reply([9; 12], [1, 2, 3, 4], 80);
    assert_eq!(get_ip(&buf, TID, buf.len()), None);
}

#[test]
fn reply_without_cookie_is_refused() {
    let mut buf = reply(TID, [1, 2, 3, 4], 80);
    buf[4] = 0;
    assert_eq!(get_ip(&buf, TID, buf.len()), None);
}

#[test]
fn short_reply_gives_nothing() {
    let buf = reply(TID, [1, 2, 3, 4], 80);
    assert_eq!(get_ip(&buf, TID, 19), None);
    assert_eq!(get_ip(&buf, TID, 20), None);
    assert_eq!(stun_reply(&buf, TID, 0), StunReply::NoAddress);
}

#[test]
fn attribute_running_past_the_datagram_stops_the_walk() {
    let buf = reply(TID, [1, 2, 3, 4], 80);
    assert_eq!(get_ip(&buf, TID, buf.len() - 1), None);
}

#[test]
fn reads_past_the_buffer_are_malformed() {
    let buf = reply(TID, [1, 2, 3, 4], 80);
    assert_eq!(stun_reply(&buf[..16], TID, 32), StunReply::Malformed);
    assert_eq!(stun_reply(&buf[..26], TID, 32), StunReply::Malformed);
    assert_eq!(stun_reply(&buf[..22], TID, 32), StunReply::Malformed);
}

#[test]
fn endpoint_text() {
    let a = MappedAddress { octets: [0, 10, 255, 1], port: 0 };
    assert_eq!(format_endpoint(&a), "0.10.255.1:0");
    let b = MappedAddress { octets: [100, 99, 9, 200], port: 65535 };
    assert_eq!(format_endpoint(&b), "100.99.9.200:65535");
}

#[test]
fn lan_addresses() {
    assert!(is_lan([10, 1, 2, 3]));
    assert!(is_lan([192, 168, 0, 1]));
    assert!(is_lan([127, 0, 0, 1]));
    assert!(is_lan([172, 16, 0, 1]));
    assert!(is_lan([172, 31, 255, 255]));
    assert!(!is_lan([172, 15, 0, 1]));
    assert!(!is_lan([172, 32, 0, 1]));
    assert!(!is_lan([192, 169, 0, 1]));
    assert!(!is_lan([8, 8, 8, 8]));
}

#[test]
fn hole_punching_stops_on_answer_or_timeout() {
    assert!(keep_punching(0, None));
    assert!(keep_punching(4999, None));
    assert!(!keep_punching(5000, None));
    assert!(!keep_punching(10, Some(PunchReply { from_peer: true, len: 1 })));
    assert!(keep_punching(10, Some(PunchReply { from_peer: false, len: 1 })));
    assert!(keep_punching(10, Some(PunchReply { from_peer: true, len: 3 })));
}

#[test]
fn bytes_past_the_datagram_are_ignored() {
    let r = reply(TID, [198, 51, 100, 7], 4242);
    let mut a = [0u8; 512];
    let mut b = [0xFFu8; 512];
    a[..r.len()].copy_from_slice(&r);
    b[..r.len()].copy_from_slice(&r);
    assert_eq!(get_ip(&a, TID, r.len()), get_ip(&b, TID, r.len()));
    assert_eq!(get_ip(&a, TID, r.len()), Some("198.51.100.7:4242".to_string()));
}
