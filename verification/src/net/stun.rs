//! STUN binding requests, the parser of their replies, and the checks that
//! decide whether a peer needs NAT hole punching.
use vstd::prelude::*;

verus! {

/// The magic cookie of RFC 5389, in network byte order.
pub open spec fn magic_cookie() -> Seq<u8> {
    seq![0x21u8, 0x12u8, 0xA4u8, 0x42u8]
}

/// Attribute type of XOR-MAPPED-ADDRESS.
pub const XOR_MAPPED_ADDRESS: u16 = 0x0020;

/// Big-endian 16-bit value of the two bytes at `i`.
pub open spec fn be16(b: Seq<u8>, i: int) -> int {
    b[i] as int * 256 + b[i + 1] as int
}

/// Attribute length rounded up to a multiple of four.
pub open spec fn padded(n: int) -> int {
    (n + 3) / 4 * 4
}

/// Outcome of walking the attributes of a reply, as offsets into the buffer.
pub enum AttrScan {
    /// An IPv4 XOR-MAPPED-ADDRESS whose value starts at this offset.
    Found(int),
    /// No such attribute before the walk stopped.
    Missing,
    /// The walk reads past the buffer, or the padded length overflows 16 bits.
    Fault,
}

/// Walks the attributes from offset `i` while a four-byte header fits before `len`.
pub open spec fn scan_attributes(buf: Seq<u8>, len: int, i: int) -> AttrScan
    decreases len + 4 - i,
{
    if i + 4 >= len {
        AttrScan::Missing
    } else if i + 3 >= buf.len() {
        AttrScan::Fault
    } else {
        let attr = be16(buf, i);
        let alen = be16(buf, i + 2);
        let start = i + 4;
        if start + alen > len {
            AttrScan::Missing
        } else if attr == 0x20 && start + 1 >= buf.len() {
            AttrScan::Fault
        } else if attr == 0x20 && buf[start + 1] == 1 {
            if start + 7 >= buf.len() {
                AttrScan::Fault
            } else {
                AttrScan::Found(start)
            }
        } else if alen + 3 > 0xFFFF {
            AttrScan::Fault
        } else {
            proof {
                vstd::arithmetic::div_mod::lemma_div_pos_is_pos(alen + 3, 4);
                vstd::arithmetic::div_mod::lemma_fundamental_div_mod(alen + 3, 4);
                vstd::arithmetic::div_mod::lemma_mod_pos_bound(alen + 3, 4);
            }
            scan_attributes(buf, len, start + padded(alen))
        }
    }
}

/// Outcome of reading the first `len` bytes of `buf` as the reply to a binding
/// request with transaction id `tid`.
pub open spec fn scan_reply(buf: Seq<u8>, tid: Seq<u8>, len: int) -> AttrScan {
    if len < 20 {
        AttrScan::Missing
    } else if buf.len() < 20 {
        AttrScan::Fault
    } else if buf.subrange(8, 20) != tid {
        AttrScan::Missing
    } else if buf.subrange(4, 8) != magic_cookie() {
        AttrScan::Missing
    } else {
        scan_attributes(buf, len, 20)
    }
}

/// The IPv4 octets carried by the XOR-MAPPED-ADDRESS value at `start`.
pub open spec fn mapped_octets(buf: Seq<u8>, start: int) -> Seq<u8> {
    Seq::new(4, |j: int| buf[start + 4 + j] ^ magic_cookie()[j])
}

/// The port carried by the XOR-MAPPED-ADDRESS value at `start`.
pub open spec fn mapped_port(buf: Seq<u8>, start: int) -> u16 {
    (be16(buf, start + 2) as u16) ^ 0x2112u16
}

/// The public address that a STUN server saw.
#[derive(Clone, Copy, PartialEq, Eq, Debug)]
pub struct MappedAddress {
    pub octets: [u8; 4],
    pub port: u16,
}

/// What a reply to a binding request holds.
#[derive(Clone, Copy, PartialEq, Eq, Debug)]
pub enum StunReply {
    /// The reply maps this request to a public IPv4 address and port.
    Mapped(MappedAddress),
    /// The reply is short, answers another request, or has no IPv4 mapped address.
    NoAddress,
    /// Reading the reply would leave the buffer (or overflow a 16-bit length).
    Malformed,
}

/// Whether `reply` is what the scan outcome `scan` of `buf` describes.
pub open spec fn reply_matches(reply: StunReply, buf: Seq<u8>, scan: AttrScan) -> bool {
    match scan {
        AttrScan::Found(start) => reply matches StunReply::Mapped(a) && a.octets@ == mapped_octets(
            buf,
            start,
        ) && a.port == mapped_port(buf, start),
        AttrScan::Missing => reply == StunReply::NoAddress,
        AttrScan::Fault => reply == StunReply::Malformed,
    }
}

fn be16_at(hi: u8, lo: u8) -> (r: u16)
    ensures
        r == hi as int * 256 + lo as int,
{
    (hi as u16) * 256 + (lo as u16)
}

fn bytes_equal(buf: &[u8], from: usize, expected: &[u8]) -> (eq: bool)
    requires
        from + expected.len() <= buf.len(),
    ensures
        eq == (buf@.subrange(from as int, from + expected.len()) == expected@),
{
    let mut k: usize = 0;
    while k < expected.len()
        invariant
            k <= expected.len(),
            from + expected.len() <= buf.len(),
            forall|j: int| 0 <= j < k ==> buf@[from + j] == expected@[j],
        decreases expected.len() - k,
    {
        if buf[from + k] != expected[k] {
            assert(buf@.subrange(from as int, from + expected.len())[k as int] != expected@[k as int]);
            return false;
        }
        k += 1;
    }
    assert(buf@.subrange(from as int, from + expected.len()) =~= expected@);
    true
}

/// Reads the first `len` bytes of `buf` as the reply to the binding request
/// with transaction id `tid`, and finds the IPv4 XOR-MAPPED-ADDRESS in it.
pub fn stun_reply(buf: &[u8], tid: [u8; 12], len: usize) -> (reply: StunReply)
    requires
        buf.len() <= isize::MAX,
    ensures
        reply_matches(reply, buf@, scan_reply(buf@, tid@, len as int)),
{
    if len < 20 {
        return StunReply::NoAddress;
    }
    if buf.len() < 20 {
        return StunReply::Malformed;
    }
    if !bytes_equal(buf, 8, &tid) {
        return StunReply::NoAddress;
    }
    let cookie: [u8; 4] = [0x21, 0x12, 0xA4, 0x42];
    assert(cookie@ =~= magic_cookie());
    if !bytes_equal(buf, 4, &cookie) {
        return StunReply::NoAddress;
    }
    let mut i: usize = 20;
    while i + 4 < len
        invariant
            20 <= i,
            buf.len() <= isize::MAX,
            i < buf.len() + 0x10004,
            cookie@ == magic_cookie(),
            scan_reply(buf@, tid@, len as int) == scan_attributes(buf@, len as int, i as int),
        decreases len + 4 - i,
    {
        if i + 3 >= buf.len() {
            return StunReply::Malformed;
        }
        let attr: u16 = be16_at(buf[i], buf[i + 1]);
        let attr_len: u16 = be16_at(buf[i + 2], buf[i + 3]);
        let attr_start: usize = i + 4;
        let val_end: usize = attr_start + attr_len as usize;
        if val_end > len {
            return StunReply::NoAddress;
        }
        if attr == XOR_MAPPED_ADDRESS {
            if attr_start + 1 >= buf.len() {
                return StunReply::Malformed;
            }
            let family: u8 = buf[attr_start + 1];
            if family == 0x01 {
                if attr_start + 7 >= buf.len() {
                    return StunReply::Malformed;
                }
                let port: u16 = be16_at(buf[attr_start + 2], buf[attr_start + 3]) ^ 0x2112;
                let octets: [u8; 4] = [
                    buf[attr_start + 4] ^ cookie[0],
                    buf[attr_start + 5] ^ cookie[1],
                    buf[attr_start + 6] ^ cookie[2],
                    buf[attr_start + 7] ^ cookie[3],
                ];
                assert(octets@ =~= mapped_octets(buf@, attr_start as int));
                return StunReply::Mapped(MappedAddress { octets, port });
            }
        }
        if attr_len > 0xFFFF - 3 {
            return StunReply::Malformed;
        }
        let padded_len: u16 = (attr_len + 3) & !3u16;
        assert(padded_len == padded(attr_len as int)) by {
            let a: u16 = (attr_len + 3) as u16;
            assert((a & !3u16) == a / 4 * 4) by (bit_vector);
        }
        proof {
            vstd::arithmetic::div_mod::lemma_div_pos_is_pos(attr_len + 3, 4);
        }
        i += 4 + padded_len as usize;
    }
    StunReply::NoAddress
}

/// The decimal digit character of `d`.
pub open spec fn digit_char(d: int) -> char {
    (48 + d) as char
}

/// Decimal text of `n`, without leading zeros.
pub open spec fn decimal(n: nat) -> Seq<char>
    decreases n,
{
    if n < 10 {
        seq![digit_char(n as int)]
    } else {
        decimal(n / 10).push(digit_char((n % 10) as int))
    }
}

/// `a.b.c.d:port` text of an IPv4 endpoint.
pub open spec fn endpoint_text(octets: Seq<u8>, port: u16) -> Seq<char> {
    decimal(octets[0] as nat) + seq!['.'] + decimal(octets[1] as nat) + seq!['.'] + decimal(
        octets[2] as nat,
    ) + seq!['.'] + decimal(octets[3] as nat) + seq![':'] + decimal(port as nat)
}

/// Appends one character to a `String` (std's `String::push`).
#[verifier::external_body]
fn push_char(s: &mut String, c: char)
    ensures
        final(s)@ == old(s)@.push(c),
{
    s.push(c);
}

fn digit(d: u16) -> (c: char)
    requires
        d < 10,
    ensures
        c == digit_char(d as int),
{
    let b: u8 = 48 + d as u8;
    b as char
}

fn push_decimal(s: &mut String, n: u16)
    ensures
        final(s)@ == old(s)@ + decimal(n as nat),
    decreases n,
{
    if n >= 10 {
        push_decimal(s, n / 10);
    }
    push_char(s, digit(n % 10));
    proof {
        if n >= 10 {
            assert(final(s)@ =~= old(s)@ + decimal((n / 10) as nat).push(digit_char((n % 10) as int)));
        } else {
            assert(final(s)@ =~= old(s)@ + decimal(n as nat));
        }
    }
}

/// Writes an endpoint as `a.b.c.d:port`.
pub fn format_endpoint(addr: &MappedAddress) -> (text: String)
    ensures
        text@ == endpoint_text(addr.octets@, addr.port),
{
    let mut text = String::new();
    push_decimal(&mut text, addr.octets[0] as u16);
    push_char(&mut text, '.');
    push_decimal(&mut text, addr.octets[1] as u16);
    push_char(&mut text, '.');
    push_decimal(&mut text, addr.octets[2] as u16);
    push_char(&mut text, '.');
    push_decimal(&mut text, addr.octets[3] as u16);
    push_char(&mut text, ':');
    push_decimal(&mut text, addr.port);
    assert(text@ =~= endpoint_text(addr.octets@, addr.port));
    text
}

/// The text that `get_ip` gives for a scan outcome that is not a fault.
pub open spec fn ip_text(buf: Seq<u8>, scan: AttrScan) -> Option<Seq<char>> {
    match scan {
        AttrScan::Found(start) => Some(endpoint_text(mapped_octets(buf, start), mapped_port(buf, start))),
        _ => None,
    }
}

/// Reads the public `a.b.c.d:port` endpoint out of the first `len` bytes of a
/// reply to the binding request with transaction id `tid`; `None` when the
/// reply is short, answers another request, or carries no IPv4 mapped address.
pub fn get_ip(buf: &[u8], tid: [u8; 12], len: usize) -> (ip: Option<String>)
    requires
        buf.len() <= isize::MAX,
        scan_reply(buf@, tid@, len as int) != AttrScan::Fault,
    ensures
        match ip_text(buf@, scan_reply(buf@, tid@, len as int)) {
            Some(t) => ip matches Some(s) && s@ == t,
            None => ip is None,
        },
{
    match stun_reply(buf, tid, len) {
        StunReply::Mapped(addr) => Some(format_endpoint(&addr)),
        _ => None,
    }
}

/// Bytes of a binding request with transaction id `tid`: type 0x0001, an empty
/// body, the magic cookie, then the id.
pub open spec fn request_bytes(tid: Seq<u8>) -> Seq<u8> {
    seq![0x00u8, 0x01u8, 0x00u8, 0x00u8] + magic_cookie() + tid
}

/// Builds the binding request with transaction id `tid`.
pub fn stun_request(tid: [u8; 12]) -> (packet: [u8; 20])
    ensures
        packet@ == request_bytes(tid@),
{
    let mut packet: [u8; 20] = [0u8; 20];
    packet[1] = 0x01;
    packet[4] = 0x21;
    packet[5] = 0x12;
    packet[6] = 0xA4;
    packet[7] = 0x42;
    let mut k: usize = 0;
    while k < 12
        invariant
            k <= 12,
            packet@.len() == 20,
            packet@.subrange(0, 8) =~= seq![0x00u8, 0x01u8, 0x00u8, 0x00u8] + magic_cookie(),
            forall|j: int| 0 <= j < k ==> packet@[8 + j] == tid@[j],
        decreases 12 - k,
    {
        packet[8 + k] = tid[k];
        k += 1;
    }
    assert(packet@ =~= request_bytes(tid@));
    packet
}

/// A fresh random transaction id (rand's thread-local generator).
#[verifier::external_body]
fn random_transaction_id() -> (tid: [u8; 12]) {
    rand::Rng::random(&mut rand::rng())
}

/// Draws a fresh transaction id and builds the binding request that carries it.
pub fn new_binding_request() -> (req: ([u8; 12], [u8; 20]))
    ensures
        req.1@ == request_bytes(req.0@),
{
    let tid = random_transaction_id();
    let packet = stun_request(tid);
    (tid, packet)
}

/// Whether an IPv4 address is private, loopback or link-local to this network,
/// so that no STUN lookup or hole punching is needed to reach it.
pub open spec fn is_lan_spec(ip: Seq<u8>) -> bool {
    ||| ip[0] == 10
    ||| ip[0] == 192 && ip[1] == 168
    ||| ip[0] == 127
    ||| ip[0] == 172 && 16 <= ip[1] <= 31
}

/// Checks whether the peer at these IPv4 octets is on the local network.
pub fn is_lan(ip: [u8; 4]) -> (lan: bool)
    ensures
        lan == is_lan_spec(ip@),
{
    let a = ip[0];
    let b = ip[1];
    if a == 10 {
        true
    } else if a == 192 && b == 168 {
        true
    } else if a == 127 {
        true
    } else if a == 172 && 16 <= b && b <= 31 {
        true
    } else {
        false
    }
}

/// The single byte that hole punching sends to the peer.
pub const HOLE_PUNCH_PROBE: u8 = 3;

/// How long hole punching goes on without an answer, in milliseconds.
pub const HOLE_PUNCH_WINDOW_MS: u64 = 5000;

/// A datagram received while hole punching: whether it came from the peer's
/// address, and how many bytes it had.
#[derive(Clone, Copy, PartialEq, Eq, Debug)]
pub struct PunchReply {
    pub from_peer: bool,
    pub len: usize,
}

/// Decides, after `elapsed_ms` of hole punching and the last datagram received
/// (if any), whether to send another probe: stop once the peer has answered
/// with a one-byte probe of its own, or once the window has passed.
pub fn keep_punching(elapsed_ms: u64, last: Option<PunchReply>) -> (go_on: bool)
    ensures
        go_on == (!(last matches Some(r) && r.from_peer && r.len == 1) && elapsed_ms
            < HOLE_PUNCH_WINDOW_MS),
{
    match last {
        Some(r) => {
            if r.from_peer && r.len == 1 {
                return false;
            }
        },
        None => {},
    }
    elapsed_ms < HOLE_PUNCH_WINDOW_MS
}

/// A binding success reply for transaction `tid` that carries exactly one
/// XOR-MAPPED-ADDRESS attribute for `octets` and `port`.
pub open spec fn binding_success(tid: Seq<u8>, octets: Seq<u8>, port: u16) -> Seq<u8> {
    let xport = port ^ 0x2112u16;
    seq![0x01u8, 0x01u8, 0x00u8, 0x0Cu8] + magic_cookie() + tid + seq![
        0x00u8,
        0x20u8,
        0x00u8,
        0x08u8,
        0x00u8,
        0x01u8,
        (xport / 256) as u8,
        (xport % 256) as u8,
    ] + Seq::new(4, |j: int| octets[j] ^ magic_cookie()[j])
}

/// A success reply that answers the request (same transaction id) and maps it
/// to an address reads back as exactly that address.
pub proof fn lemma_reply_round_trip(tid: Seq<u8>, octets: Seq<u8>, port: u16)
    requires
        tid.len() == 12,
        octets.len() == 4,
    ensures
        ({
            let buf = binding_success(tid, octets, port);
            &&& scan_reply(buf, tid, buf.len() as int) == AttrScan::Found(24)
            &&& mapped_octets(buf, 24) == octets
            &&& mapped_port(buf, 24) == port
        }),
{
    let buf = binding_success(tid, octets, port);
    let xport = port ^ 0x2112u16;
    assert(buf.len() == 32);
    assert(buf.subrange(8, 20) =~= tid);
    assert(buf.subrange(4, 8) =~= magic_cookie());
    assert(be16(buf, 20) == 0x20);
    assert(be16(buf, 22) == 8);
    assert(buf[25] == 1);
    assert(scan_attributes(buf, 32, 20) == AttrScan::Found(24));
    assert forall|j: int| 0 <= j < 4 implies #[trigger] mapped_octets(buf, 24)[j] == octets[j] by {
        let o = octets[j];
        let c = magic_cookie()[j];
        assert((o ^ c) ^ c == o) by (bit_vector);
    }
    assert(mapped_octets(buf, 24) =~= octets);
    assert(be16(buf, 26) == xport as int) by {
        assert(xport as int == (xport / 256) as int * 256 + (xport % 256) as int);
    }
    assert((xport ^ 0x2112u16) == port) by (bit_vector)
        requires
            xport == port ^ 0x2112u16,
    ;
}

/// Whether every XOR-MAPPED-ADDRESS attribute that the walk from offset `i`
/// reaches declares a value of at least 8 bytes, so that reading its family,
/// port and address stays within the first `len` bytes.
pub open spec fn mapped_values_complete(buf: Seq<u8>, len: int, i: int) -> bool
    decreases len + 4 - i,
{
    if i + 4 >= len || i + 3 >= buf.len() {
        true
    } else {
        let attr = be16(buf, i);
        let alen = be16(buf, i + 2);
        let start = i + 4;
        if start + alen > len {
            true
        } else if attr == 0x20 && alen < 8 {
            false
        } else if attr == 0x20 && buf[start + 1] == 1 {
            true
        } else if alen + 3 > 0xFFFF {
            true
        } else {
            proof {
                vstd::arithmetic::div_mod::lemma_div_pos_is_pos(alen + 3, 4);
                vstd::arithmetic::div_mod::lemma_fundamental_div_mod(alen + 3, 4);
                vstd::arithmetic::div_mod::lemma_mod_pos_bound(alen + 3, 4);
            }
            mapped_values_complete(buf, len, start + padded(alen))
        }
    }
}

proof fn lemma_walk_ignores_tail(buf1: Seq<u8>, buf2: Seq<u8>, len: int, i: int)
    requires
        0 <= i,
        0 <= len <= buf1.len(),
        len <= buf2.len(),
        buf1.subrange(0, len) == buf2.subrange(0, len),
        mapped_values_complete(buf1, len, i),
    ensures
        scan_attributes(buf1, len, i) == scan_attributes(buf2, len, i),
        scan_attributes(buf1, len, i) matches AttrScan::Found(start) ==> mapped_octets(buf1, start)
            == mapped_octets(buf2, start) && mapped_port(buf1, start) == mapped_port(buf2, start),
    decreases len + 4 - i,
{
    assert forall|j: int| 0 <= j < len implies buf1[j] == buf2[j] by {
        assert(buf1.subrange(0, len)[j] == buf1[j]);
        assert(buf2.subrange(0, len)[j] == buf2[j]);
        assert(buf1.subrange(0, len)[j] == buf2.subrange(0, len)[j]);
    }
    if i + 4 < len {
        let alen = be16(buf1, i + 2);
        let start = i + 4;
        assert(be16(buf1, i) == be16(buf2, i));
        assert(alen == be16(buf2, i + 2));
        if start + alen <= len {
            if be16(buf1, i) == 0x20 {
                assert(buf1[start + 1] == buf2[start + 1]);
            }
            if be16(buf1, i) == 0x20 && buf1[start + 1] == 1 {
                assert(mapped_octets(buf1, start) =~= mapped_octets(buf2, start));
                assert(be16(buf1, start + 2) == be16(buf2, start + 2));
            } else if alen + 3 <= 0xFFFF {
                vstd::arithmetic::div_mod::lemma_div_pos_is_pos(alen + 3, 4);
                vstd::arithmetic::div_mod::lemma_fundamental_div_mod(alen + 3, 4);
                vstd::arithmetic::div_mod::lemma_mod_pos_bound(alen + 3, 4);
                lemma_walk_ignores_tail(buf1, buf2, len, start + padded(alen));
            }
        }
    }
}

/// Bytes past the first `len` never change what is read from a reply, as long
/// as every XOR-MAPPED-ADDRESS attribute that the walk reaches is at least 8
/// bytes long (for shorter ones the walk reads past the attribute's value).
pub proof fn lemma_bytes_past_len_ignored(buf1: Seq<u8>, buf2: Seq<u8>, tid: Seq<u8>, len: int)
    requires
        0 <= len <= buf1.len(),
        len <= buf2.len(),
        buf1.subrange(0, len) == buf2.subrange(0, len),
        mapped_values_complete(buf1, len, 20),
    ensures
        scan_reply(buf1, tid, len) == scan_reply(buf2, tid, len),
        ip_text(buf1, scan_reply(buf1, tid, len)) == ip_text(buf2, scan_reply(buf2, tid, len)),
{
    if len >= 20 {
        assert(buf1.subrange(8, 20) =~= buf1.subrange(0, len).subrange(8, 20));
        assert(buf2.subrange(8, 20) =~= buf2.subrange(0, len).subrange(8, 20));
        assert(buf1.subrange(4, 8) =~= buf1.subrange(0, len).subrange(4, 8));
        assert(buf2.subrange(4, 8) =~= buf2.subrange(0, len).subrange(4, 8));
        lemma_walk_ignores_tail(buf1, buf2, len, 20);
    }
}

/// Attribute lengths are rounded up to the next multiple of four and no
/// further.
pub proof fn lemma_padding(n: int)
    requires
        0 <= n,
    ensures
        padded(n) % 4 == 0,
        n <= padded(n) < n + 4,
{
    vstd::arithmetic::div_mod::lemma_fundamental_div_mod(n + 3, 4);
    vstd::arithmetic::div_mod::lemma_mod_pos_bound(n + 3, 4);
    vstd::arithmetic::div_mod::lemma_mod_multiples_basic((n + 3) / 4, 4);
}

/// The rounded-up length is the only multiple of four in `n..n + 4`.
proof fn lemma_padding_is(n: int, pad: int)
    requires
        0 <= n <= pad < n + 4,
        pad % 4 == 0,
    ensures
        padded(n) == pad,
{
    lemma_padding(n);
    vstd::arithmetic::div_mod::lemma_fundamental_div_mod(pad, 4);
    vstd::arithmetic::div_mod::lemma_fundamental_div_mod(padded(n), 4);
}

/// A reply header: binding success, a body length, the magic cookie and the
/// transaction id.
pub open spec fn reply_header(tid: Seq<u8>, body_len: u16) -> Seq<u8> {
    seq![0x01u8, 0x01u8, (body_len / 256) as u8, (body_len % 256) as u8] + magic_cookie() + tid
}

/// An attribute of type `typ` whose value is `value`, followed by zero bytes
/// up to `pad` bytes of value.
pub open spec fn attribute(typ: u16, value: Seq<u8>, pad: int) -> Seq<u8> {
    seq![(typ / 256) as u8, (typ % 256) as u8, (value.len() / 256) as u8, (value.len() % 256) as u8]
        + value + Seq::new((pad - value.len()) as nat, |j: int| 0u8)
}

/// An IPv4 XOR-MAPPED-ADDRESS attribute for `octets` and `port`.
pub open spec fn xor_mapped_attribute(octets: Seq<u8>, port: u16) -> Seq<u8> {
    let xport = port ^ 0x2112u16;
    seq![0x00u8, 0x20u8, 0x00u8, 0x08u8, 0x00u8, 0x01u8, (xport / 256) as u8, (xport % 256) as u8]
        + Seq::new(4, |j: int| octets[j] ^ magic_cookie()[j])
}

/// Only an attribute of type 0x0020 is read as the mapped address: any other
/// attribute before it, whatever its type, value and length, is skipped by its
/// length rounded up to a multiple of four, and the XOR-MAPPED-ADDRESS after it
/// is found and read back.
pub proof fn lemma_other_attribute_skipped(
    tid: Seq<u8>,
    body_len: u16,
    typ: u16,
    value: Seq<u8>,
    pad: int,
    octets: Seq<u8>,
    port: u16,
)
    requires
        tid.len() == 12,
        octets.len() == 4,
        typ != 0x20,
        value.len() + 3 <= 0xFFFF,
        pad % 4 == 0,
        value.len() <= pad < value.len() + 4,
    ensures
        ({
            let buf = reply_header(tid, body_len) + attribute(typ, value, pad) + xor_mapped_attribute(
                octets,
                port,
            );
            &&& scan_reply(buf, tid, buf.len() as int) == AttrScan::Found(28 + pad)
            &&& mapped_octets(buf, 28 + pad) == octets
            &&& mapped_port(buf, 28 + pad) == port
        }),
{
    let h = reply_header(tid, body_len);
    let a = attribute(typ, value, pad);
    let x = xor_mapped_attribute(octets, port);
    let buf = h + a + x;
    let n = value.len() as int;
    let xport = port ^ 0x2112u16;
    assert(h.len() == 20);
    assert(a.len() == 4 + pad);
    assert(x.len() == 12);
    let len = buf.len() as int;
    assert(len == 36 + pad);
    assert(buf.subrange(8, 20) =~= tid);
    assert(buf.subrange(4, 8) =~= magic_cookie());
    assert(buf[20] == a[0] && buf[21] == a[1] && buf[22] == a[2] && buf[23] == a[3]);
    assert(be16(buf, 20) == typ as int);
    assert(be16(buf, 22) == n);
    lemma_padding_is(n, pad);
    let i = 24 + pad;
    assert(be16(buf, i) == 0x20);
    assert(be16(buf, i + 2) == 8);
    assert(buf[i + 5] == 1);
    assert(scan_attributes(buf, len, i) == AttrScan::Found(28 + pad));
    assert(scan_attributes(buf, len, 20) == scan_attributes(buf, len, 24 + padded(n)));
    assert forall|j: int| 0 <= j < 4 implies #[trigger] mapped_octets(buf, 28 + pad)[j] == octets[j] by {
        assert(buf[28 + pad + 4 + j] == x[8 + j]);
        let o = octets[j];
        let c = magic_cookie()[j];
        assert((o ^ c) ^ c == o) by (bit_vector);
    }
    assert(mapped_octets(buf, 28 + pad) =~= octets);
    assert(be16(buf, 28 + pad + 2) == xport as int) by {
        assert(buf[28 + pad + 2] == x[6]);
        assert(buf[28 + pad + 3] == x[7]);
        assert(xport as int == (xport / 256) as int * 256 + (xport % 256) as int);
    }
    assert((xport ^ 0x2112u16) == port) by (bit_vector)
        requires
            xport == port ^ 0x2112u16,
    ;
}

/// Whether a peer is on the local network depends only on the first two
/// octets of its address.
pub proof fn lemma_lan_by_prefix(ip1: Seq<u8>, ip2: Seq<u8>)
    requires
        ip1.len() == 4,
        ip2.len() == 4,
        ip1[0] == ip2[0],
        ip1[1] == ip2[1],
    ensures
        is_lan_spec(ip1) == is_lan_spec(ip2),
{
}

/// Every address of the private networks 10.0.0.0/8, 172.16.0.0/12 and
/// 192.168.0.0/16 and of the loopback network 127.0.0.0/8 is on the local
/// network; addresses of 172.x outside 172.16-31 and the public address 8.8.8.8
/// are not.
pub proof fn lemma_private_networks(b: u8, c: u8, d: u8)
    ensures
        is_lan_spec(seq![10u8, b, c, d]),
        is_lan_spec(seq![127u8, b, c, d]),
        is_lan_spec(seq![192u8, 168u8, c, d]),
        16 <= b <= 31 ==> is_lan_spec(seq![172u8, b, c, d]),
        !(16 <= b <= 31) ==> !is_lan_spec(seq![172u8, b, c, d]),
        !is_lan_spec(seq![8u8, 8u8, 8u8, 8u8]),
{
}

} // verus!
