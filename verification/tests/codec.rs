use murmr::codec::{alaw_to_linear, linear_to_alaw};

fn encode(s: i16) -> u8 {
    linear_to_alaw(vec![s])[0]
}

fn decode(b: u8) -> i16 {
    alaw_to_linear(vec![b])[0]
}

fn segment(m: i32) -> u32 {
    let ends = [0x1F, 0x3F, 0x7F, 0xFF, 0x1FF, 0x3FF, 0x7FF, 0xFFF];
    let mut k = 0;
    while k < 8 && m > ends[k] {
        k += 1;
    }
    k as u32
}

#[test]
fn encode_known_values() {
    assert_eq!(linear_to_alaw(vec![0, -1, 100, 4095, 5000, i16::MAX]), vec![0xD5, 0x55, 0xFC, 0xAA, 0xAA, 0xAA]);
    assert_eq!(encode(31), 0x0F ^ 0xD5);
    assert_eq!(encode(32), 0x10 ^ 0xD5);
    assert_eq!(encode(-33), 0x10 ^ 0x55);
}

#[test]
fn decode_known_values() {
    assert_eq!(alaw_to_linear(vec![0xD5, 0x55, 0xAA, 0x2A]), vec![8, -8, 32256, -32256]);
    // segment 1, step 0: (0 * 16 + 0x108) = 264
    assert_eq!(decode(0x10 ^ 0xD5), 264);
}

#[test]
fn lengths_are_kept() {
    assert_eq!(linear_to_alaw(vec![]), Vec::<u8>::new());
    assert_eq!(alaw_to_linear(vec![]), Vec::<i16>::new());
    assert_eq!(linear_to_alaw(vec![7; 960]).len(), 960);
    assert_eq!(alaw_to_linear(vec![7; 960]).len(), 960);
}

#[test]
fn encode_sign_symmetry() {
    for s in 0..i16::MAX {
        assert_eq!(encode(-s - 1), encode(s) ^ 0x80);
    }
}

#[test]
fn decode_sign_symmetry() {
    for b in 0..=255u8 {
        assert_eq!(decode(b ^ 0x80) as i32, -(decode(b) as i32));
    }
}

#[test]
fn encode_is_monotone_on_non_negative_samples() {
    let mut last = 0u8;
    for s in 0..=i16::MAX {
        let code = encode(s) ^ 0xD5;
        assert!(code >= last);
        last = code;
    }
}

#[test]
fn round_trip_stays_within_half_a_step() {
    for s in 0..=0xFFFi16 {
        let seg = segment(s as i32);
        let w: i32 = if seg < 2 { 2 } else { 1 << seg };
        let d = decode(encode(s)) as i32;
        let target = 8 * s as i32;
        assert!(target - 4 * w + 8 <= d && d <= target + 4 * w, "sample {}", s);
    }
}

#[test]
fn loud_samples_saturate() {
    for s in 0x1000..=i16::MAX {
        assert_eq!(encode(s), 0xAA);
    }
    assert_eq!(decode(0xAA), 32256);
}

#[test]
fn re_encoding_the_decoded_value_gives_back_every_byte() {
    let all: Vec<u8> = (0..=255u8).collect();
    let decoded = alaw_to_linear(all.clone());
    let thirteen_bit: Vec<i16> = decoded.iter().map(|v| v >> 3).collect();
    assert_eq!(linear_to_alaw(thirteen_bit), all);
}

fn order(code: u8) -> i32 {
    let t = code ^ 0x55;
    if t & 0x80 != 0 {
        (t & 0x7F) as i32
    } else {
        -1 - (t & 0x7F) as i32
    }
}

#[test]
fn decoding_is_strictly_increasing_in_code_order() {
    let mut codes: Vec<u8> = (0..=255u8).collect();
    codes.sort_by_key(|&c| order(c));
    let decoded = alaw_to_linear(codes);
    for w in decoded.windows(2) {
        assert!(w[0] < w[1]);
    }
}

#[test]
fn encode_keeps_sample_order_in_code_order() {
    let mut last = i32::MIN;
    for s in (i16::MIN + 1)..=i16::MAX {
        let o = order(encode(s));
        assert!(o >= last, "sample {}", s);
        last = o;
    }
}
