//! A-law companding of 16-bit samples into one byte per sample and back.
use vstd::prelude::*;

verus! {

/// `2^k` for the segment shifts used by the codec.
pub open spec fn seg_scale(k: int) -> int
    decreases k,
{
    if k <= 0 {
        1
    } else {
        2 * seg_scale(k - 1)
    }
}

/// Magnitude carried by a toggled code byte `t` (the code with its even bits flipped).
pub open spec fn alaw_magnitude(t: u8) -> int {
    let q = (t % 16) as int;
    let seg = (t / 16 % 8) as int;
    if seg == 0 {
        q * 16 + 8
    } else {
        (q * 16 + 0x108) * seg_scale(seg - 1)
    }
}

/// The sample that an A-law code byte stands for.
pub open spec fn alaw_decode(code: u8) -> int {
    let t = code ^ 0x55u8;
    if t >= 128 {
        alaw_magnitude(t)
    } else {
        -alaw_magnitude(t)
    }
}

proof fn lemma_decode_bits(t: u8)
    ensures
        (t & 0x0f) == t % 16,
        ((t & 0x70) >> 4u8) == t / 16 % 8,
        ((t & 0x80) != 0) == (t >= 128),
{
    assert((t & 0x0f) == t % 16) by (bit_vector);
    assert(((t & 0x70) >> 4u8) == t / 16 % 8) by (bit_vector);
    assert(((t & 0x80) != 0) == (t >= 128)) by (bit_vector);
}

proof fn lemma_shift_left_scale(t: i32, k: u32)
    requires
        0 <= t <= 504,
        0 <= k <= 6,
    ensures
        t << k == t * seg_scale(k as int),
        t * seg_scale(k as int) <= 32256,
{
    reveal_with_fuel(seg_scale, 7);
    assert(0 <= t <= 504 && 0 <= k <= 6 ==> t << k == t * (1i32 << k)) by (bit_vector);
    assert(0 <= k <= 6 ==> (1i32 << k) == if k == 0u32 { 1i32 } else if k == 1u32 { 2i32 } else if k == 2u32 {
        4i32
    } else if k == 3u32 { 8i32 } else if k == 4u32 { 16i32 } else if k == 5u32 { 32i32 } else { 64i32 })
        by (bit_vector);
    assert(t * seg_scale(k as int) <= 504 * 64) by (nonlinear_arith)
        requires
            0 <= t <= 504,
            1 <= seg_scale(k as int) <= 64,
    ;
}

/// Upper ends of the eight A-law segments, in the 13-bit magnitude scale.
const SEG_TABLE: [i32; 8] = [0x1F, 0x3F, 0x7F, 0xFF, 0x1FF, 0x3FF, 0x7FF, 0xFFF];

/// Segment of a non-negative magnitude `m`: the first `k` with
/// `m <= SEG_TABLE[k]`, or 8 when `m` is above every segment.
pub open spec fn alaw_segment(m: int) -> int {
    if m <= 0x1F {
        0
    } else if m <= 0x3F {
        1
    } else if m <= 0x7F {
        2
    } else if m <= 0xFF {
        3
    } else if m <= 0x1FF {
        4
    } else if m <= 0x3FF {
        5
    } else if m <= 0x7FF {
        6
    } else if m <= 0xFFF {
        7
    } else {
        8
    }
}

/// Seven-bit segment/step code of a non-negative magnitude `m`; 0x7F for
/// magnitudes above the last segment.
pub open spec fn alaw_code(m: int) -> int {
    let seg = alaw_segment(m);
    if seg >= 8 {
        0x7F
    } else if seg < 2 {
        seg * 16 + (m / 2) % 16
    } else {
        seg * 16 + (m / seg_scale(seg)) % 16
    }
}

/// The A-law byte of one sample: the code of its magnitude, with the even bits
/// flipped and the top bit set for non-negative samples.
pub open spec fn alaw_encode(s: i16) -> u8 {
    if s >= 0 {
        (alaw_code(s as int) as u8) ^ 0xD5u8
    } else {
        (alaw_code(-s - 1) as u8) ^ 0x55u8
    }
}

proof fn lemma_shift_right_mask(s: i16, k: usize)
    requires
        0 <= s,
        k < 8,
    ensures
        ((s >> k) & 0x0F) as int == (s as int / seg_scale(k as int)) % 16,
        0 <= (s >> k) & 0x0F < 16,
{
    reveal_with_fuel(seg_scale, 8);
    assert(0 <= s && k < 8 ==> (s >> k) == s / (1i16 << k)) by (bit_vector);
    assert(0 <= s && k < 8 ==> ((s >> k) & 0x0F) == (s >> k) % 16) by (bit_vector);
    assert(k < 8 ==> (1i16 << k) == if k == 0usize { 1i16 } else if k == 1usize { 2i16 } else if k
        == 2usize { 4i16 } else if k == 3usize { 8i16 } else if k == 4usize { 16i16 } else if k
        == 5usize { 32i16 } else if k == 6usize { 64i16 } else { 128i16 }) by (bit_vector);
}

/// Compresses each 16-bit sample into one A-law byte.
pub fn linear_to_alaw(samples: Vec<i16>) -> (out: Vec<u8>)
    requires
        forall|i: int| 0 <= i < samples.len() ==> samples[i] != i16::MIN,
    ensures
        out.len() == samples.len(),
        forall|i: int| 0 <= i < samples.len() ==> out[i] == alaw_encode(#[trigger] samples[i]),
{
    let mut out: Vec<u8> = Vec::with_capacity(samples.len());
    let mut i: usize = 0;
    while i < samples.len()
        invariant
            i <= samples.len(),
            out.len() == i,
            forall|j: int| 0 <= j < samples.len() ==> samples[j] != i16::MIN,
            forall|j: int| 0 <= j < i ==> out[j] == alaw_encode(#[trigger] samples[j]),
        decreases samples.len() - i,
    {
        let mut s: i16 = samples[i];
        let mask: u8;
        if s >= 0 {
            mask = 0xD5;
        } else {
            mask = 0x55;
            s = -s - 1;
        }
        let mut seg: usize = 0;
        let val: i32 = s as i32;
        while seg < 8 && val > SEG_TABLE[seg]
            invariant
                seg <= 8,
                0 <= val <= 0x7FFF,
                forall|k: int| 0 <= k < seg ==> val > #[trigger] SEG_TABLE@[k],
            decreases 8 - seg,
        {
            seg += 1;
        }
        proof {
            reveal_with_fuel(seg_scale, 9);
            assert(seg == alaw_segment(val as int)) by {
                assert(SEG_TABLE@[0] == 0x1F);
                assert(SEG_TABLE@[1] == 0x3F);
                assert(SEG_TABLE@[2] == 0x7F);
                assert(SEG_TABLE@[3] == 0xFF);
                assert(SEG_TABLE@[4] == 0x1FF);
                assert(SEG_TABLE@[5] == 0x3FF);
                assert(SEG_TABLE@[6] == 0x7FF);
                assert(SEG_TABLE@[7] == 0xFFF);
            }
        }
        let aval: u8 = if seg >= 8 {
            0x7F
        } else {
            assert(seg < 8 ==> (seg << 4) == seg * 16) by (bit_vector);
            let a: u8 = (seg << 4) as u8;
            let q: u8 = if seg < 2 {
                proof {
                    lemma_shift_right_mask(s, 1);
                }
                ((s >> 1) & 0x0F) as u8
            } else {
                proof {
                    lemma_shift_right_mask(s, seg);
                }
                ((s >> seg) & 0x0F) as u8
            };
            assert(a % 16 == 0 && q < 16 ==> a | q == a + q) by (bit_vector);
            a | q
        };
        out.push(aval ^ mask);
        i += 1;
    }
    out
}

/// Expands each A-law code byte back into a 16-bit sample.
pub fn alaw_to_linear(samples: Vec<u8>) -> (out: Vec<i16>)
    ensures
        out.len() == samples.len(),
        forall|i: int| 0 <= i < samples.len() ==> out[i] as int == alaw_decode(#[trigger] samples[i]),
{
    let mut out: Vec<i16> = Vec::with_capacity(samples.len());
    let mut i: usize = 0;
    while i < samples.len()
        invariant
            i <= samples.len(),
            out.len() == i,
            forall|j: int| 0 <= j < i ==> out[j] as int == alaw_decode(#[trigger] samples[j]),
        decreases samples.len() - i,
    {
        let s: u8 = samples[i] ^ 0x55;
        proof {
            lemma_decode_bits(s);
            reveal_with_fuel(seg_scale, 7);
        }
        let mut t: i32 = ((s & 0xf) as i32) << 4;
        let seg: i32 = ((s & 0x70) >> 4) as i32;
        assert(t == (s % 16) * 16) by {
            let q: i32 = (s & 0xf) as i32;
            assert(0 <= q < 16 ==> q << 4 == q * 16) by (bit_vector);
        }
        match seg {
            0 => {
                t += 8;
            },
            1 => {
                t += 0x108;
            },
            _ => {
                t += 0x108;
                proof {
                    lemma_shift_left_scale(t, (seg - 1) as u32);
                }
                t <<= (seg - 1) as u32;
            },
        }
        let result: i32 = if (s & 0x80) != 0 {
            t
        } else {
            -t
        };
        out.push(result as i16);
        i += 1;
    }
    out
}

} // verus!
verus! {

proof fn lemma_code_range(m: int)
    requires
        0 <= m <= 0x7FFF,
    ensures
        0 <= alaw_code(m) < 128,
        alaw_segment(m) < 8 ==> alaw_code(m) / 16 == alaw_segment(m),
        alaw_segment(m) < 8 ==> alaw_code(m) % 16 == if alaw_segment(m) < 2 {
            (m / 2) % 16
        } else {
            (m / seg_scale(alaw_segment(m))) % 16
        },
{
    reveal_with_fuel(seg_scale, 9);
}

proof fn lemma_mask_bits(c: u8)
    requires
        c < 128,
    ensures
        (c ^ 0xD5u8) ^ 0xD5u8 == c,
        (c ^ 0xD5u8) ^ 0x55u8 == c + 128,
        (c ^ 0x55u8) ^ 0x55u8 == c,
        (c ^ 0xD5u8) == (c ^ 0x55u8) ^ 0x80u8,
{
    assert((c ^ 0xD5u8) ^ 0xD5u8 == c) by (bit_vector);
    assert(c < 128 ==> (c ^ 0xD5u8) ^ 0x55u8 == c + 128) by (bit_vector);
    assert((c ^ 0x55u8) ^ 0x55u8 == c) by (bit_vector);
    assert((c ^ 0xD5u8) == (c ^ 0x55u8) ^ 0x80u8) by (bit_vector);
}

/// A negative sample and its mirror image `-s - 1` differ only in the sign
/// bit of their A-law bytes.
pub proof fn lemma_encode_sign_symmetry(s: i16)
    requires
        0 <= s,
    ensures
        alaw_encode((-s - 1) as i16) == alaw_encode(s) ^ 0x80u8,
{
    lemma_code_range(s as int);
    let c = alaw_code(s as int) as u8;
    lemma_mask_bits(c);
    assert(c ^ 0xD5u8 ^ 0x80u8 == c ^ 0x55u8) by (bit_vector);
}

/// Flipping the sign bit of an A-law byte negates the sample it stands for.
pub proof fn lemma_decode_sign_symmetry(code: u8)
    ensures
        alaw_decode(code ^ 0x80u8) == -alaw_decode(code),
{
    let t = code ^ 0x55u8;
    let t2 = (code ^ 0x80u8) ^ 0x55u8;
    assert(t2 == t ^ 0x80u8) by (bit_vector)
        requires
            t == code ^ 0x55u8,
            t2 == (code ^ 0x80u8) ^ 0x55u8,
    ;
    assert(t2 % 16 == t % 16 && t2 / 16 % 8 == t / 16 % 8 && (t2 >= 128) == !(t >= 128))
        by (bit_vector)
        requires
            t2 == t ^ 0x80u8,
    ;
}

/// Width of one quantization step (in the 13-bit scale) of the segment holding
/// magnitude `m`.
pub open spec fn step_width(m: int) -> int {
    if alaw_segment(m) < 2 {
        2
    } else {
        seg_scale(alaw_segment(m))
    }
}

proof fn lemma_quotient_range(m: int, w: int, lo: int, hi: int)
    requires
        w > 0,
        0 <= m,
        lo * w <= m < hi * w,
    ensures
        lo <= m / w < hi,
        m == w * (m / w) + m % w,
        0 <= m % w < w,
{
    vstd::arithmetic::div_mod::lemma_fundamental_div_mod(m, w);
    vstd::arithmetic::div_mod::lemma_mod_pos_bound(m, w);
    let q = m / w;
    let r = m % w;
    assert(lo <= q < hi) by (nonlinear_arith)
        requires
            m == w * q + r,
            0 <= r < w,
            lo * w <= m < hi * w,
            w > 0,
    ;
}

/// Within its segment a magnitude `m` below 0x1000 has quotient `m / w` by its
/// step width `w`, and its code is the segment number followed by that
/// quotient's low four bits.
proof fn lemma_segment_quotient(m: int)
    requires
        0 <= m <= 0xFFF,
    ensures
        alaw_segment(m) < 8,
        step_width(m) >= 2,
        alaw_segment(m) == 0 ==> 0 <= m / 2 < 16 && alaw_code(m) == m / 2,
        alaw_segment(m) >= 1 ==> 16 <= m / step_width(m) < 32 && alaw_code(m) == alaw_segment(m)
            * 16 + m / step_width(m) - 16,
        alaw_segment(m) >= 1 ==> seg_scale(alaw_segment(m) - 1) * 2 == step_width(m),
        m == step_width(m) * (m / step_width(m)) + m % step_width(m),
        0 <= m % step_width(m) < step_width(m),
{
    reveal_with_fuel(seg_scale, 9);
    let k = alaw_segment(m);
    let w = step_width(m);
    if k == 0 {
        lemma_quotient_range(m, w, 0, 16);
    } else {
        lemma_quotient_range(m, w, 16, 32);
    }
}

proof fn lemma_code_monotone(m1: int, m2: int)
    requires
        0 <= m1 <= m2 <= 0x7FFF,
    ensures
        alaw_code(m1) <= alaw_code(m2),
{
    lemma_code_range(m1);
    lemma_code_range(m2);
    if m2 > 0xFFF {
    } else {
        lemma_segment_quotient(m1);
        lemma_segment_quotient(m2);
        let k1 = alaw_segment(m1);
        let k2 = alaw_segment(m2);
        if k1 == k2 {
            vstd::arithmetic::div_mod::lemma_div_is_ordered(m1, m2, step_width(m1));
        }
    }
}

/// For non-negative samples the code of the A-law byte (the byte with the
/// positive mask removed) never decreases as the sample grows.
pub proof fn lemma_encode_monotone(a: i16, b: i16)
    requires
        0 <= a <= b,
    ensures
        alaw_encode(a) ^ 0xD5u8 <= alaw_encode(b) ^ 0xD5u8,
{
    lemma_code_range(a as int);
    lemma_code_range(b as int);
    lemma_mask_bits(alaw_code(a as int) as u8);
    lemma_mask_bits(alaw_code(b as int) as u8);
    lemma_code_monotone(a as int, b as int);
}

/// Decoding the byte of a sample `s` in `0..=0xFFF` gives `8 * s` up to half a
/// quantization step `4 * w` (`w` the step width of the segment of `s`):
/// decoded values use the 16-bit scale while the segments cover 13-bit magnitudes.
pub proof fn lemma_round_trip_error(s: i16)
    requires
        0 <= s <= 0xFFF,
    ensures
        8 * s - 4 * step_width(s as int) + 8 <= alaw_decode(alaw_encode(s)),
        alaw_decode(alaw_encode(s)) <= 8 * s + 4 * step_width(s as int),
{
    reveal_with_fuel(seg_scale, 9);
    let m = s as int;
    lemma_code_range(m);
    lemma_segment_quotient(m);
    let c = alaw_code(m) as u8;
    lemma_mask_bits(c);
    let t = (c ^ 0xD5u8) ^ 0x55u8;
    assert(t == c + 128);
    let k = alaw_segment(m);
    let w = step_width(m);
    let q = m / w;
    let r = m % w;
    let d = alaw_decode(alaw_encode(s));
    if k == 0 {
        assert(d == q * 16 + 8);
        assert(8 * m - 4 * w + 8 <= d <= 8 * m + 4 * w) by (nonlinear_arith)
            requires
                d == q * 16 + 8,
                w == 2,
                m == w * q + r,
                0 <= r < w,
        ;
    } else {
        let h = seg_scale(k - 1);
        assert(t % 16 == q - 16);
        assert(t / 16 % 8 == k);
        assert(d == ((q - 16) * 16 + 0x108) * h);
        assert(8 * m - 4 * w + 8 <= d <= 8 * m + 4 * w) by (nonlinear_arith)
            requires
                d == ((q - 16) * 16 + 0x108) * h,
                w == 2 * h,
                m == w * q + r,
                0 <= r < w,
        ;
    }
}

/// Samples beyond the last segment saturate: their bytes decode to 32256.
pub proof fn lemma_saturation(s: i16)
    requires
        s > 0xFFF,
    ensures
        alaw_encode(s) == 0xAAu8,
        alaw_decode(alaw_encode(s)) == 32256,
{
    reveal_with_fuel(seg_scale, 9);
    assert(0x7Fu8 ^ 0xD5u8 == 0xAAu8) by (bit_vector);
    assert(0xAAu8 ^ 0x55u8 == 0xFFu8) by (bit_vector);
    assert(alaw_code(s as int) == 0x7F);
    assert(seg_scale(6) == 64);
    assert((0xFFu8 % 16) as int == 15);
    assert((0xFFu8 / 16 % 8) as int == 7);
    assert(alaw_magnitude(0xFFu8) == (15 * 16 + 0x108) * seg_scale(6));
}

} // verus!

verus! {

proof fn lemma_exact_quotient(x: int, w: int, qv: int)
    requires
        w > 0,
        w * qv <= x < w * (qv + 1),
    ensures
        x / w == qv,
{
    let r = x - w * qv;
    assert(x == qv * w + r) by (nonlinear_arith)
        requires
            r == x - w * qv,
    ;
    assert(0 <= r < w) by (nonlinear_arith)
        requires
            r == x - w * qv,
            w * qv <= x < w * (qv + 1),
    ;
    vstd::arithmetic::div_mod::lemma_fundamental_div_mod_converse(x, w, qv, r);
}

proof fn lemma_scale_monotone(a: int, b: int)
    requires
        0 <= a <= b,
    ensures
        1 <= seg_scale(a) <= seg_scale(b),
    decreases b,
{
    if a < b {
        lemma_scale_monotone(a, b - 1);
    } else if a > 0 {
        lemma_scale_monotone(a - 1, a - 1);
    }
}

/// Magnitude of a decoded step, divided by 8: the value on the 13-bit scale
/// that step `q` of segment `k` decodes to.
pub open spec fn step_value(k: int, q: int) -> int {
    if k == 0 {
        2 * q + 1
    } else {
        (2 * q + 33) * seg_scale(k - 1)
    }
}

proof fn lemma_segment_of(m: int, k: int)
    requires
        1 <= k < 8,
        16 * seg_scale(k) <= m < 32 * seg_scale(k),
    ensures
        alaw_segment(m) == k,
{
    reveal_with_fuel(seg_scale, 9);
    if k == 1 {
    } else if k == 2 {
    } else if k == 3 {
    } else if k == 4 {
    } else if k == 5 {
    } else if k == 6 {
    } else {
    }
}

/// The 13-bit value of a step, and that value minus one, both have as code the
/// segment and step they came from.
proof fn lemma_step_code(k: int, q: int)
    requires
        0 <= k < 8,
        0 <= q < 16,
    ensures
        alaw_code(step_value(k, q)) == 16 * k + q,
        alaw_code(step_value(k, q) - 1) == 16 * k + q,
{
    reveal_with_fuel(seg_scale, 9);
    let m = step_value(k, q);
    if k == 0 {
        lemma_exact_quotient(m, 2, q);
        lemma_exact_quotient(m - 1, 2, q);
    } else {
        let h = seg_scale(k - 1);
        let w = 2 * h;
        assert(w == seg_scale(k));
        assert(m == (2 * q + 33) * h);
        assert(w * (q + 16) <= m < w * (q + 17)) by (nonlinear_arith)
            requires
                m == (2 * q + 33) * h,
                w == 2 * h,
                h >= 1,
        ;
        assert(w * (q + 16) <= m - 1 < w * (q + 17)) by (nonlinear_arith)
            requires
                m == (2 * q + 33) * h,
                w == 2 * h,
                h >= 1,
        ;
        lemma_exact_quotient(m, w, q + 16);
        lemma_exact_quotient(m - 1, w, q + 16);
        assert(16 * w <= m - 1 && m < 32 * w) by (nonlinear_arith)
            requires
                w * (q + 16) <= m - 1,
                m < w * (q + 17),
                0 <= q < 16,
                w >= 2,
        ;
        lemma_segment_of(m, k);
        lemma_segment_of(m - 1, k);
    }
}

/// Decoding a byte, bringing the value back to the 13-bit scale (an arithmetic
/// shift right by 3), and encoding again gives back the byte, for every byte.
pub proof fn lemma_reencode_decoded(code: u8)
    ensures
        alaw_encode((alaw_decode(code) / 8) as i16) == code,
{
    reveal_with_fuel(seg_scale, 9);
    let t = code ^ 0x55u8;
    let q = (t % 16) as int;
    let k = (t / 16 % 8) as int;
    let m = step_value(k, q);
    lemma_step_code(k, q);
    if k > 0 {
        let h = seg_scale(k - 1);
        assert((q * 16 + 0x108) * h == 8 * ((2 * q + 33) * h)) by (nonlinear_arith);
    }
    assert(alaw_magnitude(t) == 8 * m);
    assert(1 <= m <= 4032) by {
        lemma_scale_monotone(0, k);
        lemma_scale_monotone(k, 7);
        if k > 0 {
            lemma_scale_monotone(k - 1, 6);
            assert((2 * q + 33) * seg_scale(k - 1) <= 63 * 64) by (nonlinear_arith)
                requires
                    0 <= q < 16,
                    1 <= seg_scale(k - 1) <= 64,
            ;
            assert((2 * q + 33) * seg_scale(k - 1) >= 1) by (nonlinear_arith)
                requires
                    0 <= q < 16,
                    1 <= seg_scale(k - 1),
            ;
        }
    }
    let c = (16 * k + q) as u8;
    if t >= 128 {
        assert(alaw_decode(code) / 8 == m);
        assert(t as int == 128 + 16 * k + q);
        assert((c ^ 0xD5u8) == code) by (bit_vector)
            requires
                t == code ^ 0x55u8,
                t as int == 128 + c as int,
        ;
    } else {
        assert(alaw_decode(code) / 8 == -m);
        assert(t as int == 16 * k + q);
        assert((c ^ 0x55u8) == code) by (bit_vector)
            requires
                t == code ^ 0x55u8,
                t == c,
        ;
    }
}

/// Position of a code byte in the order of the values it stands for: the
/// negative codes from the most negative up, then the positive ones.
pub open spec fn alaw_order(code: u8) -> int {
    let t = code ^ 0x55u8;
    if t >= 128 {
        t - 128
    } else {
        -1 - t
    }
}

/// Smallest magnitude of segment `k`.
spec fn seg_low(k: int) -> int {
    if k == 0 {
        8
    } else {
        264 * seg_scale(k - 1)
    }
}

/// Largest magnitude of segment `k`.
spec fn seg_high(k: int) -> int {
    if k == 0 {
        248
    } else {
        504 * seg_scale(k - 1)
    }
}

proof fn lemma_magnitude_shape(t: u8)
    ensures
        seg_low((t / 16 % 8) as int) <= alaw_magnitude(t) <= seg_high((t / 16 % 8) as int),
        seg_low((t / 16 % 8) as int) >= 8,
{
    let k = (t / 16 % 8) as int;
    let q = (t % 16) as int;
    if k > 0 {
        lemma_scale_monotone(0, k - 1);
        let h = seg_scale(k - 1);
        assert(264 * h <= (q * 16 + 0x108) * h <= 504 * h) by (nonlinear_arith)
            requires
                0 <= q < 16,
                h >= 1,
        ;
    }
}

proof fn lemma_segments_ordered(k1: int, k2: int)
    requires
        0 <= k1 < k2,
    ensures
        seg_high(k1) < seg_low(k2),
{
    lemma_scale_monotone(k1, k2 - 1);
    if k1 > 0 {
        assert(seg_scale(k1) == 2 * seg_scale(k1 - 1));
        lemma_scale_monotone(0, k1 - 1);
    }
}

proof fn lemma_step_order(q1: int, q2: int, h: int)
    requires
        0 <= q1 < q2,
        h >= 1,
    ensures
        (q1 * 16 + 0x108) * h < (q2 * 16 + 0x108) * h,
{
    assert((q1 * 16 + 0x108) * h < (q2 * 16 + 0x108) * h) by (nonlinear_arith)
        requires
            q1 < q2,
            h >= 1,
    ;
}

#[verifier::spinoff_prover]
proof fn lemma_magnitude_strict(t1: u8, t2: u8)
    requires
        t1 % 128 < t2 % 128,
    ensures
        alaw_magnitude(t1) < alaw_magnitude(t2),
{
    let k1 = (t1 / 16 % 8) as int;
    let k2 = (t2 / 16 % 8) as int;
    let q1 = (t1 % 16) as int;
    let q2 = (t2 % 16) as int;
    assert(t1 % 128 == 16 * k1 + q1);
    assert(t2 % 128 == 16 * k2 + q2);
    if k1 == k2 {
        if k1 > 0 {
            lemma_scale_monotone(0, k1 - 1);
            lemma_step_order(q1, q2, seg_scale(k1 - 1));
        }
    } else {
        lemma_magnitude_shape(t1);
        lemma_magnitude_shape(t2);
        lemma_segments_ordered(k1, k2);
    }
}

/// Decoding is strictly increasing in code order, so the 256 bytes stand for
/// 256 different values.
pub proof fn lemma_decode_strictly_increasing(a: u8, b: u8)
    requires
        alaw_order(a) < alaw_order(b),
    ensures
        alaw_decode(a) < alaw_decode(b),
{
    let ta = a ^ 0x55u8;
    let tb = b ^ 0x55u8;
    lemma_magnitude_shape(ta);
    lemma_magnitude_shape(tb);
    if ta >= 128 && tb >= 128 {
        lemma_magnitude_strict(ta, tb);
    } else if ta < 128 && tb < 128 {
        lemma_magnitude_strict(tb, ta);
    } else {
        if tb / 16 % 8 > 0 {
            lemma_scale_monotone(0, tb / 16 % 8 - 1);
        }
        if ta / 16 % 8 > 0 {
            lemma_scale_monotone(0, ta / 16 % 8 - 1);
        }
    }
}

/// Encoding keeps the order of samples: a larger sample never gets a code
/// byte that comes earlier in code order (`alaw_order`).
pub proof fn lemma_encode_monotone_in_code_order(a: i16, b: i16)
    requires
        a <= b,
        a != i16::MIN,
    ensures
        alaw_order(alaw_encode(a)) <= alaw_order(alaw_encode(b)),
{
    if a >= 0 {
        lemma_code_range(a as int);
        lemma_mask_bits(alaw_code(a as int) as u8);
    } else {
        lemma_code_range(-a - 1);
        lemma_mask_bits(alaw_code(-a - 1) as u8);
    }
    if b >= 0 {
        lemma_code_range(b as int);
        lemma_mask_bits(alaw_code(b as int) as u8);
    } else {
        lemma_code_range(-b - 1);
        lemma_mask_bits(alaw_code(-b - 1) as u8);
    }
    if a >= 0 {
        lemma_code_monotone(a as int, b as int);
    } else if b < 0 {
        lemma_code_monotone(-b - 1, -a - 1);
    }
}

} // verus!
