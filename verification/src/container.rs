//! The container encoder: a fixed 44-byte RIFF/WAVE header followed by
//! the samples quantised to 16-bit little-endian PCM.

use vstd::prelude::*;
use vstd::arithmetic::div_mod::*;
use vstd::arithmetic::power2::*;
use crate::binary32::{
    abs_word, clamp_unit, clamped, exponent, fraction, grain, is_nan, is_negative,
    lemma_bit_length_below, lemma_product_by_one, lemma_rounded_bound, lemma_rounded_exact,
    lemma_rounded_is_nearest, lemma_rounded_parts, lemma_rounded_scaling, lemma_unit_magnitude,
    magnitude, product, rounded, to_i16, truncated, ONE, PCM_SCALE,
};

verus! {

/// Length in bytes of the fixed header.
pub const HEADER_LEN: usize = 44;

/// The largest number of samples whose data size, plus the 36 header
/// bytes that the size field counts, still fits that 32-bit field.
pub const MAX_SAMPLES: usize = 2_147_483_629;

/// The largest sample rate whose byte rate fits its 32-bit field.
pub const MAX_SAMPLE_RATE: u32 = 1_073_741_823;

/// The four bytes of a 32-bit word, least significant first.
pub open spec fn le32(x: u32) -> Seq<u8> {
    seq![
        (x % 256) as u8,
        (x / 256 % 256) as u8,
        (x / 65536 % 256) as u8,
        (x / 16777216) as u8,
    ]
}

/// The two bytes of an unsigned 16-bit number, least significant first.
pub open spec fn le16(x: u16) -> Seq<u8> {
    seq![(x % 256) as u8, (x / 256) as u8]
}

/// The two bytes of a signed 16-bit number in two's complement, least
/// significant first.
pub open spec fn le16_signed(x: int) -> Seq<u8> {
    if x < 0 {
        le16((x + 65536) as u16)
    } else {
        le16(x as u16)
    }
}

/// The 32-bit number that four little-endian bytes at `at` spell.
pub open spec fn read_le32(bytes: Seq<u8>, at: int) -> int {
    bytes[at] + 256 * bytes[at + 1] + 65536 * bytes[at + 2] + 16777216 * bytes[at + 3]
}

/// The 16-bit number that two little-endian bytes at `at` spell.
pub open spec fn read_le16(bytes: Seq<u8>, at: int) -> int {
    bytes[at] + 256 * bytes[at + 1]
}

/// The 16-bit sample that a binary32 word is quantised to: the value
/// clamped to the interval from -1.0 to 1.0, multiplied by 32767 and cut
/// off toward zero.
pub open spec fn quantized(sample: u32) -> int {
    truncated(product(clamped(sample), PCM_SCALE))
}

/// The header for `data_len` bytes of two-channel 16-bit PCM at
/// `sample_rate` frames per second.
pub open spec fn header(data_len: u32, sample_rate: u32) -> Seq<u8> {
    seq![0x52u8, 0x49, 0x46, 0x46] + le32((36 + data_len) as u32) + seq![
        0x57u8,
        0x41,
        0x56,
        0x45,
    ] + seq![0x66u8, 0x6d, 0x74, 0x20] + le32(16) + le16(1) + le16(2) + le32(sample_rate)
        + le32((sample_rate * 4) as u32) + le16(4) + le16(16) + seq![0x64u8, 0x61, 0x74, 0x61]
        + le32(data_len)
}

/// The data section: two bytes for each sample, in order.
pub open spec fn pcm_body(samples: Seq<u32>) -> Seq<u8> {
    Seq::new(2 * samples.len(), |j: int| le16_signed(quantized(samples[j / 2]))[j % 2])
}

/// The whole container for `samples` at `sample_rate`.
pub open spec fn container(samples: Seq<u32>, sample_rate: u32) -> Seq<u8> {
    header((2 * samples.len()) as u32, sample_rate) + pcm_body(samples)
}

/// Quantises one binary32 sample to 16 bits.
pub fn quantize(sample: u32) -> (pcm: i16)
    ensures
        pcm == quantized(sample),
{
    to_i16(crate::binary32::mul(clamp_unit(sample), PCM_SCALE))
}

/// Appends the little-endian bytes of `x`.
pub(crate) fn put_le32(out: &mut Vec<u8>, x: u32)
    ensures
        final(out)@ == old(out)@ + le32(x),
{
    out.push((x % 256) as u8);
    out.push((x / 256 % 256) as u8);
    out.push((x / 65536 % 256) as u8);
    out.push((x / 16777216) as u8);
    assert(out@ =~= old(out)@ + le32(x));
}

/// Appends the little-endian bytes of `x`.
fn put_le16(out: &mut Vec<u8>, x: u16)
    ensures
        final(out)@ == old(out)@ + le16(x),
{
    out.push((x % 256) as u8);
    out.push((x / 256) as u8);
    assert(out@ =~= old(out)@ + le16(x));
}

/// Appends a four-byte tag.
fn put_tag(out: &mut Vec<u8>, a: u8, b: u8, c: u8, d: u8)
    ensures
        final(out)@ == old(out)@ + seq![a, b, c, d],
{
    out.push(a);
    out.push(b);
    out.push(c);
    out.push(d);
    assert(out@ =~= old(out)@ + seq![a, b, c, d]);
}

/// Appends one sample as signed 16-bit little-endian.
fn put_sample(out: &mut Vec<u8>, pcm: i16)
    ensures
        final(out)@ == old(out)@ + le16_signed(pcm as int),
{
    let wide: i32 = pcm as i32;
    let unsigned: i32 = if wide < 0 {
        wide + 65536
    } else {
        wide
    };
    out.push((unsigned % 256) as u8);
    out.push((unsigned / 256) as u8);
    assert(out@ =~= old(out)@ + le16_signed(pcm as int));
}

/// Serialises `samples` as a RIFF/WAVE container of two-channel 16-bit
/// PCM at `sample_rate`.
///
/// The two preconditions are the limits of the format's 32-bit fields.
pub fn create_wav_container(samples: &Vec<u32>, sample_rate: u32) -> (wav: Vec<u8>)
    requires
        samples.len() <= MAX_SAMPLES,
        sample_rate <= MAX_SAMPLE_RATE,
    ensures
        wav@ == container(samples@, sample_rate),
        wav.len() == 44 + 2 * samples.len(),
{
    let mut wav: Vec<u8> = Vec::new();
    let data_size: u32 = (samples.len() * 2) as u32;
    put_tag(&mut wav, 0x52, 0x49, 0x46, 0x46);
    put_le32(&mut wav, 36 + data_size);
    put_tag(&mut wav, 0x57, 0x41, 0x56, 0x45);
    put_tag(&mut wav, 0x66, 0x6d, 0x74, 0x20);
    put_le32(&mut wav, 16);
    put_le16(&mut wav, 1);
    put_le16(&mut wav, 2);
    put_le32(&mut wav, sample_rate);
    put_le32(&mut wav, sample_rate * 4);
    put_le16(&mut wav, 4);
    put_le16(&mut wav, 16);
    put_tag(&mut wav, 0x64, 0x61, 0x74, 0x61);
    put_le32(&mut wav, data_size);
    let ghost head = header(data_size, sample_rate);
    assert(wav@ == head);
    assert(head.len() == 44);
    let mut i: usize = 0;
    while i < samples.len()
        invariant
            i <= samples.len(),
            wav@.len() == 44 + 2 * i,
            head.len() == 44,
            wav@.subrange(0, 44) == head,
            forall|j: int| 0 <= j < 2 * i ==> wav@[44 + j] == pcm_body(samples@)[j],
        decreases samples.len() - i,
    {
        let ghost before = wav@;
        put_sample(&mut wav, quantize(samples[i]));
        proof {
            assert(wav@.subrange(0, 44) =~= before.subrange(0, 44));
            assert forall|j: int| 0 <= j < 2 * (i + 1) implies wav@[44 + j] == pcm_body(
                samples@,
            )[j] by {
                if j < 2 * i {
                    assert(wav@[44 + j] == before[44 + j]);
                } else {
                    assert(j / 2 == i as int);
                    assert(wav@[44 + j] == le16_signed(quantized(samples@[i as int]))[j - 2 * i]);
                }
            }
        }
        i = i + 1;
    }
    assert(wav@ =~= container(samples@, sample_rate));
    wav
}

/// The header written out byte by byte.
proof fn lemma_header_bytes(data_len: u32, sample_rate: u32)
    ensures
        header(data_len, sample_rate) =~= seq![
            0x52u8,
            0x49,
            0x46,
            0x46,
            le32((36 + data_len) as u32)[0],
            le32((36 + data_len) as u32)[1],
            le32((36 + data_len) as u32)[2],
            le32((36 + data_len) as u32)[3],
            0x57,
            0x41,
            0x56,
            0x45,
            0x66,
            0x6d,
            0x74,
            0x20,
            16,
            0,
            0,
            0,
            1,
            0,
            2,
            0,
            le32(sample_rate)[0],
            le32(sample_rate)[1],
            le32(sample_rate)[2],
            le32(sample_rate)[3],
            le32((sample_rate * 4) as u32)[0],
            le32((sample_rate * 4) as u32)[1],
            le32((sample_rate * 4) as u32)[2],
            le32((sample_rate * 4) as u32)[3],
            4,
            0,
            16,
            0,
            0x64,
            0x61,
            0x74,
            0x61,
            le32(data_len)[0],
            le32(data_len)[1],
            le32(data_len)[2],
            le32(data_len)[3],
        ],
{
}

/// Four little-endian bytes spell the number they were made from.
proof fn lemma_le32_reads_back(x: u32)
    ensures
        le32(x)[0] + 256 * le32(x)[1] + 65536 * le32(x)[2] + 16777216 * le32(x)[3] == x,
{
}

/// The fields of the header: the size field counts everything after
/// itself, the format is PCM with two channels of sixteen bits, the byte
/// rate is four bytes for each frame, and the data size is two bytes for
/// each sample.
pub proof fn lemma_header_fields(samples: Seq<u32>, sample_rate: u32)
    requires
        samples.len() <= MAX_SAMPLES,
        sample_rate <= MAX_SAMPLE_RATE,
    ensures
        container(samples, sample_rate).len() == 44 + 2 * samples.len(),
        container(samples, sample_rate).subrange(0, 4) == seq![0x52u8, 0x49, 0x46, 0x46],
        read_le32(container(samples, sample_rate), 4) == 36 + 2 * samples.len(),
        container(samples, sample_rate).subrange(8, 16) == seq![
            0x57u8,
            0x41,
            0x56,
            0x45,
            0x66,
            0x6d,
            0x74,
            0x20,
        ],
        read_le32(container(samples, sample_rate), 16) == 16,
        read_le16(container(samples, sample_rate), 20) == 1,
        read_le16(container(samples, sample_rate), 22) == 2,
        read_le32(container(samples, sample_rate), 24) == sample_rate,
        read_le32(container(samples, sample_rate), 28) == 4 * sample_rate,
        read_le16(container(samples, sample_rate), 32) == 4,
        read_le16(container(samples, sample_rate), 34) == 16,
        container(samples, sample_rate).subrange(36, 40) == seq![0x64u8, 0x61, 0x74, 0x61],
        read_le32(container(samples, sample_rate), 40) == 2 * samples.len(),
        container(samples, sample_rate).subrange(44, 44 + 2 * samples.len() as int) == pcm_body(
            samples,
        ),
{
    let data_len = (2 * samples.len()) as u32;
    let wav = container(samples, sample_rate);
    let head = header(data_len, sample_rate);
    lemma_header_bytes(data_len, sample_rate);
    lemma_le32_reads_back((36 + data_len) as u32);
    lemma_le32_reads_back(sample_rate);
    lemma_le32_reads_back((sample_rate * 4) as u32);
    lemma_le32_reads_back(data_len);
    assert(head.len() == 44);
    assert forall|j: int| 0 <= j < 44 implies wav[j] == head[j] by {}
    assert(wav.subrange(0, 4) =~= seq![0x52u8, 0x49, 0x46, 0x46]);
    assert(wav.subrange(8, 16) =~= seq![0x57u8, 0x41, 0x56, 0x45, 0x66, 0x6d, 0x74, 0x20]);
    assert(wav.subrange(36, 40) =~= seq![0x64u8, 0x61, 0x74, 0x61]);
    assert(wav.subrange(44, 44 + 2 * samples.len() as int) =~= pcm_body(samples));
}

/// The scale is 32767 whole units, and it is what conversion to an
/// integer gives back.
proof fn lemma_pcm_scale()
    ensures
        magnitude(PCM_SCALE) == 32767 * pow2(149),
        magnitude(0xc6ff_fe00) == 32767 * pow2(149),
        truncated(PCM_SCALE) == 32767,
        truncated(0xc6ff_fe00) == -32767,
{
    lemma2_to64();
    lemma_pow2_pos(149);
    assert(exponent(PCM_SCALE) == 141 && fraction(PCM_SCALE) == 0x7f_fe00);
    assert(exponent(0xc6ff_fe00) == 141 && fraction(0xc6ff_fe00) == 0x7f_fe00);
    lemma_pow2_adds(9, 140);
    assert(0xff_fe00 * pow2(140) == 32767 * pow2(149)) by (nonlinear_arith)
        requires
            pow2(149) == 512 * pow2(140),
    ;
    lemma_div_multiples_vanish(32767, pow2(149) as int);
}

/// Silence quantises to zero, 1.0 to the largest 16-bit sample and -1.0
/// to its negative.
pub proof fn lemma_quantized_levels()
    ensures
        quantized(0) == 0,
        quantized(ONE) == 32767,
        quantized(0xbf80_0000) == -32767,
{
    lemma2_to64();
    lemma_pow2_pos(149);
    lemma_pcm_scale();
    // silence
    assert(magnitude(0) == 0) by (nonlinear_arith)
        requires
            magnitude(0) == 0 * pow2(0),
    ;
    assert(magnitude(0) * magnitude(PCM_SCALE) == 0) by (nonlinear_arith)
        requires
            magnitude(0) == 0,
    ;
    assert(0 == 0 * (pow2(149) * pow2(0)) + 0);
    lemma_rounded_parts(0, pow2(149), 0, 0, 0);
    assert(product(0, PCM_SCALE) == 0);
    assert(0nat / pow2(149) == 0) by (nonlinear_arith)
        requires
            pow2(149) > 0,
    ;
    // 1.0
    lemma_product_by_one(PCM_SCALE);
    assert(clamped(ONE) == ONE);
    // -1.0
    let minus_one: u32 = 0xbf80_0000;
    assert(abs_word(minus_one) == 0x3f80_0000 && is_negative(minus_one));
    assert(clamped(minus_one) == minus_one);
    assert(exponent(minus_one) == 127 && fraction(minus_one) == 0);
    lemma_pow2_adds(23, 126);
    assert(magnitude(minus_one) == pow2(149));
    assert(pow2(149) * magnitude(PCM_SCALE) == magnitude(PCM_SCALE) * pow2(149))
        by (nonlinear_arith);
    assert(1 * pow2(149) == pow2(149));
    lemma_rounded_scaling(magnitude(PCM_SCALE), 1, pow2(149));
    lemma_rounded_exact(PCM_SCALE);
    assert(product(minus_one, PCM_SCALE) == 0xc6ff_fe00);
}

/// Every sample quantises into the symmetric 16-bit range: clamping
/// happens before scaling, so the scaled value never passes 32767 in
/// either direction.
pub proof fn lemma_quantized_range(sample: u32)
    ensures
        -32767 <= quantized(sample) <= 32767,
{
    lemma2_to64();
    let c = clamped(sample);
    if !is_nan(c) {
        let unit = pow2(149);
        lemma_pow2_pos(149);
        lemma_pcm_scale();
        lemma_unit_magnitude(c);
        let exact = magnitude(c) * magnitude(PCM_SCALE);
        let top = 32767 * unit;
        assert(exact <= top * unit) by (nonlinear_arith)
            requires
                exact == magnitude(c) * magnitude(PCM_SCALE),
                magnitude(PCM_SCALE) == top,
                magnitude(c) <= unit,
        ;
        // the exact value has at most 164 binary digits, so the spacing
        // around it is at most 2^140 units
        lemma_pow2_adds(15, 149);
        assert(exact < pow2(164) * unit) by (nonlinear_arith)
            requires
                exact <= top * unit,
                top == 32767 * unit,
                pow2(164) == 32768 * unit,
                unit > 0,
        ;
        lemma_quotient_below(exact, pow2(164), unit);
        lemma_bit_length_below(exact / unit, 164);
        let e = grain(exact / unit);
        assert(e <= 140);
        lemma_rounded_bound(exact, unit);
        let bits = rounded(exact, unit);
        assert(bits < 0x7f80_0000) by (nonlinear_arith)
            requires
                bits <= e * 0x80_0000 + 0x100_0000,
                e <= 140,
        ;
        lemma_rounded_is_nearest(exact, unit);
        let w = bits as u32;
        let p = product(c, PCM_SCALE);
        assert(abs_word(p) == bits);
        assert(magnitude(p) == magnitude(w));
        lemma_pow2_pos(e);
        if e < 140 {
            lemma_pow2_strictly_increases(e, 140);
        }
        lemma_pow2_adds(9, 140);
        assert(magnitude(w) < 32768 * unit) by (nonlinear_arith)
            requires
                2 * (magnitude(w) * unit - exact) <= unit * pow2(e),
                exact <= top * unit,
                top == 32767 * unit,
                pow2(e) <= pow2(140),
                unit == 512 * pow2(140),
                unit > 0,
        ;
        lemma_quotient_below(magnitude(w), 32768, unit);
    }
}

/// A quotient stays below `hi` when the dividend stays below `hi`
/// divisors.
proof fn lemma_quotient_below(s: nat, hi: nat, a: nat)
    by (nonlinear_arith)
    requires
        s < hi * a,
        a > 0,
    ensures
        s / a < hi,
{
}

/// A buffer of silence encodes to a data section of two zero bytes for
/// each sample.
pub proof fn lemma_silence_encodes_to_zeros(samples: Seq<u32>)
    requires
        forall|i: int| 0 <= i < samples.len() ==> samples[i] == 0,
    ensures
        pcm_body(samples).len() == 2 * samples.len(),
        forall|j: int| 0 <= j < 2 * samples.len() ==> pcm_body(samples)[j] == 0,
{
    lemma_quantized_levels();
    assert forall|j: int| 0 <= j < 2 * samples.len() implies pcm_body(samples)[j] == 0 by {
        assert(samples[j / 2] == 0);
        assert(le16_signed(0) =~= seq![0u8, 0u8]);
    }
}

} // verus!
