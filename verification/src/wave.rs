//! The audio side of extraction: the header of every mono 24-bit WAV file
//! written, the split of a take into read chunks, and the de-interleaving of
//! a chunk. A take stores, frame after frame, one 32-bit little-endian word
//! per channel; a channel's sample is the word's three high bytes.

use vstd::prelude::*;
use crate::words::word_at;

verus! {

/// `x` as two little-endian bytes.
pub open spec fn le16(x: int) -> Seq<u8> {
    seq![(x % 256) as u8, ((x / 256) % 256) as u8]
}

/// `x` as four little-endian bytes.
pub open spec fn le32(x: int) -> Seq<u8> {
    seq![
        (x % 256) as u8,
        ((x / 256) % 256) as u8,
        ((x / 65536) % 256) as u8,
        ((x / 16777216) % 256) as u8,
    ]
}

/// The 44-byte header of a mono 24-bit PCM WAV file holding `no_samples`
/// samples at `sample_rate`: "RIFF", the RIFF size, "WAVEfmt ", a format
/// chunk of 16 bytes (PCM, one channel, the sample rate, three bytes per
/// second per sample, block alignment 3, 24 bits), then "data" and the data
/// size, three bytes per sample.
pub open spec fn wave_header_bytes(no_samples: int, sample_rate: int) -> Seq<u8> {
    seq![82u8, 73u8, 70u8, 70u8] + le32(no_samples * 3 + 36) + seq![
        87u8,
        65u8,
        86u8,
        69u8,
        102u8,
        109u8,
        116u8,
        32u8,
    ] + le32(16) + le16(1) + le16(1) + le32(sample_rate) + le32(sample_rate * 3) + le16(3) + le16(24)
        + seq![100u8, 97u8, 116u8, 97u8] + le32(no_samples * 3)
}

fn push_le32(out: &mut Vec<u8>, x: u32)
    ensures
        final(out)@ == old(out)@ + le32(x as int),
{
    out.push((x % 256) as u8);
    out.push((x / 256 % 256) as u8);
    out.push((x / 65536 % 256) as u8);
    out.push((x / 16777216 % 256) as u8);
    proof {
        assert(final(out)@ =~= old(out)@ + le32(x as int));
    }
}

fn push_le16(out: &mut Vec<u8>, x: u16)
    ensures
        final(out)@ == old(out)@ + le16(x as int),
{
    out.push((x % 256) as u8);
    out.push((x / 256 % 256) as u8);
    proof {
        assert(final(out)@ =~= old(out)@ + le16(x as int));
    }
}

fn push_bytes4(out: &mut Vec<u8>, a: u8, b: u8, c: u8, d: u8)
    ensures
        final(out)@ == old(out)@ + seq![a, b, c, d],
{
    out.push(a);
    out.push(b);
    out.push(c);
    out.push(d);
    proof {
        assert(final(out)@ =~= old(out)@ + seq![a, b, c, d]);
    }
}

/// The header that every extracted channel file starts with.
pub fn wave_header(no_samples: u32, sample_rate: u32) -> (res: Vec<u8>)
    requires
        no_samples * 3 + 36 <= u32::MAX,
        sample_rate * 3 <= u32::MAX,
    ensures
        res@ == wave_header_bytes(no_samples as int, sample_rate as int),
        res@.len() == 44,
        res@.subrange(0, 4) == seq![82u8, 73u8, 70u8, 70u8],
        word_at(res@, 4) == no_samples * 3 + 36,
        res@.subrange(8, 16) == seq![87u8, 65u8, 86u8, 69u8, 102u8, 109u8, 116u8, 32u8],
        word_at(res@, 16) == 16,
        u16_at(res@, 20) == 1,
        u16_at(res@, 22) == 1,
        word_at(res@, 24) == sample_rate,
        word_at(res@, 28) == sample_rate * 3,
        u16_at(res@, 32) == 3,
        u16_at(res@, 34) == 24,
        res@.subrange(36, 40) == seq![100u8, 97u8, 116u8, 97u8],
        word_at(res@, 40) == no_samples * 3,
{
    let out = build_wave_header(no_samples, sample_rate);
    proof {
        lemma_wave_header_fields(no_samples, sample_rate);
        lemma_wave_header_format(no_samples as int, sample_rate as int);
    }
    out
}

fn build_wave_header(no_samples: u32, sample_rate: u32) -> (res: Vec<u8>)
    requires
        no_samples * 3 + 36 <= u32::MAX,
        sample_rate * 3 <= u32::MAX,
    ensures
        res@ == wave_header_bytes(no_samples as int, sample_rate as int),
{
    let bytes_datachunk: u32 = no_samples * 3;
    let mut out: Vec<u8> = Vec::new();
    push_bytes4(&mut out, 82, 73, 70, 70);
    push_le32(&mut out, bytes_datachunk + 36);
    push_bytes4(&mut out, 87, 65, 86, 69);
    push_bytes4(&mut out, 102, 109, 116, 32);
    push_le32(&mut out, 16);
    push_le16(&mut out, 1);
    push_le16(&mut out, 1);
    push_le32(&mut out, sample_rate);
    push_le32(&mut out, sample_rate * 3);
    push_le16(&mut out, 3);
    push_le16(&mut out, 24);
    push_bytes4(&mut out, 100, 97, 116, 97);
    push_le32(&mut out, bytes_datachunk);
    proof {
        assert(out@ =~= wave_header_bytes(no_samples as int, sample_rate as int));
    }
    out
}

/// The little-endian 16-bit number that starts at byte `pos` of `bytes`.
pub open spec fn u16_at(bytes: Seq<u8>, pos: int) -> int {
    bytes[pos] + 256 * bytes[pos + 1]
}

/// Every header, whatever the sample count and rate, says "RIFF", "WAVE",
/// "fmt " and "data" in their places and describes the same format: PCM
/// (format 1), one channel, block alignment 3 and 24 bits per sample.
pub proof fn lemma_wave_header_format(no_samples: int, sample_rate: int)
    ensures
        wave_header_bytes(no_samples, sample_rate).len() == 44,
        wave_header_bytes(no_samples, sample_rate).subrange(0, 4) == seq![82u8, 73u8, 70u8, 70u8],
        wave_header_bytes(no_samples, sample_rate).subrange(8, 16) == seq![
            87u8,
            65u8,
            86u8,
            69u8,
            102u8,
            109u8,
            116u8,
            32u8,
        ],
        u16_at(wave_header_bytes(no_samples, sample_rate), 20) == 1,
        u16_at(wave_header_bytes(no_samples, sample_rate), 22) == 1,
        u16_at(wave_header_bytes(no_samples, sample_rate), 32) == 3,
        u16_at(wave_header_bytes(no_samples, sample_rate), 34) == 24,
        wave_header_bytes(no_samples, sample_rate).subrange(36, 40) == seq![100u8, 97u8, 116u8, 97u8],
{
    let h = wave_header_bytes(no_samples, sample_rate);
    assert(h.subrange(0, 4) =~= seq![82u8, 73u8, 70u8, 70u8]);
    assert(h.subrange(8, 16) =~= seq![87u8, 65u8, 86u8, 69u8, 102u8, 109u8, 116u8, 32u8]);
    assert(h.subrange(20, 22) =~= le16(1));
    assert(h.subrange(22, 24) =~= le16(1));
    assert(h.subrange(32, 34) =~= le16(3));
    assert(h.subrange(34, 36) =~= le16(24));
    assert(h.subrange(36, 40) =~= seq![100u8, 97u8, 116u8, 97u8]);
    assert(u16_at(h, 20) == u16_at(h.subrange(20, 22), 0));
    assert(u16_at(h, 22) == u16_at(h.subrange(22, 24), 0));
    assert(u16_at(h, 32) == u16_at(h.subrange(32, 34), 0));
    assert(u16_at(h, 34) == u16_at(h.subrange(34, 36), 0));
}

/// Four little-endian bytes read back as a word give the number written.
pub proof fn lemma_le32_word(x: u32)
    ensures
        word_at(le32(x as int), 0) == x,
{
    assert(x % 256 + 256 * ((x / 256) % 256) + 65536 * ((x / 65536) % 256) + 16777216 * ((x / 16777216)
        % 256) == x) by (bit_vector);
}

/// The header fields read back with the little-endian word reader of the
/// session log give the values written: the RIFF size, the format chunk
/// size, the sample rate, the byte rate and the data size.
#[verifier::spinoff_prover]
#[verifier::rlimit(50)]
pub proof fn lemma_wave_header_fields(no_samples: u32, sample_rate: u32)
    requires
        no_samples * 3 + 36 <= u32::MAX,
        sample_rate * 3 <= u32::MAX,
    ensures
        wave_header_bytes(no_samples as int, sample_rate as int).len() == 44,
        word_at(wave_header_bytes(no_samples as int, sample_rate as int), 4) == no_samples * 3 + 36,
        word_at(wave_header_bytes(no_samples as int, sample_rate as int), 16) == 16,
        word_at(wave_header_bytes(no_samples as int, sample_rate as int), 24) == sample_rate,
        word_at(wave_header_bytes(no_samples as int, sample_rate as int), 28) == sample_rate * 3,
        word_at(wave_header_bytes(no_samples as int, sample_rate as int), 40) == no_samples * 3,
{
    let h = wave_header_bytes(no_samples as int, sample_rate as int);
    let riff: u32 = (no_samples * 3 + 36) as u32;
    let data: u32 = (no_samples * 3) as u32;
    let rate3: u32 = (sample_rate * 3) as u32;
    lemma_le32_word(riff);
    lemma_le32_word(data);
    lemma_le32_word(rate3);
    lemma_le32_word(sample_rate);
    lemma_le32_word(16);
    assert(h.subrange(4, 8) =~= le32(riff as int));
    assert(h.subrange(16, 20) =~= le32(16));
    assert(h.subrange(24, 28) =~= le32(sample_rate as int));
    assert(h.subrange(28, 32) =~= le32(rate3 as int));
    assert(h.subrange(40, 44) =~= le32(data as int));
    assert(word_at(h, 4) == word_at(h.subrange(4, 8), 0));
    assert(word_at(h, 16) == word_at(h.subrange(16, 20), 0));
    assert(word_at(h, 24) == word_at(h.subrange(24, 28), 0));
    assert(word_at(h, 28) == word_at(h.subrange(28, 32), 0));
    assert(word_at(h, 40) == word_at(h.subrange(40, 44), 0));
}

/// How a take of `takesize` samples (four bytes each) is read in chunks of
/// `bufsize` bytes: the number of full chunks and the size of the rest, both
/// counted against `bufsize` cut down to `u32`.
pub fn chunk_layout(takesize: u32, bufsize: usize) -> (res: (u32, usize))
    requires
        takesize * 4 <= u32::MAX,
        bufsize as u32 != 0,
    ensures
        res.0 == (takesize * 4) as u32 / (bufsize as u32),
        res.1 == (takesize * 4) as u32 % (bufsize as u32),
{
    let chunk: u32 = bufsize as u32;
    let total: u32 = takesize * 4;
    (total / chunk, (total % chunk) as usize)
}

/// The bytes of the channel at byte offset `off` within each frame of
/// `step` bytes, from byte `k` of `buf` on: for each frame start
/// `k, k + step, ...` below the length, the three high bytes of the word.
pub open spec fn samples_from(buf: Seq<u8>, step: int, off: int, k: int) -> Seq<u8>
    decreases (if k < buf.len() { buf.len() - k } else { 0 }),
{
    if k >= buf.len() || step <= 0 {
        Seq::empty()
    } else {
        buf.subrange(k + off + 1, k + off + 4) + samples_from(buf, step, off, k + step)
    }
}

/// Every word of the channel at offset `off`, in each frame that starts at
/// or after `k` within a buffer of `len` bytes, lies inside the buffer.
pub open spec fn frames_fit(len: int, step: int, off: int, k: int) -> bool
    decreases (if k < len { len - k } else { 0 }),
{
    if k >= len || step <= 0 {
        true
    } else {
        k + off + 4 <= len && frames_fit(len, step, off, k + step)
    }
}

/// The 24-bit samples of channel `channel` (counted from 0) in a buffer of
/// frames of `no_channels` words.
pub open spec fn channel_samples(buf: Seq<u8>, no_channels: int, channel: int) -> Seq<u8> {
    samples_from(buf, 4 * no_channels, 4 * channel, 0)
}

#[verifier::spinoff_prover]
proof fn lemma_frames_fit_last(len: int, step: int, off: int, k: int)
    requires
        0 <= k,
        step > 0,
        0 <= off,
    ensures
        frames_fit(len, step, off, k) <==> (k >= len || k + (len - 1 - k) / step * step + off + 4 <= len),
    decreases (if k < len { len - k } else { 0 }),
{
    if k < len {
        if k + step < len {
            lemma_frames_fit_last(len, step, off, k + step);
        }
        let q: int = (len - 1 - k) / step;
        let q2: int = (len - 1 - k - step) / step;
        assert(len - 1 - k == step * q + (len - 1 - k) % step) by {
            vstd::arithmetic::div_mod::lemma_fundamental_div_mod(len - 1 - k, step);
        }
        assert(0 <= (len - 1 - k) % step < step) by {
            vstd::arithmetic::div_mod::lemma_mod_bound(len - 1 - k, step);
        }
        if k + step < len {
            assert(len - 1 - k - step == step * q2 + (len - 1 - k - step) % step) by {
                vstd::arithmetic::div_mod::lemma_fundamental_div_mod(len - 1 - k - step, step);
            }
            assert((len - 1 - k - step) % step == (len - 1 - k) % step) by {
                vstd::arithmetic::div_mod::lemma_mod_sub_multiples_vanish(len - 1 - k, step);
            }
            assert(q2 == q - 1) by (nonlinear_arith)
                requires
                    len - 1 - k == step * q + (len - 1 - k) % step,
                    len - 1 - k - step == step * q2 + (len - 1 - k - step) % step,
                    (len - 1 - k - step) % step == (len - 1 - k) % step,
                    step > 0,
            ;
            assert(k + step + q2 * step == k + q * step) by (nonlinear_arith)
                requires
                    q2 == q - 1,
            ;
            assert(q >= 1) by (nonlinear_arith)
                requires
                    q2 == q - 1,
                    len - 1 - k - step >= 0,
                    len - 1 - k - step == step * q2 + (len - 1 - k - step) % step,
                    (len - 1 - k - step) % step < step,
                    step > 0,
            ;
            assert(q * step >= step) by (nonlinear_arith)
                requires
                    q >= 1,
                    step > 0,
            ;
            assert(frames_fit(len, step, off, k) == (k + off + 4 <= len && frames_fit(len, step, off, k + step)));
            assert(frames_fit(len, step, off, k + step) == (k + q * step + off + 4 <= len));
        } else {
            assert(frames_fit(len, step, off, k + step));
            assert(q == 0) by (nonlinear_arith)
                requires
                    len - 1 - k == step * q + (len - 1 - k) % step,
                    0 <= (len - 1 - k) % step < step,
                    len - 1 - k < step,
                    len - 1 - k >= 0,
            ;
            assert(q * step == 0) by (nonlinear_arith)
                requires
                    q == 0,
            ;
            assert(frames_fit(len, step, off, k) == (k + off + 4 <= len));
        }
        assert((len - 1 - k) / step * step == q * step);
    }
}

proof fn lemma_samples_index(buf: Seq<u8>, step: int, off: int, k: int)
    requires
        step > 0,
        0 <= k,
        0 <= off,
        frames_fit(buf.len() as int, step, off, k),
    ensures
        forall|p: int|
            0 <= p < samples_from(buf, step, off, k).len() ==> #[trigger] samples_from(buf, step, off, k)[p]
                == buf[k + (p / 3) * step + off + 1 + p % 3],
        samples_from(buf, step, off, k).len() % 3 == 0,
        (samples_from(buf, step, off, k).len() / 3) * step >= buf.len() - k,
        samples_from(buf, step, off, k).len() == 0 || (samples_from(buf, step, off, k).len() / 3 - 1)
            * step < buf.len() - k,
    decreases (if k < buf.len() { buf.len() - k } else { 0 }),
{
    let sf = samples_from(buf, step, off, k);
    if k >= buf.len() {
        assert(sf.len() == 0);
    } else {
        let sub = buf.subrange(k + off + 1, k + off + 4);
        let rest = samples_from(buf, step, off, k + step);
        if k + step < buf.len() {
            lemma_samples_index(buf, step, off, k + step);
        } else {
            assert(rest.len() == 0);
        }
        assert(sf == sub + rest);
        let c2 = rest.len() / 3;
        assert(rest.len() == 3 * c2);
        assert(sf.len() / 3 == c2 + 1);
        assert((c2 + 1) * step == step + c2 * step) by (nonlinear_arith);
        if c2 > 0 {
            assert(c2 * step == step + (c2 - 1) * step) by (nonlinear_arith);
        } else {
            assert(c2 * step == 0) by (nonlinear_arith)
                requires
                    c2 == 0,
            ;
        }
        assert forall|p: int| 0 <= p < sf.len() implies #[trigger] sf[p] == buf[k + (p / 3) * step + off
            + 1 + p % 3] by {
            if p < 3 {
                assert(p / 3 == 0);
                assert(p % 3 == p);
                assert(0 * step == 0) by (nonlinear_arith);
                assert(sf[p] == sub[p]);
            } else {
                let q = p - 3;
                assert(sf[p] == rest[q]);
                assert(q / 3 == p / 3 - 1);
                assert(q % 3 == p % 3);
                assert(step + (p / 3 - 1) * step == (p / 3) * step) by (nonlinear_arith);
            }
        }
    }
}

/// Which bytes a channel gets: sample byte `p` of channel `channel` is byte
/// `p % 3 + 1` of the channel's word in frame `p / 3`, that is, the channel's
/// samples are the three high bytes of its word in each frame, in frame
/// order; and there is one sample for each frame that starts in the buffer.
pub proof fn lemma_channel_samples_layout(buf: Seq<u8>, no_channels: int, channel: int)
    requires
        1 <= no_channels,
        0 <= channel,
        frames_fit(buf.len() as int, 4 * no_channels, 4 * channel, 0),
    ensures
        forall|p: int|
            0 <= p < channel_samples(buf, no_channels, channel).len() ==> #[trigger] channel_samples(
                buf,
                no_channels,
                channel,
            )[p] == buf[(p / 3) * (4 * no_channels) + 4 * channel + 1 + p % 3],
        channel_samples(buf, no_channels, channel).len() % 3 == 0,
        (channel_samples(buf, no_channels, channel).len() / 3) * (4 * no_channels) >= buf.len(),
        channel_samples(buf, no_channels, channel).len() == 0 || (channel_samples(
            buf,
            no_channels,
            channel,
        ).len() / 3 - 1) * (4 * no_channels) < buf.len(),
{
    lemma_samples_index(buf, 4 * no_channels, 4 * channel, 0);
}

/// In a buffer of exactly one frame, a channel's samples are the three high
/// bytes of its word.
pub proof fn lemma_one_frame(buf: Seq<u8>, no_channels: int, channel: int)
    requires
        0 <= channel < no_channels,
        buf.len() == 4 * no_channels,
    ensures
        channel_samples(buf, no_channels, channel) == buf.subrange(4 * channel + 1, 4 * channel + 4),
{
    lemma_frames_fit_aligned(buf.len() as int, no_channels, channel);
    lemma_channel_samples_layout(buf, no_channels, channel);
    let cs = channel_samples(buf, no_channels, channel);
    let c = cs.len() / 3;
    assert(c == 1) by (nonlinear_arith)
        requires
            c * (4 * no_channels) >= 4 * no_channels,
            cs.len() == 0 || (c - 1) * (4 * no_channels) < 4 * no_channels,
            cs.len() % 3 == 0,
            c == cs.len() / 3,
            no_channels >= 1,
    ;
    assert forall|p: int| 0 <= p < 3 implies #[trigger] cs[p] == buf[4 * channel + 1 + p] by {
        assert(p / 3 == 0);
        assert(p % 3 == p);
        assert(0 * (4 * no_channels) == 0) by (nonlinear_arith);
    }
    assert(cs =~= buf.subrange(4 * channel + 1, 4 * channel + 4));
}

/// Tells whether every word of channel `channel` in a buffer of `buf_len`
/// bytes, made of frames of `no_channels` words, lies inside the buffer.
pub fn check_frames_fit(buf_len: usize, no_channels: u32, channel: u32) -> (res: bool)
    requires
        1 <= no_channels,
        no_channels * 4 <= u32::MAX,
    ensures
        res == frames_fit(buf_len as int, 4 * no_channels, 4 * channel, 0),
{
    if buf_len == 0 {
        return true;
    }
    let step: u64 = (no_channels as u64) * 4;
    let q: u64 = ((buf_len as u64) - 1) / step;
    proof {
        lemma_frames_fit_last(buf_len as int, step as int, 4 * channel, 0);
        vstd::arithmetic::div_mod::lemma_fundamental_div_mod(buf_len - 1, step as int);
        vstd::arithmetic::div_mod::lemma_mod_bound(buf_len - 1, step as int);
        assert(q * step <= buf_len - 1) by (nonlinear_arith)
            requires
                buf_len - 1 == step * q + (buf_len - 1) % (step as int),
                0 <= (buf_len - 1) % (step as int),
        ;
    }
    let last: u64 = q * step;
    (channel as u64) * 4 + 4 <= (buf_len as u64) - last
}

/// The samples of channel `channel` (counted from 0) in a chunk of frames of
/// `no_channels` words: for each frame, bytes 1 to 3 of the channel's word.
pub fn extract_channel_samples(buf: &[u8], no_channels: u32, channel: u32) -> (res: Vec<u8>)
    requires
        1 <= no_channels,
        no_channels * 4 <= u32::MAX,
        frames_fit(buf@.len() as int, 4 * no_channels, 4 * channel, 0),
    ensures
        res@ == channel_samples(buf@, no_channels as int, channel as int),
        forall|p: int|
            0 <= p < res@.len() ==> #[trigger] res@[p] == buf@[(p / 3) * (4 * no_channels) + 4 * channel
                + 1 + p % 3],
        res@.len() % 3 == 0,
        (res@.len() / 3) * (4 * no_channels) >= buf@.len(),
        res@.len() == 0 || (res@.len() / 3 - 1) * (4 * no_channels) < buf@.len(),
{
    proof {
        lemma_channel_samples_layout(buf@, no_channels as int, channel as int);
    }
    let step: usize = (no_channels * 4) as usize;
    let len: usize = buf.len();
    let ghost off = 4 * channel;
    let mut ch_buffer: Vec<u8> = Vec::new();
    let mut k: usize = 0;
    while k < len
        invariant
            len == buf@.len(),
            step == 4 * no_channels,
            step > 0,
            off == 4 * channel,
            frames_fit(len as int, step as int, off, k as int),
            ch_buffer@ + samples_from(buf@, step as int, off, k as int) == samples_from(
                buf@,
                step as int,
                off,
                0,
            ),
        decreases len - k,
    {
        let idx: usize = k + channel as usize * 4;
        let ghost before = ch_buffer@;
        ch_buffer.push(buf[idx + 1]);
        ch_buffer.push(buf[idx + 2]);
        ch_buffer.push(buf[idx + 3]);
        proof {
            let sub = buf@.subrange(k + off + 1, k + off + 4);
            assert(ch_buffer@ =~= before + sub);
            assert(samples_from(buf@, step as int, off, k as int) == sub + samples_from(
                buf@,
                step as int,
                off,
                k + step,
            ));
            assert(before + (sub + samples_from(buf@, step as int, off, k + step)) =~= (before + sub)
                + samples_from(buf@, step as int, off, k + step));
        }
        if step > len - k {
            proof {
                assert(samples_from(buf@, step as int, off, k + step) =~= Seq::<u8>::empty());
                assert(ch_buffer@ =~= ch_buffer@ + Seq::<u8>::empty());
            }
            k = len;
        } else {
            k = k + step;
        }
    }
    proof {
        assert(ch_buffer@ =~= ch_buffer@ + samples_from(buf@, step as int, off, k as int));
    }
    ch_buffer
}

proof fn lemma_samples_shift(a: Seq<u8>, b: Seq<u8>, step: int, off: int, j: int)
    requires
        0 <= j,
        0 <= off,
        step > 0,
        frames_fit(b.len() as int, step, off, j),
    ensures
        samples_from(a + b, step, off, a.len() + j) == samples_from(b, step, off, j),
    decreases (if j < b.len() { b.len() - j } else { 0 }),
{
    let ab = a + b;
    if j < b.len() {
        if j + step < b.len() {
            lemma_samples_shift(a, b, step, off, j + step);
        } else {
            assert(samples_from(ab, step, off, a.len() + j + step) =~= Seq::<u8>::empty());
            assert(samples_from(b, step, off, j + step) =~= Seq::<u8>::empty());
        }
        assert(ab.subrange(a.len() + j + off + 1, a.len() + j + off + 4) =~= b.subrange(
            j + off + 1,
            j + off + 4,
        ));
    } else {
        assert(samples_from(ab, step, off, a.len() + j) =~= Seq::<u8>::empty());
    }
}

proof fn lemma_samples_prefix(a: Seq<u8>, b: Seq<u8>, step: int, off: int, k: int)
    requires
        0 <= k <= a.len(),
        0 <= off,
        step > 0,
        (a.len() - k) % step == 0,
        frames_fit(a.len() as int, step, off, k),
        frames_fit(b.len() as int, step, off, 0),
    ensures
        samples_from(a + b, step, off, k) == samples_from(a, step, off, k) + samples_from(b, step, off, 0),
    decreases a.len() - k,
{
    let ab = a + b;
    let x: int = a.len() - k;
    if k == a.len() {
        lemma_samples_shift(a, b, step, off, 0);
        assert(samples_from(a, step, off, k) =~= Seq::<u8>::empty());
        assert(samples_from(b, step, off, 0) =~= Seq::<u8>::empty() + samples_from(b, step, off, 0));
    } else {
        vstd::arithmetic::div_mod::lemma_fundamental_div_mod(x, step);
        assert(x >= step) by (nonlinear_arith)
            requires
                x == step * (x / step) + x % step,
                x % step == 0,
                x > 0,
                step > 0,
        ;
        vstd::arithmetic::div_mod::lemma_mod_sub_multiples_vanish(x, step);
        assert(a.len() - (k + step) == -step + x);
        lemma_samples_prefix(a, b, step, off, k + step);
        assert(ab.subrange(k + off + 1, k + off + 4) =~= a.subrange(k + off + 1, k + off + 4));
        let sub = a.subrange(k + off + 1, k + off + 4);
        assert(sub + (samples_from(a, step, off, k + step) + samples_from(b, step, off, 0)) =~= (sub
            + samples_from(a, step, off, k + step)) + samples_from(b, step, off, 0));
    }
}

/// Reading in chunks does not change what a channel gets: where a buffer is
/// split after a whole number of frames, the channel's samples from the two
/// parts, one after the other, are its samples from the whole.
pub proof fn lemma_channel_samples_concat(a: Seq<u8>, b: Seq<u8>, no_channels: int, channel: int)
    requires
        1 <= no_channels,
        0 <= channel,
        (a.len() as int) % (4 * no_channels) == 0,
        frames_fit(a.len() as int, 4 * no_channels, 4 * channel, 0),
        frames_fit(b.len() as int, 4 * no_channels, 4 * channel, 0),
    ensures
        channel_samples(a + b, no_channels, channel) == channel_samples(a, no_channels, channel)
            + channel_samples(b, no_channels, channel),
{
    lemma_samples_prefix(a, b, 4 * no_channels, 4 * channel, 0);
}

/// The chunks cover the take: full chunks of `bufsize` bytes and the rest
/// add up to the take's bytes, where `bufsize` fits in `u32` (beyond it the
/// count is taken against `bufsize` cut down to `u32`, while chunks keep
/// their full size).
pub proof fn lemma_chunks_cover_take(takesize: u32, bufsize: usize)
    requires
        takesize * 4 <= u32::MAX,
        1 <= bufsize <= u32::MAX,
    ensures
        ((takesize * 4) as u32 / (bufsize as u32)) * bufsize + (takesize * 4) as u32 % (bufsize as u32)
            == takesize * 4,
        (takesize * 4) as u32 % (bufsize as u32) < bufsize,
{
    let total: u32 = (takesize * 4) as u32;
    let b: u32 = bufsize as u32;
    assert(b == bufsize);
    vstd::arithmetic::div_mod::lemma_fundamental_div_mod(total as int, b as int);
    vstd::arithmetic::div_mod::lemma_mod_bound(total as int, b as int);
    assert((total / b) * bufsize == b * (total / b)) by (nonlinear_arith)
        requires
            b == bufsize,
    ;
}

/// The difference of two multiples of `step` is a multiple of `step`.
pub proof fn lemma_sub_aligned(a: int, b: int, step: int)
    requires
        step > 0,
        a % step == 0,
        b % step == 0,
    ensures
        (a - b) % step == 0,
{
    vstd::arithmetic::div_mod::lemma_fundamental_div_mod(a, step);
    vstd::arithmetic::div_mod::lemma_fundamental_div_mod(b, step);
    assert(a - b == (a / step - b / step) * step) by (nonlinear_arith)
        requires
            a == step * (a / step) + a % step,
            b == step * (b / step) + b % step,
            a % step == 0,
            b % step == 0,
    ;
    vstd::arithmetic::div_mod::lemma_mod_multiples_basic(a / step - b / step, step);
}

proof fn lemma_frames_fit_aligned_from(len: int, step: int, off: int, k: int)
    requires
        step > 0,
        0 <= off,
        off + 4 <= step,
        0 <= k <= len,
        (len - k) % step == 0,
    ensures
        frames_fit(len, step, off, k),
    decreases len - k,
{
    if k < len {
        let x: int = len - k;
        vstd::arithmetic::div_mod::lemma_fundamental_div_mod(x, step);
        assert(x >= step) by (nonlinear_arith)
            requires
                x == step * (x / step) + x % step,
                x % step == 0,
                x > 0,
                step > 0,
        ;
        vstd::arithmetic::div_mod::lemma_mod_sub_multiples_vanish(x, step);
        assert(len - (k + step) == -step + x);
        lemma_frames_fit_aligned_from(len, step, off, k + step);
    }
}

/// In a buffer of whole frames, every word of every channel lies inside it.
pub proof fn lemma_frames_fit_aligned(len: int, no_channels: int, channel: int)
    requires
        0 <= len,
        0 <= channel < no_channels,
        len % (4 * no_channels) == 0,
    ensures
        frames_fit(len, 4 * no_channels, 4 * channel, 0),
{
    lemma_frames_fit_aligned_from(len, 4 * no_channels, 4 * channel, 0);
}

/// What channel `channel` gets from a take whose bytes are `data`, read as
/// `count` chunks of `bufsize` bytes followed by the rest: the samples of
/// each chunk, one after the other.
pub open spec fn chunked_channel_samples(
    data: Seq<u8>,
    bufsize: int,
    count: nat,
    no_channels: int,
    channel: int,
) -> Seq<u8>
    decreases count,
{
    if count == 0 {
        channel_samples(data, no_channels, channel)
    } else {
        channel_samples(data.take(bufsize), no_channels, channel) + chunked_channel_samples(
            data.skip(bufsize),
            bufsize,
            (count - 1) as nat,
            no_channels,
            channel,
        )
    }
}

/// A take read in chunks of whole frames gives each channel the samples of
/// the whole take, whatever the number of full chunks read before the rest.
pub proof fn lemma_chunked_read_whole(
    data: Seq<u8>,
    bufsize: int,
    count: nat,
    no_channels: int,
    channel: int,
)
    requires
        0 <= channel < no_channels,
        bufsize >= 1,
        bufsize % (4 * no_channels) == 0,
        (data.len() as int) % (4 * no_channels) == 0,
        count * bufsize <= data.len(),
    ensures
        chunked_channel_samples(data, bufsize, count, no_channels, channel) == channel_samples(
            data,
            no_channels,
            channel,
        ),
    decreases count,
{
    if count > 0 {
        let step: int = 4 * no_channels;
        let head = data.take(bufsize);
        let tail = data.skip(bufsize);
        assert(count * bufsize == bufsize + (count - 1) * bufsize) by (nonlinear_arith)
            requires
                count > 0,
        ;
        assert((count - 1) * bufsize >= 0) by (nonlinear_arith)
            requires
                count > 0,
                bufsize >= 1,
        ;
        lemma_sub_aligned(data.len() as int, bufsize, step);
        assert(tail.len() == data.len() - bufsize);
        lemma_chunked_read_whole(tail, bufsize, (count - 1) as nat, no_channels, channel);
        lemma_frames_fit_aligned(head.len() as int, no_channels, channel);
        lemma_frames_fit_aligned(tail.len() as int, no_channels, channel);
        lemma_channel_samples_concat(head, tail, no_channels, channel);
        assert(head + tail =~= data);
    }
}

/// The chunk size does not change what a channel gets: a take of
/// `takesize` samples of whole frames, read in chunks of `b1` bytes or of
/// `b2` bytes (each a whole number of frames, with the counts of full chunks
/// that `chunk_layout` gives), yields the same samples for every channel.
pub proof fn lemma_chunk_size_independent(
    data: Seq<u8>,
    takesize: u32,
    b1: usize,
    b2: usize,
    no_channels: u32,
    channel: u32,
)
    requires
        data.len() == takesize * 4,
        takesize * 4 <= u32::MAX,
        channel < no_channels,
        1 <= b1 <= u32::MAX,
        1 <= b2 <= u32::MAX,
        (b1 as int) % (4 * no_channels as int) == 0,
        (b2 as int) % (4 * no_channels as int) == 0,
        (takesize * 4) % (4 * no_channels as int) == 0,
    ensures
        chunked_channel_samples(
            data,
            b1 as int,
            ((takesize * 4) as u32 / (b1 as u32)) as nat,
            no_channels as int,
            channel as int,
        ) == chunked_channel_samples(
            data,
            b2 as int,
            ((takesize * 4) as u32 / (b2 as u32)) as nat,
            no_channels as int,
            channel as int,
        ),
{
    lemma_chunks_cover_take(takesize, b1);
    lemma_chunks_cover_take(takesize, b2);
    assert(b1 as u32 == b1);
    assert(b2 as u32 == b2);
    lemma_chunked_read_whole(
        data,
        b1 as int,
        ((takesize * 4) as u32 / (b1 as u32)) as nat,
        no_channels as int,
        channel as int,
    );
    lemma_chunked_read_whole(
        data,
        b2 as int,
        ((takesize * 4) as u32 / (b2 as u32)) as nat,
        no_channels as int,
        channel as int,
    );
}

} // verus!
