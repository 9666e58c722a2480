//! Combinatorial fingerprints: each anchor peak is paired with the peaks of
//! the frames that follow it, and each pair becomes a 64-bit hash.
//!
//! A hash packs three quantized fields, most significant first: the anchor's
//! 50 Hz frequency bin (bits 63..30), the target's 50 Hz frequency bin (bits
//! 29..14), and the time between the two frames in 0.1 s steps, saturated at
//! 16383 (bits 13..0). Times handed on with a fingerprint are whole
//! microseconds.
use crate::arith::{lemma_div_at_most, round_div};
use crate::fft::{FFTDistribution, MAX_PEAK_FREQ_HZ};
use vstd::prelude::*;

verus! {

/// Frames after the anchor's own that the target zone reaches, exclusive.
pub const MAX_TARGET_ZONE: usize = 60;

/// The target zone starts this many frames after the anchor's frame.
pub const MIN_TARGET_ZONE_DIST: usize = 1;

/// Width of a frequency bin of the hash, in hertz.
pub const FREQ_STEP_HZ: u64 = 50;

/// Time-delta bins per second (each bin is 0.1 s).
pub const DELTA_BINS_PER_SECOND: u64 = 10;

/// The largest time-delta bin: the field has 14 bits.
pub const MAX_DELTA_BIN: u32 = 16383;

pub const MICROS_PER_SECOND: u64 = 1_000_000;

/// The largest frame position whose start time, in microseconds, fits in 64 bits.
pub const MAX_FRAME_POSITION: u64 = 18_446_744_073_709;

/// One fingerprint: a hash and the start time of its anchor's frame.
#[derive(Clone, Copy, Debug, PartialEq, Eq, Structural)]
pub struct FingerprintInfo {
    pub hash: u64,
    /// Start of the anchor's frame, in microseconds from the start of the audio.
    pub anchor_time_us: u64,
    /// The song the fingerprint belongs to; 0 until a song is assigned.
    pub song_id: u32,
}

/// The 50 Hz bin of the frequency `bin * fs / n` hertz, rounded to nearest.
pub open spec fn freq_bin_of(bin: int, fs: int, n: int) -> int {
    round_div(bin * fs, FREQ_STEP_HZ * n)
}

/// The 0.1 s bin of `delta / fs` seconds, rounded to nearest and saturated at 16383.
pub open spec fn delta_bin_of(delta: int, fs: int) -> int {
    let d = round_div(delta * DELTA_BINS_PER_SECOND, fs);
    if d > MAX_DELTA_BIN {
        MAX_DELTA_BIN as int
    } else {
        d
    }
}

/// The time `position / fs` seconds in whole microseconds, rounded to nearest.
pub open spec fn time_us_of(position: int, fs: int) -> int {
    round_div(position * MICROS_PER_SECOND, fs)
}

/// The hash of an anchor bin, a target bin and a time-delta bin:
/// `anchor << 30 | target << 14 | delta`.
pub open spec fn hash_of(anchor: int, target: int, delta: int) -> int {
    anchor * 0x4000_0000 + target * 0x4000 + delta
}

/// The fingerprint of peak `a` of frame `i` (the anchor) with peak `t` of frame `j` (the target).
pub open spec fn pair_fingerprint(
    frames: Seq<FFTDistribution>,
    fs: int,
    n: int,
    i: int,
    a: int,
    j: int,
    t: int,
) -> FingerprintInfo {
    let anchor = frames[i].peaks@[a];
    let target = frames[j].peaks@[t];
    FingerprintInfo {
        hash: hash_of(
            freq_bin_of(anchor.bin as int, fs, n),
            freq_bin_of(target.bin as int, fs, n),
            delta_bin_of(frames[j].position - frames[i].position, fs),
        ) as u64,
        anchor_time_us: time_us_of(frames[i].position as int, fs) as u64,
        song_id: 0,
    }
}

/// Anchor `a` of frame `i` with the first `upto` peaks of frame `j`.
pub open spec fn target_fingerprints(
    frames: Seq<FFTDistribution>,
    fs: int,
    n: int,
    i: int,
    a: int,
    j: int,
    upto: int,
) -> Seq<FingerprintInfo>
    decreases upto,
{
    if upto <= 0 {
        Seq::empty()
    } else {
        target_fingerprints(frames, fs, n, i, a, j, upto - 1).push(
            pair_fingerprint(frames, fs, n, i, a, j, upto - 1),
        )
    }
}

/// Anchor `a` of frame `i` with every peak of the frames `i + 1 .. upto`
/// that start later than frame `i`.
pub open spec fn zone_fingerprints(
    frames: Seq<FFTDistribution>,
    fs: int,
    n: int,
    i: int,
    a: int,
    upto: int,
) -> Seq<FingerprintInfo>
    decreases upto - i,
{
    if upto <= i + MIN_TARGET_ZONE_DIST {
        Seq::empty()
    } else {
        let prev = zone_fingerprints(frames, fs, n, i, a, upto - 1);
        let j = upto - 1;
        if frames[j].position > frames[i].position {
            prev + target_fingerprints(frames, fs, n, i, a, j, frames[j].peaks@.len() as int)
        } else {
            prev
        }
    }
}

/// The end, exclusive, of the target zone of frame `i` among `len` frames.
pub open spec fn zone_end(i: int, len: int) -> int {
    if i + MAX_TARGET_ZONE < len {
        i + MAX_TARGET_ZONE
    } else {
        len
    }
}

/// The first `upto` peaks of frame `i`, each as anchor over its whole target zone.
pub open spec fn anchor_fingerprints(
    frames: Seq<FFTDistribution>,
    fs: int,
    n: int,
    i: int,
    upto: int,
) -> Seq<FingerprintInfo>
    decreases upto,
{
    if upto <= 0 {
        Seq::empty()
    } else {
        anchor_fingerprints(frames, fs, n, i, upto - 1) + zone_fingerprints(
            frames,
            fs,
            n,
            i,
            upto - 1,
            zone_end(i, frames.len() as int),
        )
    }
}

/// The fingerprints of the first `upto` frames, in frame order, then anchor
/// order, then target-frame order, then target order.
pub open spec fn fingerprints_upto(frames: Seq<FFTDistribution>, fs: int, n: int, upto: int) -> Seq<
    FingerprintInfo,
>
    decreases upto,
{
    if upto <= 0 {
        Seq::empty()
    } else {
        fingerprints_upto(frames, fs, n, upto - 1) + anchor_fingerprints(
            frames,
            fs,
            n,
            upto - 1,
            frames[upto - 1].peaks@.len() as int,
        )
    }
}

/// All fingerprints of a sequence of frames.
pub open spec fn fingerprints_of(frames: Seq<FFTDistribution>, fs: int, n: int) -> Seq<
    FingerprintInfo,
> {
    fingerprints_upto(frames, fs, n, frames.len() as int)
}

/// What the generator needs of its frames: each starts early enough for its
/// time to fit in microseconds, and each peak lies below 5000 Hz.
pub open spec fn frames_well_formed(frames: Seq<FFTDistribution>, fs: int, n: int) -> bool {
    forall|i: int|
        0 <= i < frames.len() ==> {
            &&& #[trigger] frames[i].position <= MAX_FRAME_POSITION
            &&& forall|p: int|
                0 <= p < frames[i].peaks@.len() ==> #[trigger] frames[i].peaks@[p].bin * fs
                    < MAX_PEAK_FREQ_HZ * n
        }
}

/// The bits of a hash give back the three values it was made of.
pub proof fn lemma_hash_layout(anchor: u64, target: u64, delta: u64)
    requires
        anchor < 0x4_0000_0000,
        target < 0x1_0000,
        delta <= MAX_DELTA_BIN,
    ensures
        hash_of(anchor as int, target as int, delta as int) <= u64::MAX,
        ({
            let h = hash_of(anchor as int, target as int, delta as int) as u64;
            &&& h >> 30u64 == anchor
            &&& (h >> 14u64) & 0xFFFFu64 == target
            &&& h & 0x3FFFu64 == delta
        }),
{
    assert(anchor * 0x4000_0000 + target * 0x4000 + delta <= u64::MAX) by (nonlinear_arith)
        requires
            anchor < 0x4_0000_0000,
            target < 0x1_0000,
            delta <= 16383,
    ;
    let h = (anchor * 0x4000_0000 + target * 0x4000 + delta) as u64;
    assert(h >> 30u64 == anchor && (h >> 14u64) & 0xFFFFu64 == target && h & 0x3FFFu64 == delta)
        by (bit_vector)
        requires
            anchor < 0x4_0000_0000,
            target < 0x1_0000,
            delta <= 16383,
            h == (anchor * 0x4000_0000 + target * 0x4000 + delta) as u64,
    ;
}

/// Two hashes are equal exactly when their anchor bins, target bins and
/// time-delta bins are: the hash is a function of those three values alone,
/// and no two different triples share one.
pub proof fn lemma_hash_determined_by_bins(
    a1: u64,
    t1: u64,
    d1: u64,
    a2: u64,
    t2: u64,
    d2: u64,
)
    requires
        a1 < 0x4_0000_0000,
        t1 < 0x1_0000,
        d1 <= MAX_DELTA_BIN,
        a2 < 0x4_0000_0000,
        t2 < 0x1_0000,
        d2 <= MAX_DELTA_BIN,
    ensures
        hash_of(a1 as int, t1 as int, d1 as int) == hash_of(a2 as int, t2 as int, d2 as int) <==> (
        a1 == a2 && t1 == t2 && d1 == d2),
{
    lemma_hash_layout(a1, t1, d1);
    lemma_hash_layout(a2, t2, d2);
}

/// The hashes of a sequence of fingerprints, in order.
pub open spec fn hashes_of(fps: Seq<FingerprintInfo>) -> Seq<u64> {
    fps.map_values(|f: FingerprintInfo| f.hash)
}

/// `f2` is `f1` with every frame moved by `shift` samples.
pub open spec fn shifted_frames(f1: Seq<FFTDistribution>, f2: Seq<FFTDistribution>, shift: int) -> bool {
    &&& f1.len() == f2.len()
    &&& forall|i: int|
        0 <= i < f1.len() ==> #[trigger] f2[i].peaks@ == f1[i].peaks@ && f2[i].position
            == f1[i].position + shift
}

proof fn lemma_hashes_concat(a: Seq<FingerprintInfo>, b: Seq<FingerprintInfo>)
    ensures
        hashes_of(a + b) == hashes_of(a) + hashes_of(b),
{
    assert(hashes_of(a + b) =~= hashes_of(a) + hashes_of(b));
}

proof fn lemma_target_hashes_shift(
    f1: Seq<FFTDistribution>,
    f2: Seq<FFTDistribution>,
    shift: int,
    fs: int,
    n: int,
    i: int,
    a: int,
    j: int,
    upto: int,
)
    requires
        shifted_frames(f1, f2, shift),
        0 <= i < f1.len(),
        0 <= j < f1.len(),
    ensures
        hashes_of(target_fingerprints(f1, fs, n, i, a, j, upto)) == hashes_of(
            target_fingerprints(f2, fs, n, i, a, j, upto),
        ),
    decreases upto,
{
    if upto > 0 {
        lemma_target_hashes_shift(f1, f2, shift, fs, n, i, a, j, upto - 1);
        let p1 = target_fingerprints(f1, fs, n, i, a, j, upto - 1);
        let p2 = target_fingerprints(f2, fs, n, i, a, j, upto - 1);
        let e1 = pair_fingerprint(f1, fs, n, i, a, j, upto - 1);
        let e2 = pair_fingerprint(f2, fs, n, i, a, j, upto - 1);
        assert(f2[i].peaks@ == f1[i].peaks@ && f2[j].peaks@ == f1[j].peaks@);
        assert(e1.hash == e2.hash);
        assert(hashes_of(p1.push(e1)) =~= hashes_of(p1).push(e1.hash));
        assert(hashes_of(p2.push(e2)) =~= hashes_of(p2).push(e2.hash));
    }
}

proof fn lemma_zone_hashes_shift(
    f1: Seq<FFTDistribution>,
    f2: Seq<FFTDistribution>,
    shift: int,
    fs: int,
    n: int,
    i: int,
    a: int,
    upto: int,
)
    requires
        shifted_frames(f1, f2, shift),
        0 <= i < f1.len(),
        upto <= f1.len(),
    ensures
        hashes_of(zone_fingerprints(f1, fs, n, i, a, upto)) == hashes_of(
            zone_fingerprints(f2, fs, n, i, a, upto),
        ),
    decreases upto - i,
{
    if upto > i + MIN_TARGET_ZONE_DIST {
        let j = upto - 1;
        lemma_zone_hashes_shift(f1, f2, shift, fs, n, i, a, upto - 1);
        assert(f2[i].peaks@ == f1[i].peaks@);
        assert(f2[j].peaks@ == f1[j].peaks@);
        assert(f2[i].position == f1[i].position + shift);
        assert(f2[j].position == f1[j].position + shift);
        if f1[j].position > f1[i].position {
            let len = f1[j].peaks@.len() as int;
            lemma_target_hashes_shift(f1, f2, shift, fs, n, i, a, j, len);
            lemma_hashes_concat(
                zone_fingerprints(f1, fs, n, i, a, upto - 1),
                target_fingerprints(f1, fs, n, i, a, j, len),
            );
            lemma_hashes_concat(
                zone_fingerprints(f2, fs, n, i, a, upto - 1),
                target_fingerprints(f2, fs, n, i, a, j, len),
            );
        }
    }
}

proof fn lemma_anchor_hashes_shift(
    f1: Seq<FFTDistribution>,
    f2: Seq<FFTDistribution>,
    shift: int,
    fs: int,
    n: int,
    i: int,
    upto: int,
)
    requires
        shifted_frames(f1, f2, shift),
        0 <= i < f1.len(),
    ensures
        hashes_of(anchor_fingerprints(f1, fs, n, i, upto)) == hashes_of(
            anchor_fingerprints(f2, fs, n, i, upto),
        ),
    decreases upto,
{
    if upto > 0 {
        lemma_anchor_hashes_shift(f1, f2, shift, fs, n, i, upto - 1);
        let end = zone_end(i, f1.len() as int);
        lemma_zone_hashes_shift(f1, f2, shift, fs, n, i, upto - 1, end);
        lemma_hashes_concat(
            anchor_fingerprints(f1, fs, n, i, upto - 1),
            zone_fingerprints(f1, fs, n, i, upto - 1, end),
        );
        lemma_hashes_concat(
            anchor_fingerprints(f2, fs, n, i, upto - 1),
            zone_fingerprints(f2, fs, n, i, upto - 1, end),
        );
    }
}

proof fn lemma_all_hashes_shift(
    f1: Seq<FFTDistribution>,
    f2: Seq<FFTDistribution>,
    shift: int,
    fs: int,
    n: int,
    upto: int,
)
    requires
        shifted_frames(f1, f2, shift),
        upto <= f1.len(),
    ensures
        hashes_of(fingerprints_upto(f1, fs, n, upto)) == hashes_of(
            fingerprints_upto(f2, fs, n, upto),
        ),
    decreases upto,
{
    if upto > 0 {
        lemma_all_hashes_shift(f1, f2, shift, fs, n, upto - 1);
        assert(f2[upto - 1].peaks@ == f1[upto - 1].peaks@);
        let len = f1[upto - 1].peaks@.len() as int;
        lemma_anchor_hashes_shift(f1, f2, shift, fs, n, upto - 1, len);
        lemma_hashes_concat(
            fingerprints_upto(f1, fs, n, upto - 1),
            anchor_fingerprints(f1, fs, n, upto - 1, len),
        );
        lemma_hashes_concat(
            fingerprints_upto(f2, fs, n, upto - 1),
            anchor_fingerprints(f2, fs, n, upto - 1, len),
        );
    }
}

/// The hashes depend on the frames' peaks and on the gaps between frames,
/// not on where the frames sit: the same pattern moved by any number of
/// samples (later in a song, or in another song) yields the same hashes, in
/// the same order.
pub proof fn lemma_hashes_ignore_absolute_time(
    f1: Seq<FFTDistribution>,
    f2: Seq<FFTDistribution>,
    shift: int,
    fs: int,
    n: int,
)
    requires
        shifted_frames(f1, f2, shift),
    ensures
        hashes_of(fingerprints_of(f1, fs, n)) == hashes_of(fingerprints_of(f2, fs, n)),
{
    lemma_all_hashes_shift(f1, f2, shift, fs, n, f1.len() as int);
}

/// The hash of an anchor bin, a target bin and a time-delta bin.
pub fn fingerprint_hash(anchor_freq_bin: u32, target_freq_bin: u32, delta_bin: u32) -> (r: u64)
    requires
        target_freq_bin < 0x1_0000,
        delta_bin <= MAX_DELTA_BIN,
    ensures
        r == hash_of(anchor_freq_bin as int, target_freq_bin as int, delta_bin as int),
{
    let a = anchor_freq_bin as u64;
    let t = target_freq_bin as u64;
    let d = delta_bin as u64;
    let h = (a << 30u64) | (t << 14u64) | d;
    assert(h == a * 0x4000_0000 + t * 0x4000 + d) by (bit_vector)
        requires
            a < 0x1_0000_0000,
            t < 0x1_0000,
            d <= 16383,
            h == (a << 30u64) | (t << 14u64) | d,
    ;
    h
}

/// The 50 Hz bin of the frequency of FFT bin `bin`, for frames of
/// `chunk_size` samples at `sample_rate` hertz.
pub fn quantize_freq(bin: usize, sample_rate: u32, chunk_size: usize) -> (r: u32)
    requires
        chunk_size > 0,
        bin * sample_rate < MAX_PEAK_FREQ_HZ * chunk_size,
    ensures
        r == freq_bin_of(bin as int, sample_rate as int, chunk_size as int),
        r <= 100,
{
    assert((bin as u128) * (sample_rate as u128) < 5000 * 0x1_0000_0000_0000_0000)
        by (nonlinear_arith)
        requires
            bin * sample_rate < 5000 * chunk_size,
            chunk_size <= usize::MAX,
    ;
    let p = (bin as u128) * (sample_rate as u128);
    let q = 50 * (chunk_size as u128);
    proof {
        lemma_div_at_most(2 * p + q, 2 * q, 100);
    }
    ((2 * p + q) / (2 * q)) as u32
}

/// The 0.1 s bin of a gap of `delta_samples` samples at `sample_rate` hertz,
/// saturated at 16383.
pub fn quantize_time_delta(delta_samples: usize, sample_rate: u32) -> (r: u32)
    requires
        sample_rate > 0,
    ensures
        r == delta_bin_of(delta_samples as int, sample_rate as int),
        r <= MAX_DELTA_BIN,
{
    let p = (delta_samples as u128) * 10;
    let q = sample_rate as u128;
    let d = (2 * p + q) / (2 * q);
    if d > MAX_DELTA_BIN as u128 {
        MAX_DELTA_BIN
    } else {
        d as u32
    }
}

/// The start of the frame at `position`, in microseconds.
pub fn frame_time_us(position: usize, sample_rate: u32) -> (r: u64)
    requires
        sample_rate > 0,
        position <= MAX_FRAME_POSITION,
    ensures
        r == time_us_of(position as int, sample_rate as int),
{
    let x = (position as u128) * 1_000_000;
    let q = sample_rate as u128;
    proof {
        assert(2 * x + q < 2 * q * (x + 1)) by (nonlinear_arith)
            requires
                q >= 1,
                x >= 0,
        ;
        lemma_div_at_most(2 * x + q, 2 * q, x as int);
    }
    ((2 * x + q) / (2 * q)) as u64
}

/// Appends the fingerprints of anchor `a` of frame `i` with each peak of frame `j`.
fn push_target_fingerprints(
    out: &mut Vec<FingerprintInfo>,
    frames: &Vec<FFTDistribution>,
    sample_rate: u32,
    chunk_size: usize,
    i: usize,
    a: usize,
    j: usize,
    anchor_bin: u32,
    delta_bin: u32,
    anchor_time: u64,
)
    requires
        sample_rate > 0,
        chunk_size > 0,
        frames_well_formed(frames@, sample_rate as int, chunk_size as int),
        i < frames.len(),
        j < frames.len(),
        a < frames@[i as int].peaks.len(),
        anchor_bin == freq_bin_of(
            frames@[i as int].peaks@[a as int].bin as int,
            sample_rate as int,
            chunk_size as int,
        ),
        delta_bin == delta_bin_of(
            frames@[j as int].position - frames@[i as int].position,
            sample_rate as int,
        ),
        delta_bin <= MAX_DELTA_BIN,
        anchor_time == time_us_of(frames@[i as int].position as int, sample_rate as int),
    ensures
        final(out)@ == old(out)@ + target_fingerprints(
            frames@,
            sample_rate as int,
            chunk_size as int,
            i as int,
            a as int,
            j as int,
            frames@[j as int].peaks.len() as int,
        ),
{
    let ghost start = out@;
    let ghost fs = sample_rate as int;
    let ghost n = chunk_size as int;
    let targets = &frames[j].peaks;
    let mut t: usize = 0;
    while t < targets.len()
        invariant
            targets == frames@[j as int].peaks,
            frames_well_formed(frames@, fs, n),
            fs == sample_rate,
            n == chunk_size,
            sample_rate > 0,
            chunk_size > 0,
            j < frames.len(),
            t <= targets.len(),
            anchor_bin == freq_bin_of(frames@[i as int].peaks@[a as int].bin as int, fs, n),
            delta_bin == delta_bin_of(frames@[j as int].position - frames@[i as int].position, fs),
            delta_bin <= MAX_DELTA_BIN,
            anchor_time == time_us_of(frames@[i as int].position as int, fs),
            out@ == start + target_fingerprints(frames@, fs, n, i as int, a as int, j as int, t as int),
        decreases targets.len() - t,
    {
        assert(frames@[j as int].position <= MAX_FRAME_POSITION);
        let target_bin = quantize_freq(targets[t].bin, sample_rate, chunk_size);
        let hash = fingerprint_hash(anchor_bin, target_bin, delta_bin);
        out.push(FingerprintInfo { hash, anchor_time_us: anchor_time, song_id: 0 });
        proof {
            assert(out@ =~= start + target_fingerprints(
                frames@,
                fs,
                n,
                i as int,
                a as int,
                j as int,
                t + 1,
            ));
        }
        t = t + 1;
    }
}

/// The fingerprints of a sequence of frames of `chunk_size` samples taken at
/// `sample_rate` hertz.
///
/// Each peak of frame `i`, as anchor, is paired with each peak of the frames
/// `i + 1 .. i + 60` (as far as there are frames) that start later than frame
/// `i`. The anchor's and target's frequencies and the time between the two
/// frames make the hash; the anchor frame's start is the fingerprint's time.
/// Fingerprints come in order of anchor frame, anchor peak, target frame and
/// target peak; none has a song yet.
pub fn generate_audio_fingerprint(
    fft_buffer: &Vec<FFTDistribution>,
    sample_rate: u32,
    chunk_size: usize,
) -> (r: Vec<FingerprintInfo>)
    requires
        sample_rate > 0,
        chunk_size > 0,
        frames_well_formed(fft_buffer@, sample_rate as int, chunk_size as int),
    ensures
        r@ == fingerprints_of(fft_buffer@, sample_rate as int, chunk_size as int),
{
    let ghost frames = fft_buffer@;
    let ghost fs = sample_rate as int;
    let ghost n = chunk_size as int;
    let len = fft_buffer.len();
    let mut out: Vec<FingerprintInfo> = Vec::new();
    let mut i: usize = 0;
    while i < len
        invariant
            frames == fft_buffer@,
            len == frames.len(),
            fs == sample_rate,
            n == chunk_size,
            sample_rate > 0,
            chunk_size > 0,
            frames_well_formed(frames, fs, n),
            i <= len,
            out@ == fingerprints_upto(frames, fs, n, i as int),
        decreases len - i,
    {
        let frame = &fft_buffer[i];
        assert(frame.position <= MAX_FRAME_POSITION);
        let time = frame_time_us(frame.position, sample_rate);
        let end = if len - i > MAX_TARGET_ZONE {
            i + MAX_TARGET_ZONE
        } else {
            len
        };
        assert(end == zone_end(i as int, len as int));
        let mut a: usize = 0;
        while a < frame.peaks.len()
            invariant
                frames == fft_buffer@,
                len == frames.len(),
                fs == sample_rate,
                n == chunk_size,
                sample_rate > 0,
                chunk_size > 0,
                frames_well_formed(frames, fs, n),
                i < len,
                frame == frames[i as int],
                time == time_us_of(frame.position as int, fs),
                end == zone_end(i as int, len as int),
                i < end <= len,
                a <= frame.peaks.len(),
                out@ == fingerprints_upto(frames, fs, n, i as int) + anchor_fingerprints(
                    frames,
                    fs,
                    n,
                    i as int,
                    a as int,
                ),
            decreases frame.peaks.len() - a,
        {
            assert(frame.peaks@[a as int].bin * fs < MAX_PEAK_FREQ_HZ * n);
            let anchor_bin = quantize_freq(frame.peaks[a].bin, sample_rate, chunk_size);
            let ghost before = out@;
            let mut j: usize = i + MIN_TARGET_ZONE_DIST;
            while j < end
                invariant
                    frames == fft_buffer@,
                    len == frames.len(),
                    fs == sample_rate,
                    n == chunk_size,
                    sample_rate > 0,
                    chunk_size > 0,
                    frames_well_formed(frames, fs, n),
                    i < len,
                    frame == frames[i as int],
                    a < frame.peaks.len(),
                    anchor_bin == freq_bin_of(frame.peaks@[a as int].bin as int, fs, n),
                    time == time_us_of(frame.position as int, fs),
                    end <= len,
                    i + 1 <= j <= end || (j == i + 1 && end < j),
                    out@ == before + zone_fingerprints(frames, fs, n, i as int, a as int, j as int),
                decreases end - j,
            {
                let position = fft_buffer[j].position;
                if position > frame.position {
                    let delta_bin = quantize_time_delta(position - frame.position, sample_rate);
                    push_target_fingerprints(
                        &mut out,
                        fft_buffer,
                        sample_rate,
                        chunk_size,
                        i,
                        a,
                        j,
                        anchor_bin,
                        delta_bin,
                        time,
                    );
                }
                proof {
                    assert(out@ =~= before + zone_fingerprints(
                        frames,
                        fs,
                        n,
                        i as int,
                        a as int,
                        j + 1,
                    ));
                }
                j = j + 1;
            }
            proof {
                assert(out@ =~= fingerprints_upto(frames, fs, n, i as int) + anchor_fingerprints(
                    frames,
                    fs,
                    n,
                    i as int,
                    a + 1,
                ));
            }
            a = a + 1;
        }
        proof {
            assert(out@ =~= fingerprints_upto(frames, fs, n, i + 1));
        }
        i = i + 1;
    }
    out
}

} // verus!
