//! Whole-pipeline runs on modelled spectra: each frame's half magnitude
//! spectrum is built directly (a rippled noise floor with the content's peaks
//! on it), then framed, fingerprinted, stored in an in-memory index and
//! queried.
use audio_fingerprint::fft::CooleyTukeyFFT;
use audio_fingerprint::fingerprint::{generate_audio_fingerprint, FingerprintInfo};
use audio_fingerprint::index::{dedup_fingerprints, group_matches_by_hash};
use audio_fingerprint::voting::{vote_best_matches, VoteResult};
use std::collections::HashSet;

const FS: u32 = 11025;
const CHUNK: usize = 2048;
const HALF: usize = CHUNK / 2;

fn next(state: &mut u64) -> u64 {
    *state = state.wrapping_mul(6364136223846793005).wrapping_add(1442695040888963407);
    *state >> 33
}

fn bin_of_hz(hz: f64) -> usize {
    (hz * CHUNK as f64 / FS as f64).round() as usize
}

/// A rippled floor (a small local maximum at every odd bin) with `peaks` on it.
fn spectrum(peaks: &[(usize, u32)]) -> Vec<u32> {
    let mut m: Vec<u32> = (0..HALF).map(|i| if i % 2 == 1 { 2 } else { 1 }).collect();
    for &(bin, mag) in peaks {
        if bin >= 1 && bin + 1 < HALF {
            m[bin] = mag;
        }
    }
    m
}

/// Three loud peaks at bins drawn from `seed`, one per band.
fn texture(seed: u64) -> Vec<(usize, u32)> {
    let mut s = seed.wrapping_mul(0x9E37_79B9_7F4A_7C15) ^ 0x5851_F42D;
    let low = 4 + (next(&mut s) % 50) as usize;
    let mid = 60 + (next(&mut s) % 300) as usize;
    let high = 380 + (next(&mut s) % 540) as usize;
    vec![
        (low, 100_000 + (next(&mut s) % 50_000) as u32),
        (mid, 100_000 + (next(&mut s) % 50_000) as u32),
        (high, 100_000 + (next(&mut s) % 50_000) as u32),
    ]
}

fn frame_count(seconds: f64) -> usize {
    CooleyTukeyFFT::default().frame_starts((seconds * FS as f64) as usize).len()
}

fn fingerprints(spectra: &Vec<Vec<u32>>) -> Vec<FingerprintInfo> {
    let fft = CooleyTukeyFFT::default();
    let frames = fft.generate_freq_time_distribution(spectra, FS);
    generate_audio_fingerprint(&frames, FS, CHUNK)
}

#[derive(Default)]
struct MemoryIndex {
    rows: Vec<(u64, u32, u64)>,
}

impl MemoryIndex {
    fn ingest(&mut self, song_id: u32, fps: &Vec<FingerprintInfo>) -> usize {
        let rows = dedup_fingerprints(song_id, fps);
        for r in &rows {
            self.rows.push((r.hash, r.song_id, r.anchor_time_us));
        }
        rows.len()
    }

    fn query(&self, fps: &[FingerprintInfo], top_k: usize) -> Vec<VoteResult> {
        let wanted: HashSet<u64> = fps.iter().map(|f| f.hash).collect();
        let hits: Vec<(u64, u32, u64)> =
            self.rows.iter().filter(|r| wanted.contains(&r.0)).cloned().collect();
        vote_best_matches(fps, &group_matches_by_hash(&hits), top_k)
    }
}

fn seconds(r: &VoteResult) -> f64 {
    r.time_offset_us() as f64 / 1e6
}

#[test]
fn sine_of_440_hz_is_found_in_itself() {
    // Five seconds of a 440 Hz sine: one lobe at its bin in every frame.
    let bin = bin_of_hz(440.0);
    let spectra: Vec<Vec<u32>> = (0..frame_count(5.0)).map(|_| spectrum(&[(bin, 1_000_000)])).collect();
    let fps = fingerprints(&spectra);
    let mut index = MemoryIndex::default();
    let a440 = 1;
    index.ingest(a440, &fps);
    let r = index.query(&fps, 5);
    assert_eq!(r[0].song_id, a440);
    assert!(r[0].score >= 50);
    assert!(seconds(&r[0]).abs() < 0.05);
}

#[test]
fn slice_of_two_tone_song_is_found_at_its_offset() {
    // Sixty seconds of 880 Hz and 1760 Hz, one fading out as the other fades
    // in, over a textured bed that differs from frame to frame.
    let n = frame_count(60.0);
    let song: Vec<Vec<u32>> = (0..n)
        .map(|k| {
            let t = k as f64 / n as f64;
            let mut peaks = texture(k as u64);
            peaks.push((bin_of_hz(880.0), (1000.0 * (1.0 - t)) as u32 + 3));
            peaks.push((bin_of_hz(1760.0), (1000.0 * t) as u32 + 3));
            spectrum(&peaks)
        })
        .collect();
    let mut index = MemoryIndex::default();
    let s = 7;
    index.ingest(s, &fingerprints(&song));
    // Ten seconds from the frame nearest to 20 s (20 s is 215.3 frames in).
    let first = 215;
    let query: Vec<Vec<u32>> = song[first..first + frame_count(10.0)].to_vec();
    let r = index.query(&fingerprints(&query), 5);
    assert_eq!(r[0].song_id, s);
    let start = (first * 1024) as f64 / FS as f64;
    assert!((seconds(&r[0]) - start).abs() <= 0.02);
    assert!((seconds(&r[0]) - 20.0).abs() <= 0.05);
}

#[test]
fn chirp_slice_outscores_noise_twice_over() {
    let n = frame_count(30.0);
    // "X": noise, a new random texture in every frame.
    let x: Vec<Vec<u32>> = (0..n).map(|k| spectrum(&texture(1_000_000 + k as u64))).collect();
    // "Y": a chirp from 100 Hz to 3000 Hz.
    let y: Vec<Vec<u32>> = (0..n)
        .map(|k| {
            let hz = 100.0 + 2900.0 * k as f64 / n as f64;
            spectrum(&[(bin_of_hz(hz), 500_000)])
        })
        .collect();
    let mut index = MemoryIndex::default();
    let (song_x, song_y) = (11, 12);
    index.ingest(song_x, &fingerprints(&x));
    index.ingest(song_y, &fingerprints(&y));
    let first = 100;
    let query: Vec<Vec<u32>> = y[first..first + frame_count(10.0)].to_vec();
    let r = index.query(&fingerprints(&query), 5);
    assert_eq!(r[0].song_id, song_y);
    if r.len() > 1 {
        assert!(r[0].score > 2 * r[1].score);
    }
}

#[test]
fn silent_query_has_no_fingerprints_and_no_result() {
    let silent: Vec<Vec<u32>> = (0..frame_count(5.0)).map(|_| vec![0u32; HALF]).collect();
    let fps = fingerprints(&silent);
    assert!(fps.is_empty());
    let mut index = MemoryIndex::default();
    index.ingest(1, &fingerprints(&(0..40).map(|k| spectrum(&texture(k))).collect()));
    assert!(index.query(&fps, 5).is_empty());
}

#[test]
fn reingest_after_delete_stores_the_same_rows() {
    let z: Vec<Vec<u32>> = (0..frame_count(10.0)).map(|k| spectrum(&texture(77 + k as u64))).collect();
    let mut first = MemoryIndex::default();
    let written = first.ingest(5, &fingerprints(&z));
    // Rows deleted; the same file ingested again.
    let mut second = MemoryIndex::default();
    let rewritten = second.ingest(5, &fingerprints(&z));
    assert_eq!(written, rewritten);
    assert_eq!(first.rows, second.rows);
    let mut a: Vec<u64> = first.rows.iter().map(|r| r.0).collect();
    let mut b: Vec<u64> = second.rows.iter().map(|r| r.0).collect();
    a.sort();
    b.sort();
    assert_eq!(a, b);
}
