use audio_fingerprint::fft::{FFTDistribution, PeakInfo};
use audio_fingerprint::fingerprint::{
    fingerprint_hash, frame_time_us, generate_audio_fingerprint, quantize_freq,
    quantize_time_delta, FingerprintInfo,
};

fn frame(position: usize, bins: &[usize]) -> FFTDistribution {
    FFTDistribution {
        position,
        peaks: bins.iter().map(|&bin| PeakInfo { bin, magnitude: 100 }).collect(),
    }
}

#[test]
fn fingerprint_hash_packs_the_three_fields() {
    assert_eq!(fingerprint_hash(9, 9, 3), 9_663_823_875);
    assert_eq!(fingerprint_hash(0, 0, 0), 0);
    assert_eq!(fingerprint_hash(1, 0, 0), 1 << 30);
    assert_eq!(fingerprint_hash(0, 1, 0), 1 << 14);
    assert_eq!(fingerprint_hash(0, 0, 16383), 16383);
}

#[test]
fn hash_fields_read_back_from_their_bits() {
    for (a, t, d) in [(0u32, 0u32, 0u32), (100, 100, 16383), (12345, 65535, 1), (u32::MAX, 0, 7)] {
        let h = fingerprint_hash(a, t, d);
        assert_eq!(h >> 30, a as u64);
        assert_eq!((h >> 14) & 0xFFFF, t as u64);
        assert_eq!(h & 0x3FFF, d as u64);
    }
}

#[test]
fn hash_depends_on_the_bins_alone() {
    // The same pattern at another time gives the same hashes and other times.
    let early = vec![frame(0, &[82]), frame(1024, &[164])];
    let late = vec![frame(5 * 1024, &[82]), frame(6 * 1024, &[164])];
    let a = generate_audio_fingerprint(&early, 11025, 2048);
    let b = generate_audio_fingerprint(&late, 11025, 2048);
    assert_eq!(a.len(), 1);
    assert_eq!(b.len(), 1);
    assert_eq!(a[0].hash, b[0].hash);
    assert_ne!(a[0].anchor_time_us, b[0].anchor_time_us);
    assert_eq!(b[0].anchor_time_us, 464_399);
}

#[test]
fn quantize_freq_rounds_to_the_nearest_50_hz_bin() {
    // 82 * 11025 / 2048 = 441.4 Hz
    assert_eq!(quantize_freq(82, 11025, 2048), 9);
    // 164 * 11025 / 2048 = 882.9 Hz
    assert_eq!(quantize_freq(164, 11025, 2048), 18);
    // Exactly 25 Hz is half a bin and rounds up.
    assert_eq!(quantize_freq(1, 25, 1), 1);
    assert_eq!(quantize_freq(0, 11025, 2048), 0);
    // Just under 5000 Hz.
    assert_eq!(quantize_freq(928, 11025, 2048), 100);
}

#[test]
fn quantize_time_delta_rounds_and_saturates() {
    assert_eq!(quantize_time_delta(1024, 11025), 1);
    assert_eq!(quantize_time_delta(2048, 11025), 2);
    // 551 samples are 0.04998 s, 552 samples 0.05007 s.
    assert_eq!(quantize_time_delta(551, 11025), 0);
    assert_eq!(quantize_time_delta(552, 11025), 1);
    assert_eq!(quantize_time_delta(11025 * 10_000, 11025), 16383);
    assert_eq!(quantize_time_delta(usize::MAX, 1), 16383);
}

#[test]
fn frame_time_us_rounds_to_whole_microseconds() {
    assert_eq!(frame_time_us(11025, 11025), 1_000_000);
    // 1024 / 11025 s = 92879.8 us
    assert_eq!(frame_time_us(1024, 11025), 92_880);
    assert_eq!(frame_time_us(0, 44100), 0);
}

#[test]
fn generate_audio_fingerprint_pairs_each_anchor_with_later_frames() {
    let frames = vec![frame(0, &[82]), frame(1024, &[164]), frame(2048, &[82])];
    let fps = generate_audio_fingerprint(&frames, 11025, 2048);
    assert_eq!(
        fps,
        vec![
            // 441 Hz -> 9, 883 Hz -> 18, 0.093 s -> 1
            FingerprintInfo { hash: 9_663_971_329, anchor_time_us: 0, song_id: 0 },
            // 441 Hz -> 9, 441 Hz -> 9, 0.186 s -> 2
            FingerprintInfo { hash: 9_663_823_874, anchor_time_us: 0, song_id: 0 },
            // 883 Hz -> 18, 441 Hz -> 9, 0.093 s -> 1
            FingerprintInfo { hash: 19_327_500_289, anchor_time_us: 92_880, song_id: 0 },
        ]
    );
}

#[test]
fn target_zone_reaches_fifty_nine_frames_ahead() {
    let frames: Vec<FFTDistribution> = (0..62).map(|i| frame(i * 1024, &[82])).collect();
    let fps = generate_audio_fingerprint(&frames, 11025, 2048);
    // Frames 0, 1 and 2 reach 59 frames each; frame 3 onwards the end cuts the zone.
    assert_eq!(fps.len(), 3 * 59 + (0..59).sum::<usize>());
    assert_eq!(fps.iter().filter(|f| f.anchor_time_us == 0).count(), 59);
    // The last target of frame 0 is frame 59: 59 * 1024 / 11025 s = 5.48 s -> 55.
    assert_eq!(fps[58].hash & 0x3FFF, 55);
}

#[test]
fn frames_that_do_not_start_later_are_not_targets() {
    let frames = vec![frame(2048, &[82, 164]), frame(2048, &[82]), frame(1024, &[82])];
    assert!(generate_audio_fingerprint(&frames, 11025, 2048).is_empty());
}

#[test]
fn generate_audio_fingerprint_of_no_frames_is_empty() {
    assert!(generate_audio_fingerprint(&Vec::new(), 11025, 2048).is_empty());
}
