use audio_fingerprint::fft::{CooleyTukeyFFT, FftError, FreqRange, PeakInfo};

fn config(chunk: usize, overlap: usize) -> CooleyTukeyFFT {
    match CooleyTukeyFFT::new(chunk, overlap) {
        Ok(f) => f,
        Err(e) => panic!("configuration refused: {:?}", e),
    }
}

#[test]
fn new_rejects_chunk_size_not_power_of_two() {
    assert!(matches!(CooleyTukeyFFT::new(1500, 750), Err(FftError::ChunkSizeNotPowerOfTwo)));
    assert!(matches!(CooleyTukeyFFT::new(0, 0), Err(FftError::ChunkSizeNotPowerOfTwo)));
    assert!(matches!(CooleyTukeyFFT::new(3, 1), Err(FftError::ChunkSizeNotPowerOfTwo)));
    assert!(matches!(CooleyTukeyFFT::new(2047, 2000), Err(FftError::ChunkSizeNotPowerOfTwo)));
}

#[test]
fn new_rejects_overlap_not_below_chunk_size() {
    assert!(matches!(CooleyTukeyFFT::new(1024, 1024), Err(FftError::OverlapNotBelowChunkSize)));
    assert!(matches!(CooleyTukeyFFT::new(1024, 5000), Err(FftError::OverlapNotBelowChunkSize)));
}

#[test]
fn new_accepts_power_of_two_frames() {
    let f = config(4096, 1024);
    assert_eq!(f.chunk_size(), 4096);
    assert_eq!(f.overlap_size(), 1024);
    let one = config(1, 0);
    assert_eq!(one.chunk_size(), 1);
}

#[test]
fn default_uses_2048_sample_frames_overlapping_by_half() {
    let f = CooleyTukeyFFT::default();
    assert_eq!(f.chunk_size(), 2048);
    assert_eq!(f.overlap_size(), 1024);
}

#[test]
fn freq_range_limits_in_hertz() {
    assert_eq!(FreqRange::Low.get_freq(), 20);
    assert_eq!(FreqRange::High.get_freq(), 5000);
}

#[test]
fn frame_starts_stop_before_a_partial_frame() {
    let f = config(4, 2);
    assert_eq!(f.frame_starts(9), vec![0, 2, 4]);
    assert_eq!(f.frame_starts(8), vec![0, 2, 4]);
    assert_eq!(f.frame_starts(4), vec![0]);
    assert_eq!(f.frame_starts(3), Vec::<usize>::new());
    assert_eq!(f.frame_starts(0), Vec::<usize>::new());
    // Five seconds at 11025 Hz hold 52 whole frames of 2048 samples, 1024 apart.
    let d = CooleyTukeyFFT::default();
    let starts = d.frame_starts(55125);
    assert_eq!(starts.len(), 52);
    assert_eq!(starts[51], 51 * 1024);
}

/// 32 bins of 100 Hz each: frames of 64 samples at 6400 Hz.
fn hundred_hz_bins() -> Vec<u32> {
    let mut m = vec![0u32; 32];
    // Low band (100 Hz): a lone candidate is never 1.75 times its own mean.
    m[1] = 5;
    // Mid band: nine candidates, mean 404 / 9; only 100, 90 and 80 exceed 1.75 times it.
    for (bin, mag) in [(3, 1), (5, 1), (7, 100), (9, 1), (11, 90), (13, 1), (15, 80), (17, 70), (19, 60)] {
        m[bin] = mag;
    }
    // High band: 30 against a mean of 42 / 5.
    for (bin, mag) in [(21, 3), (23, 3), (25, 3), (27, 3), (29, 30)] {
        m[bin] = mag;
    }
    m
}

#[test]
fn find_peaks_keeps_strong_local_maxima_per_band() {
    let f = config(64, 32);
    let peaks = f.find_peaks(&hundred_hz_bins(), 6400);
    assert_eq!(
        peaks,
        vec![
            PeakInfo { bin: 7, magnitude: 100 },
            PeakInfo { bin: 11, magnitude: 90 },
            PeakInfo { bin: 15, magnitude: 80 },
            PeakInfo { bin: 29, magnitude: 30 },
        ]
    );
}

#[test]
fn find_peaks_caps_each_band_at_five_lower_bins_first_among_equals() {
    // 128 bins of 10 Hz each: frames of 256 samples at 2560 Hz.
    let f = config(256, 128);
    let mut m = vec![0u32; 128];
    for bin in (3..30).step_by(2) {
        m[bin] = 2;
    }
    for bin in (31..126).step_by(2) {
        m[bin] = 1;
    }
    for bin in [41, 51, 61, 71, 81, 91, 101, 111] {
        m[bin] = 1000;
    }
    let peaks = f.find_peaks(&m, 2560);
    let expected: Vec<PeakInfo> =
        [41, 51, 61, 71, 81].iter().map(|&bin| PeakInfo { bin, magnitude: 1000 }).collect();
    assert_eq!(peaks, expected);
    assert!(peaks.len() <= 15);
}

#[test]
fn find_peaks_excludes_the_20_hz_limit_itself() {
    // Bins of 20 Hz: bin 1 lies exactly at 20 Hz and is never a peak.
    let f = config(64, 32);
    let mut m = vec![0u32; 32];
    m[1] = 1000;
    m[3] = 1;
    m[5] = 1;
    m[7] = 1;
    assert_eq!(f.find_peaks(&m, 1280), Vec::<PeakInfo>::new());
}

#[test]
fn find_peaks_of_silence_is_empty() {
    let f = CooleyTukeyFFT::default();
    assert!(f.find_peaks(&vec![0u32; 1024], 11025).is_empty());
}

#[test]
fn generate_freq_time_distribution_places_frames_a_hop_apart() {
    let f = config(64, 16);
    let spectra = vec![vec![0u32; 32], hundred_hz_bins(), vec![7u32; 32]];
    let frames = f.generate_freq_time_distribution(&spectra, 6400);
    assert_eq!(frames.len(), 3);
    assert_eq!(frames[0].position, 0);
    assert_eq!(frames[1].position, 48);
    assert_eq!(frames[2].position, 96);
    assert!(frames[0].peaks.is_empty());
    assert_eq!(frames[1].peaks, f.find_peaks(&hundred_hz_bins(), 6400));
    assert_eq!(frames[1].peaks.len(), 4);
    assert!(frames[2].peaks.is_empty());
}
