//! Short-time spectrum analysis: frame layout and spectral peak selection.
//!
//! The transform itself is computed on floating-point samples outside this
//! crate. What reaches it here is, for each frame, the first half of the
//! magnitude spectrum as fixed-point integers (one value per FFT bin). Bin `k`
//! of a frame of `N` samples taken at `fs` hertz stands for the frequency
//! `k * fs / N`; every rule below is stated over that exact ratio.
use crate::ranking::{lemma_top_k_exists, top_k, top_k_of};
use vstd::prelude::*;

verus! {

/// Peaks are kept only above this frequency, in hertz.
pub const MIN_PEAK_FREQ_HZ: u64 = 20;

/// Peaks are kept only below this frequency, in hertz.
pub const MAX_PEAK_FREQ_HZ: u64 = 5000;

/// Lower edge of the mid band, in hertz.
pub const MID_BAND_START_HZ: u64 = 300;

/// Lower edge of the high band, in hertz.
pub const HIGH_BAND_START_HZ: u64 = 2000;

/// At most this many peaks are kept per band and frame.
pub const MAX_PEAKS_PER_BAND: usize = 5;

/// Frequency limits of the range in which spectral peaks are kept.
pub enum FreqRange {
    Low,
    High,
}

impl FreqRange {
    /// The limit in hertz.
    pub fn get_freq(&self) -> (r: u32)
        ensures
            r == match self {
                FreqRange::Low => MIN_PEAK_FREQ_HZ,
                FreqRange::High => MAX_PEAK_FREQ_HZ,
            },
    {
        match self {
            FreqRange::Low => 20,
            FreqRange::High => 5000,
        }
    }
}

/// One spectral peak of a frame.
#[derive(Clone, Copy, Debug, PartialEq, Eq, Structural)]
pub struct PeakInfo {
    /// FFT bin of the peak; its frequency is `bin * sample_rate / chunk_size`.
    pub bin: usize,
    /// Magnitude of the bin, in the fixed-point scale of the spectrum it came from.
    pub magnitude: u32,
}

/// The peaks of one frame, with the frame's first sample.
#[derive(Debug)]
pub struct FFTDistribution {
    /// Index of the frame's first sample; the frame starts at `position / sample_rate` seconds.
    pub position: usize,
    pub peaks: Vec<PeakInfo>,
}

/// Why a transform configuration was refused.
#[derive(Clone, Copy, Debug, PartialEq, Eq, Structural)]
pub enum FftError {
    /// The radix-2 transform needs a frame length that is a power of two.
    ChunkSizeNotPowerOfTwo,
    /// Consecutive frames must advance: the overlap has to be shorter than a frame.
    OverlapNotBelowChunkSize,
}

/// The three frequency bands in which peaks compete.
#[derive(Clone, Copy, Debug, PartialEq, Eq, Structural)]
pub enum Band {
    /// 20 Hz to 300 Hz.
    Low,
    /// 300 Hz to 2000 Hz.
    Mid,
    /// 2000 Hz to 5000 Hz.
    High,
}

/// `n` is one of 1, 2, 4, 8, ...
pub open spec fn is_power_of_two(n: nat) -> bool
    decreases n,
{
    if n == 1 {
        true
    } else if n == 0 || n % 2 == 1 {
        false
    } else {
        is_power_of_two(n / 2)
    }
}

/// The frequency of `bin`, `bin * fs / n` hertz, lies strictly between 20 Hz and 5000 Hz.
pub open spec fn in_peak_range(bin: int, fs: int, n: int) -> bool {
    MIN_PEAK_FREQ_HZ * n < bin * fs && bin * fs < MAX_PEAK_FREQ_HZ * n
}

/// The band of the frequency `bin * fs / n`.
pub open spec fn band_of(bin: int, fs: int, n: int) -> Band {
    if bin * fs < MID_BAND_START_HZ * n {
        Band::Low
    } else if bin * fs < HIGH_BAND_START_HZ * n {
        Band::Mid
    } else {
        Band::High
    }
}

/// Bin `i` is a strict local maximum of the magnitudes, with a neighbour on each side.
pub open spec fn is_local_max(m: Seq<u32>, i: int) -> bool {
    &&& 1 <= i
    &&& i + 1 < m.len()
    &&& m[i - 1] < m[i]
    &&& m[i] > m[i + 1]
}

/// The local maxima among bins `0..upto` that lie in the peak range and in
/// `band`, as `(magnitude, bin)` pairs in increasing bin order.
pub open spec fn band_candidates(m: Seq<u32>, fs: int, n: int, band: Band, upto: int) -> Seq<
    (u64, u64),
>
    decreases upto,
{
    if upto <= 0 {
        Seq::empty()
    } else {
        let prev = band_candidates(m, fs, n, band, upto - 1);
        let i = upto - 1;
        if is_local_max(m, i) && in_peak_range(i, fs, n) && band_of(i, fs, n) == band {
            prev.push((m[i] as u64, i as u64))
        } else {
            prev
        }
    }
}

/// The sum of the magnitudes of `c`.
pub open spec fn mag_sum(c: Seq<(u64, u64)>) -> nat
    decreases c.len(),
{
    if c.len() == 0 {
        0
    } else {
        mag_sum(c.drop_last()) + c.last().0 as nat
    }
}

/// The magnitude of `p` exceeds 1.75 times the mean magnitude of `band`.
pub open spec fn is_strong(p: (u64, u64), band: Seq<(u64, u64)>) -> bool {
    4 * band.len() * p.0 > 7 * mag_sum(band)
}

/// The entries among the first `upto` of `c` that are strong within `band`, in order.
pub open spec fn strong_among(c: Seq<(u64, u64)>, band: Seq<(u64, u64)>, upto: int) -> Seq<
    (u64, u64),
>
    decreases upto,
{
    if upto <= 0 {
        Seq::empty()
    } else {
        let prev = strong_among(c, band, upto - 1);
        if is_strong(c[upto - 1], band) {
            prev.push(c[upto - 1])
        } else {
            prev
        }
    }
}

/// The peaks a frame keeps in `band`: its strong candidates, strongest first
/// (lower bin first among equals), at most five.
pub open spec fn band_selection(m: Seq<u32>, fs: int, n: int, band: Band) -> Seq<(u64, u64)> {
    let c = band_candidates(m, fs, n, band, m.len() as int);
    top_k_of(strong_among(c, c, c.len() as int), MAX_PEAKS_PER_BAND as nat)
}

/// The peak that a `(magnitude, bin)` pair stands for.
pub open spec fn peak_of(p: (u64, u64)) -> PeakInfo {
    PeakInfo { bin: p.1 as usize, magnitude: p.0 as u32 }
}

/// The peaks of a frame with half-spectrum magnitudes `m`, frame length `n`
/// and sample rate `fs`: the low band's selection, then the mid band's, then
/// the high band's.
pub open spec fn frame_peaks(m: Seq<u32>, fs: int, n: int) -> Seq<PeakInfo> {
    (band_selection(m, fs, n, Band::Low) + band_selection(m, fs, n, Band::Mid) + band_selection(
        m,
        fs,
        n,
        Band::High,
    )).map_values(|p: (u64, u64)| peak_of(p))
}

/// The number of peaks of `s` whose frequency lies in `band`.
pub open spec fn count_in_band(s: Seq<PeakInfo>, fs: int, n: int, band: Band) -> nat
    decreases s.len(),
{
    if s.len() == 0 {
        0
    } else {
        count_in_band(s.drop_last(), fs, n, band) + if band_of(s.last().bin as int, fs, n)
            == band {
            1nat
        } else {
            0nat
        }
    }
}

proof fn lemma_candidates_facts(m: Seq<u32>, fs: int, n: int, band: Band, upto: int)
    requires
        m.len() <= usize::MAX,
    ensures
        band_candidates(m, fs, n, band, upto).len() <= if upto > 0 {
            upto
        } else {
            0
        },
        forall|j: int|
            0 <= j < band_candidates(m, fs, n, band, upto).len() ==> {
                let p = #[trigger] band_candidates(m, fs, n, band, upto)[j];
                &&& 0 <= p.1 < upto
                &&& is_local_max(m, p.1 as int)
                &&& in_peak_range(p.1 as int, fs, n)
                &&& band_of(p.1 as int, fs, n) == band
                &&& p.0 == m[p.1 as int]
            },
    decreases upto,
{
    if upto > 0 {
        lemma_candidates_facts(m, fs, n, band, upto - 1);
        let prev = band_candidates(m, fs, n, band, upto - 1);
        let cur = band_candidates(m, fs, n, band, upto);
        let i = upto - 1;
        assert forall|j: int| 0 <= j < cur.len() implies {
            let p = #[trigger] cur[j];
            &&& 0 <= p.1 < upto
            &&& is_local_max(m, p.1 as int)
            &&& in_peak_range(p.1 as int, fs, n)
            &&& band_of(p.1 as int, fs, n) == band
            &&& p.0 == m[p.1 as int]
        } by {
            if j < prev.len() {
                assert(cur[j] == prev[j]);
            }
        }
    }
}

proof fn lemma_strong_among_subset(c: Seq<(u64, u64)>, band: Seq<(u64, u64)>, upto: int)
    requires
        upto <= c.len(),
    ensures
        forall|j: int|
            0 <= j < strong_among(c, band, upto).len() ==> c.contains(
                #[trigger] strong_among(c, band, upto)[j],
            ),
    decreases upto,
{
    if upto > 0 {
        lemma_strong_among_subset(c, band, upto - 1);
        let prev = strong_among(c, band, upto - 1);
        let cur = strong_among(c, band, upto);
        assert(c.contains(c[upto - 1]));
        assert forall|j: int| 0 <= j < cur.len() implies c.contains(#[trigger] cur[j]) by {
            if j < prev.len() {
                assert(cur[j] == prev[j]);
            }
        }
    }
}

/// Every peak that a band's selection keeps is a candidate of that band.
proof fn lemma_selection_facts(m: Seq<u32>, fs: int, n: int, band: Band)
    requires
        m.len() <= usize::MAX,
    ensures
        band_selection(m, fs, n, band).len() <= MAX_PEAKS_PER_BAND,
        forall|j: int|
            0 <= j < band_selection(m, fs, n, band).len() ==> {
                let p = #[trigger] band_selection(m, fs, n, band)[j];
                &&& 0 <= p.1 < m.len()
                &&& in_peak_range(p.1 as int, fs, n)
                &&& band_of(p.1 as int, fs, n) == band
                &&& p.0 == m[p.1 as int]
            },
{
    let c = band_candidates(m, fs, n, band, m.len() as int);
    let s = strong_among(c, c, c.len() as int);
    lemma_candidates_facts(m, fs, n, band, m.len() as int);
    lemma_strong_among_subset(c, c, c.len() as int);
    lemma_top_k_exists(s, MAX_PEAKS_PER_BAND as nat);
    let r = band_selection(m, fs, n, band);
    assert forall|j: int| 0 <= j < r.len() implies {
        let p = #[trigger] r[j];
        &&& 0 <= p.1 < m.len()
        &&& in_peak_range(p.1 as int, fs, n)
        &&& band_of(p.1 as int, fs, n) == band
        &&& p.0 == m[p.1 as int]
    } by {
        assert(s.contains(r[j]));
        let js = choose|js: int| 0 <= js < s.len() && s[js] == r[j];
        assert(c.contains(s[js]));
        let jc = choose|jc: int| 0 <= jc < c.len() && c[jc] == s[js];
        assert(c[jc] == r[j]);
    }
}

proof fn lemma_count_in_band_append(a: Seq<PeakInfo>, b: Seq<PeakInfo>, fs: int, n: int, band: Band)
    ensures
        count_in_band(a + b, fs, n, band) == count_in_band(a, fs, n, band) + count_in_band(
            b,
            fs,
            n,
            band,
        ),
    decreases b.len(),
{
    if b.len() > 0 {
        lemma_count_in_band_append(a, b.drop_last(), fs, n, band);
        assert((a + b).drop_last() =~= a + b.drop_last());
        assert((a + b).last() == b.last());
    } else {
        assert(a + b =~= a);
    }
}

proof fn lemma_count_in_band_bounds(s: Seq<PeakInfo>, fs: int, n: int, band: Band)
    ensures
        count_in_band(s, fs, n, band) <= s.len(),
        (forall|j: int| 0 <= j < s.len() ==> band_of(#[trigger] s[j].bin as int, fs, n) != band)
            ==> count_in_band(s, fs, n, band) == 0,
    decreases s.len(),
{
    if s.len() > 0 {
        lemma_count_in_band_bounds(s.drop_last(), fs, n, band);
        if forall|j: int| 0 <= j < s.len() ==> band_of(#[trigger] s[j].bin as int, fs, n) != band {
            assert forall|j: int| 0 <= j < s.drop_last().len() implies band_of(
                #[trigger] s.drop_last()[j].bin as int,
                fs,
                n,
            ) != band by {
                assert(s.drop_last()[j] == s[j]);
            }
            assert(band_of(s[s.len() - 1].bin as int, fs, n) != band);
        }
    }
}

/// No frame keeps more than five peaks in any band, hence at most fifteen in all.
pub proof fn lemma_band_cap(m: Seq<u32>, fs: int, n: int)
    requires
        m.len() <= usize::MAX,
    ensures
        forall|band: Band| #[trigger] count_in_band(frame_peaks(m, fs, n), fs, n, band) <= 5,
        frame_peaks(m, fs, n).len() <= 15,
{
    let lo = band_selection(m, fs, n, Band::Low);
    let mi = band_selection(m, fs, n, Band::Mid);
    let hi = band_selection(m, fs, n, Band::High);
    lemma_selection_facts(m, fs, n, Band::Low);
    lemma_selection_facts(m, fs, n, Band::Mid);
    lemma_selection_facts(m, fs, n, Band::High);
    let f = |p: (u64, u64)| peak_of(p);
    let plo = lo.map_values(f);
    let pmi = mi.map_values(f);
    let phi = hi.map_values(f);
    assert(frame_peaks(m, fs, n) =~= plo + pmi + phi);
    assert forall|band: Band| #[trigger] count_in_band(frame_peaks(m, fs, n), fs, n, band) <= 5 by {
        lemma_count_in_band_append(plo + pmi, phi, fs, n, band);
        lemma_count_in_band_append(plo, pmi, fs, n, band);
        lemma_count_in_band_bounds(plo, fs, n, band);
        lemma_count_in_band_bounds(pmi, fs, n, band);
        lemma_count_in_band_bounds(phi, fs, n, band);
        assert forall|j: int| 0 <= j < plo.len() implies #[trigger] plo[j].bin == lo[j].1 by {
            assert(0 <= lo[j].1 < m.len());
        }
        assert forall|j: int| 0 <= j < pmi.len() implies #[trigger] pmi[j].bin == mi[j].1 by {
            assert(0 <= mi[j].1 < m.len());
        }
        assert forall|j: int| 0 <= j < phi.len() implies #[trigger] phi[j].bin == hi[j].1 by {
            assert(0 <= hi[j].1 < m.len());
        }
    }
}

/// Settings of the short-time transform: frame length and overlap, in samples.
pub struct CooleyTukeyFFT {
    chunk_size: usize,
    overlap_size: usize,
}

impl CooleyTukeyFFT {
    #[verifier::type_invariant]
    spec fn inv(self) -> bool {
        is_power_of_two(self.chunk_size as nat) && self.overlap_size < self.chunk_size
    }

    /// Samples per frame.
    pub closed spec fn spec_chunk_size(self) -> nat {
        self.chunk_size as nat
    }

    /// Samples shared by consecutive frames.
    pub closed spec fn spec_overlap_size(self) -> nat {
        self.overlap_size as nat
    }

    /// Samples between the starts of consecutive frames.
    pub open spec fn spec_hop_size(self) -> int {
        self.spec_chunk_size() - self.spec_overlap_size()
    }

    /// A configuration with frames of `chunk_size` samples, consecutive frames
    /// sharing `overlap_size` of them.
    pub fn new(chunk_size: usize, overlap_size: usize) -> (r: Result<Self, FftError>)
        ensures
            match r {
                Ok(f) => {
                    &&& is_power_of_two(chunk_size as nat)
                    &&& overlap_size < chunk_size
                    &&& f.spec_chunk_size() == chunk_size
                    &&& f.spec_overlap_size() == overlap_size
                },
                Err(FftError::ChunkSizeNotPowerOfTwo) => !is_power_of_two(chunk_size as nat),
                Err(FftError::OverlapNotBelowChunkSize) => {
                    &&& is_power_of_two(chunk_size as nat)
                    &&& overlap_size >= chunk_size
                },
            },
    {
        if !check_power_of_two(chunk_size) {
            Err(FftError::ChunkSizeNotPowerOfTwo)
        } else if overlap_size >= chunk_size {
            Err(FftError::OverlapNotBelowChunkSize)
        } else {
            Ok(CooleyTukeyFFT { chunk_size, overlap_size })
        }
    }

    pub fn chunk_size(&self) -> (r: usize)
        ensures
            r == self.spec_chunk_size(),
            is_power_of_two(r as nat),
    {
        proof {
            use_type_invariant(self);
        }
        self.chunk_size
    }

    pub fn overlap_size(&self) -> (r: usize)
        ensures
            r == self.spec_overlap_size(),
            r < self.spec_chunk_size(),
    {
        proof {
            use_type_invariant(self);
        }
        self.overlap_size
    }

    /// The first sample of each frame that fits in `sample_count` samples:
    /// frame `i` starts at `i * hop`, and frames follow while a whole frame fits.
    pub fn frame_starts(&self, sample_count: usize) -> (r: Vec<usize>)
        ensures
            forall|i: int|
                0 <= i < r.len() ==> #[trigger] r@[i] == i * self.spec_hop_size() && r@[i]
                    + self.spec_chunk_size() <= sample_count,
            r.len() * self.spec_hop_size() + self.spec_chunk_size() > sample_count,
    {
        proof {
            use_type_invariant(self);
        }
        let chunk = self.chunk_size;
        let hop = self.chunk_size - self.overlap_size;
        let mut r: Vec<usize> = Vec::new();
        let mut position: usize = 0;
        assert(r.len() * hop == 0) by (nonlinear_arith)
            requires
                r.len() == 0,
        ;
        while position <= sample_count && sample_count - position >= chunk
            invariant
                hop == self.spec_hop_size(),
                chunk == self.spec_chunk_size(),
                0 < hop <= chunk,
                position == r.len() * hop,
                position <= sample_count || r.len() > 0,
                r.len() > 0 ==> (r.len() - 1) * hop + chunk <= sample_count,
                forall|i: int|
                    0 <= i < r.len() ==> #[trigger] r@[i] == i * self.spec_hop_size() && r@[i]
                        + self.spec_chunk_size() <= sample_count,
            decreases sample_count - r.len() * hop + chunk,
        {
            r.push(position);
            proof {
                assert((r.len() - 1) * hop == position);
                assert(r.len() * hop == position + hop) by (nonlinear_arith)
                    requires
                        (r.len() - 1) * hop == position,
                ;
            }
            position = position + hop;
        }
        proof {
            if position <= sample_count {
                assert(r.len() * hop + chunk > sample_count);
            } else {
                assert((r.len() - 1) * hop + chunk <= sample_count);
                assert(r.len() * hop == (r.len() - 1) * hop + hop) by (nonlinear_arith);
            }
        }
        r
    }

    /// The peaks of one frame, given the first half of its magnitude spectrum
    /// (one fixed-point value per bin) and the sample rate in hertz.
    ///
    /// In each band, the local maxima that lie between 20 Hz and 5000 Hz and
    /// exceed 1.75 times the band's mean are kept, strongest first, at most
    /// five; the low band's peaks come first, then the mid band's, then the
    /// high band's.
    pub fn find_peaks(&self, magnitudes: &Vec<u32>, sample_rate: u32) -> (r: Vec<PeakInfo>)
        requires
            magnitudes.len() == self.spec_chunk_size() / 2,
        ensures
            r@ == frame_peaks(magnitudes@, sample_rate as int, self.spec_chunk_size() as int),
            r.len() <= 15,
            forall|i: int|
                0 <= i < r.len() ==> #[trigger] r@[i].bin < magnitudes.len() && in_peak_range(
                    r@[i].bin as int,
                    sample_rate as int,
                    self.spec_chunk_size() as int,
                ),
    {
        proof {
            use_type_invariant(self);
        }
        let ghost m = magnitudes@;
        let ghost fs = sample_rate as int;
        let ghost n = self.chunk_size as int;
        let half = magnitudes.len();
        let nn = self.chunk_size as u128;
        let mut low: Vec<(u64, u64)> = Vec::new();
        let mut mid: Vec<(u64, u64)> = Vec::new();
        let mut high: Vec<(u64, u64)> = Vec::new();
        let mut i: usize = 0;
        while i < half
            invariant
                m == magnitudes@,
                half == m.len(),
                fs == sample_rate,
                n == nn,
                nn <= usize::MAX,
                i <= half,
                low@ == band_candidates(m, fs, n, Band::Low, i as int),
                mid@ == band_candidates(m, fs, n, Band::Mid, i as int),
                high@ == band_candidates(m, fs, n, Band::High, i as int),
            decreases half - i,
        {
            if i >= 1 && i + 1 < half && magnitudes[i - 1] < magnitudes[i] && magnitudes[i]
                > magnitudes[i + 1] {
                assert((i as u128) * (sample_rate as u128) <= 0x1_0000_0000_0000_0000
                    * 0xFFFF_FFFF) by (nonlinear_arith)
                    requires
                        i <= usize::MAX,
                        sample_rate <= u32::MAX,
                ;
                let f = (i as u128) * (sample_rate as u128);
                proof {
                    assert(f == i * fs) by (nonlinear_arith)
                        requires
                            f == (i as u128) * (sample_rate as u128),
                            fs == sample_rate,
                    ;
                }
                let p = (magnitudes[i] as u64, i as u64);
                if 20 * nn < f && f < 5000 * nn {
                    if f < 300 * nn {
                        low.push(p);
                    } else if f < 2000 * nn {
                        mid.push(p);
                    } else {
                        high.push(p);
                    }
                }
            }
            i = i + 1;
        }
        proof {
            lemma_candidates_facts(m, fs, n, Band::Low, half as int);
            lemma_candidates_facts(m, fs, n, Band::Mid, half as int);
            lemma_candidates_facts(m, fs, n, Band::High, half as int);
        }
        let sel_low = select_strongest(&low);
        let sel_mid = select_strongest(&mid);
        let sel_high = select_strongest(&high);
        let mut r: Vec<PeakInfo> = Vec::new();
        append_peaks(&mut r, &sel_low);
        append_peaks(&mut r, &sel_mid);
        append_peaks(&mut r, &sel_high);
        proof {
            let f = |p: (u64, u64)| peak_of(p);
            assert(r@ =~= (sel_low@ + sel_mid@ + sel_high@).map_values(f));
            lemma_band_cap(m, fs, n);
            lemma_selection_facts(m, fs, n, Band::Low);
            lemma_selection_facts(m, fs, n, Band::Mid);
            lemma_selection_facts(m, fs, n, Band::High);
            let all = sel_low@ + sel_mid@ + sel_high@;
            assert forall|j: int| 0 <= j < r.len() implies #[trigger] r@[j].bin < magnitudes.len()
                && in_peak_range(r@[j].bin as int, fs, n) by {
                assert(r@[j] == peak_of(all[j]));
                if j < sel_low.len() {
                    assert(all[j] == sel_low@[j]);
                } else if j < sel_low.len() + sel_mid.len() {
                    assert(all[j] == sel_mid@[j - sel_low.len()]);
                } else {
                    assert(all[j] == sel_high@[j - sel_low.len() - sel_mid.len()]);
                }
            }
        }
        r
    }

    /// The peaks of consecutive frames, given each frame's half magnitude
    /// spectrum in order: frame `i` starts at sample `i * hop`.
    pub fn generate_freq_time_distribution(&self, spectra: &Vec<Vec<u32>>, sample_rate: u32) -> (r:
        Vec<FFTDistribution>)
        requires
            forall|i: int|
                0 <= i < spectra.len() ==> #[trigger] spectra@[i].len() == self.spec_chunk_size()
                    / 2,
            spectra.len() * self.spec_hop_size() <= usize::MAX,
        ensures
            r.len() == spectra.len(),
            forall|i: int|
                0 <= i < r.len() ==> {
                    &&& #[trigger] r@[i].position == i * self.spec_hop_size()
                    &&& r@[i].peaks@ == frame_peaks(
                        spectra@[i]@,
                        sample_rate as int,
                        self.spec_chunk_size() as int,
                    )
                },
    {
        proof {
            use_type_invariant(self);
        }
        let hop = self.chunk_size - self.overlap_size;
        let mut r: Vec<FFTDistribution> = Vec::new();
        let mut position: usize = 0;
        let mut i: usize = 0;
        while i < spectra.len()
            invariant
                hop == self.spec_hop_size(),
                0 < hop,
                spectra.len() * self.spec_hop_size() <= usize::MAX,
                forall|i: int|
                    0 <= i < spectra.len() ==> #[trigger] spectra@[i].len()
                        == self.spec_chunk_size() / 2,
                i <= spectra.len(),
                r.len() == i,
                i < spectra.len() ==> position == i * hop,
                forall|j: int|
                    0 <= j < i ==> {
                        &&& #[trigger] r@[j].position == j * self.spec_hop_size()
                        &&& r@[j].peaks@ == frame_peaks(
                            spectra@[j]@,
                            sample_rate as int,
                            self.spec_chunk_size() as int,
                        )
                    },
            decreases spectra.len() - i,
        {
            let peaks = self.find_peaks(&spectra[i], sample_rate);
            r.push(FFTDistribution { position, peaks });
            proof {
                assert((i + 1) * hop <= spectra.len() * hop) by (nonlinear_arith)
                    requires
                        i + 1 <= spectra.len(),
                        0 < hop,
                ;
                assert((i + 1) * hop == i * hop + hop) by (nonlinear_arith);
            }
            if i + 1 < spectra.len() {
                position = position + hop;
            }
            i = i + 1;
        }
        r
    }
}

impl Default for CooleyTukeyFFT {
    /// Frames of 2048 samples, overlapping by half.
    fn default() -> (r: Self)
        ensures
            r.spec_chunk_size() == 2048,
            r.spec_overlap_size() == 1024,
    {
        proof {
            reveal_with_fuel(is_power_of_two, 12);
        }
        CooleyTukeyFFT { chunk_size: 2048, overlap_size: 1024 }
    }
}

fn check_power_of_two(n: usize) -> (r: bool)
    ensures
        r == is_power_of_two(n as nat),
{
    if n == 0 {
        return false;
    }
    let mut m = n;
    while m > 1 && m % 2 == 0
        invariant
            m >= 1,
            is_power_of_two(n as nat) == is_power_of_two(m as nat),
        decreases m,
    {
        m = m / 2;
    }
    m == 1
}

/// The strong entries of a band's candidates, strongest first, at most five.
fn select_strongest(c: &Vec<(u64, u64)>) -> (r: Vec<(u64, u64)>)
    requires
        forall|j: int| 0 <= j < c.len() ==> #[trigger] c@[j].0 <= u32::MAX,
    ensures
        r@ == top_k_of(strong_among(c@, c@, c.len() as int), MAX_PEAKS_PER_BAND as nat),
{
    let mut sum: u128 = 0;
    let mut j: usize = 0;
    while j < c.len()
        invariant
            j <= c.len(),
            forall|j: int| 0 <= j < c.len() ==> #[trigger] c@[j].0 <= u32::MAX,
            sum == mag_sum(c@.subrange(0, j as int)),
            sum <= j * 0xFFFF_FFFF,
        decreases c.len() - j,
    {
        assert(c@.subrange(0, j + 1).drop_last() =~= c@.subrange(0, j as int));
        sum = sum + c[j].0 as u128;
        j = j + 1;
    }
    assert(c@.subrange(0, c.len() as int) =~= c@);
    let count = c.len() as u128;
    let mut strong: Vec<(u64, u64)> = Vec::new();
    let mut j: usize = 0;
    while j < c.len()
        invariant
            j <= c.len(),
            count == c.len(),
            sum == mag_sum(c@),
            sum <= c.len() * 0xFFFF_FFFF,
            forall|j: int| 0 <= j < c.len() ==> #[trigger] c@[j].0 <= u32::MAX,
            strong@ == strong_among(c@, c@, j as int),
        decreases c.len() - j,
    {
        let p = c[j];
        assert(4 * count * (p.0 as u128) <= 4 * 0x1_0000_0000_0000_0000 * 0xFFFF_FFFF)
            by (nonlinear_arith)
            requires
                count <= usize::MAX,
                p.0 <= u32::MAX,
        ;
        assert(7 * sum <= 7 * 0x1_0000_0000_0000_0000 * 0xFFFF_FFFF) by (nonlinear_arith)
            requires
                sum <= count * 0xFFFF_FFFF,
                count <= usize::MAX,
        ;
        if 4 * count * (p.0 as u128) > 7 * sum {
            strong.push(p);
        }
        j = j + 1;
    }
    top_k(&strong, MAX_PEAKS_PER_BAND)
}

fn append_peaks(r: &mut Vec<PeakInfo>, sel: &Vec<(u64, u64)>)
    ensures
        final(r)@ == old(r)@ + sel@.map_values(|p: (u64, u64)| peak_of(p)),
{
    let ghost start = r@;
    let mut j: usize = 0;
    while j < sel.len()
        invariant
            j <= sel.len(),
            r@ == start + sel@.subrange(0, j as int).map_values(|p: (u64, u64)| peak_of(p)),
        decreases sel.len() - j,
    {
        let p = sel[j];
        r.push(PeakInfo { bin: p.1 as usize, magnitude: p.0 as u32 });
        assert(sel@.subrange(0, j + 1).map_values(|p: (u64, u64)| peak_of(p)) =~= sel@.subrange(
            0,
            j as int,
        ).map_values(|p: (u64, u64)| peak_of(p)).push(peak_of(p)));
        j = j + 1;
    }
    assert(sel@.subrange(0, sel.len() as int) =~= sel@);
}

} // verus!
