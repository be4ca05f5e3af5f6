//! Monophonic pitch detection by bitstream autocorrelation.
use vstd::prelude::*;

pub mod bitstream;
pub mod edges;
pub mod executor;
pub mod lag;
pub mod lag_laws;
pub mod ring;

pub use crate::bitstream::Level;

use crate::bitstream::{
    bit_at, compared_words, set_by_high, correlation, count_ones, flag_after, lemma_mismatches_bound,
    lemma_mismatches_monotone, lemma_word_mismatches, mismatches, pack, packed_bitstream,
    shifted_word,
};
use crate::lag::{chosen_lag, falls_at, falls_then_rises, is_trough, window_count};

verus! {

/// Errors that can occur when constructing a [`Phonk`] instance.
#[derive(Debug)]
pub enum PhonkError {
    /// The batch size `N` must be greater than 1.
    BatchSizeTooSmall,
    /// The batch size `N` must be a multiple of 2.
    BatchSizeNotEven,
    /// The sample rate must be greater than 1 Hz.
    InvalidSampleRate,
    /// The maximum frequency must be greater than the derived minimum frequency.
    MaxFreqNotAboveMinFreq,
    /// The maximum frequency implies a minimum period that does not fit within the batch size.
    MaxFreqPeriodOutOfBounds,
}

/// The minimum period in samples for the maximum detectable frequency: `sample_rate / max_freq`
/// rounded up.
pub open spec fn min_period_of(sample_rate: u32, max_freq: u32) -> int {
    (sample_rate as int + max_freq as int - 1) / (max_freq as int)
}

/// The maximum period in samples for the minimum detectable frequency: `sample_rate / min_freq`
/// rounded down.
pub open spec fn max_period_of(sample_rate: u32, min_freq: u32) -> int {
    sample_rate as int / min_freq as int
}

/// Whether construction reaches the check on the maximum period, which divides by `min_freq`.
pub open spec fn reaches_max_period_check(
    n: usize,
    sample_rate: u32,
    min_freq: u32,
    max_freq: u32,
) -> bool {
    &&& n > 1
    &&& n % 2 == 0
    &&& sample_rate > 1
    &&& max_freq > min_freq
    &&& min_period_of(sample_rate, max_freq) < (n as u32) / 2
}

/// The error that construction reports for these parameters, if any.
pub open spec fn construction_error(
    n: usize,
    sample_rate: u32,
    min_freq: u32,
    max_freq: u32,
) -> Option<PhonkError> {
    if n <= 1 {
        Some(PhonkError::BatchSizeTooSmall)
    } else if n % 2 != 0 {
        Some(PhonkError::BatchSizeNotEven)
    } else if sample_rate <= 1 {
        Some(PhonkError::InvalidSampleRate)
    } else if max_freq <= min_freq {
        Some(PhonkError::MaxFreqNotAboveMinFreq)
    } else if min_period_of(sample_rate, max_freq) >= (n as u32) / 2 {
        Some(PhonkError::MaxFreqPeriodOutOfBounds)
    } else if max_period_of(sample_rate, min_freq) <= 1 {
        Some(PhonkError::MaxFreqPeriodOutOfBounds)
    } else {
        None
    }
}

/// The correlation curve over `num_lags` lags: the autocorrelation of `bits` at every lag from
/// `min_p` up to, and not including, `max_p`, and zero elsewhere.
pub open spec fn correlation_curve(bits: Seq<u64>, min_p: int, max_p: int, num_lags: nat) -> Seq<
    u32,
> {
    Seq::new(
        num_lags,
        |lag: int|
            if min_p <= lag < max_p {
                correlation(bits, lag) as u32
            } else {
                0
            },
    )
}

/// `x / y` rounded up.
pub fn div_ceil(x: u32, y: u32) -> (r: u32)
    requires
        y > 0,
    ensures
        r == (x as int + y as int - 1) / (y as int),
{
    let q = x / y;
    let r = if x % y != 0 {
        assert(q < u32::MAX) by (nonlinear_arith)
            requires
                q == x / y,
                x % y != 0,
                y > 0,
        ;
        q + 1
    } else {
        q
    };
    proof {
        let s = x as int;
        let m = y as int;
        assert(s == m * (s / m) + s % m) by (nonlinear_arith)
            requires
                m > 0,
        ;
        assert((s + m - 1) / m == r) by (nonlinear_arith)
            requires
                m > 0,
                s == m * (s / m) + s % m,
                0 <= s % m < m,
                r == (if s % m != 0 {
                    s / m + 1
                } else {
                    s / m
                }),
        ;
    }
    r
}

/// What a [`Phonk`] holds, seen as plain values.
pub struct PhonkView {
    pub sample_rate: u32,
    pub min_freq: u32,
    pub max_freq: u32,
    /// The packed zero-crossing bits of the last batch, most significant bit first.
    pub bitstream: Seq<u64>,
    /// The autocorrelation of the bitstream, indexed by lag.
    pub correlations: Seq<u32>,
}

/// This struct controls an instance of a bitstream autocorrelator which performs monophonic
/// pitch detection. The batch size `N` is fixed at compile time; `W = (N + 63) / 64` is the
/// number of 64-bit words that hold a batch of bits and `L = N / 2` the number of lags.
pub struct Phonk<const N: usize, const W: usize, const L: usize> {
    sample_rate: u32,
    min_freq: u32,
    max_freq: u32,
    bitstream: [u64; W],
    correlations: [u32; L],
}

impl<const N: usize, const W: usize, const L: usize> View for Phonk<N, W, L> {
    type V = PhonkView;

    closed spec fn view(&self) -> PhonkView {
        PhonkView {
            sample_rate: self.sample_rate,
            min_freq: self.min_freq,
            max_freq: self.max_freq,
            bitstream: self.bitstream@,
            correlations: self.correlations@,
        }
    }
}

impl<const N: usize, const W: usize, const L: usize> Phonk<N, W, L> {
    /// The relation between the three sizes, and the accepted parameters.
    pub open spec fn wf(self) -> bool {
        &&& W == (N + 63) / 64
        &&& L == N / 2
        &&& self@.bitstream.len() == W
        &&& self@.correlations.len() == L
        &&& construction_error(N, self@.sample_rate, self@.min_freq, self@.max_freq) is None
        &&& self@.min_freq > 0
        &&& forall|i: int| 0 <= i < L ==> self@.correlations[i] <= 64 * W
        &&& forall|i: int|
            0 <= i < L && !(self.min_period_spec() <= i < self.max_period_spec())
                ==> self@.correlations[i] == 0
    }

    /// The minimum period of this detector, in samples.
    pub open spec fn min_period_spec(self) -> int {
        min_period_of(self@.sample_rate, self@.max_freq)
    }

    /// The maximum period of this detector, in samples.
    pub open spec fn max_period_spec(self) -> int {
        max_period_of(self@.sample_rate, self@.min_freq)
    }

    /// Construct with the sizes related as `W = (N + 63) / 64` and `L = N / 2`.
    pub fn new(sample_rate: u32, min_freq: u32, max_freq: u32) -> (r: Result<Self, PhonkError>)
        requires
            W == (N + 63) / 64,
            L == N / 2,
            reaches_max_period_check(N, sample_rate, min_freq, max_freq) ==> min_freq > 0,
        ensures
            match r {
                Ok(p) => {
                    &&& construction_error(N, sample_rate, min_freq, max_freq) is None
                    &&& p@.sample_rate == sample_rate
                    &&& p@.min_freq == min_freq
                    &&& p@.max_freq == max_freq
                    &&& p@.bitstream == Seq::new(W as nat, |i: int| 0u64)
                    &&& p@.correlations == Seq::new(L as nat, |i: int| 0u32)
                    &&& p.wf()
                },
                Err(e) => construction_error(N, sample_rate, min_freq, max_freq) == Some(e),
            },
            (r matches Err(PhonkError::BatchSizeTooSmall)) <==> N <= 1,
            (r matches Err(PhonkError::BatchSizeNotEven)) <==> N > 1 && N % 2 == 1,
            (r matches Err(PhonkError::InvalidSampleRate)) <==> N > 1 && N % 2 == 0 && sample_rate
                <= 1,
            (r matches Err(PhonkError::MaxFreqNotAboveMinFreq)) <==> N > 1 && N % 2 == 0
                && sample_rate > 1 && max_freq <= min_freq,
            (r matches Err(PhonkError::MaxFreqPeriodOutOfBounds)) <==> N > 1 && N % 2 == 0
                && sample_rate > 1 && max_freq > min_freq && ((sample_rate as int + max_freq as int
                - 1) / (max_freq as int) >= (N as u32) / 2 || (min_freq >= 1 && sample_rate as int
                / (min_freq as int) <= 1)),
            (r is Ok) <==> N > 1 && N % 2 == 0 && sample_rate > 1 && max_freq > min_freq
                && min_freq >= 1 && (sample_rate as int + max_freq as int - 1) / (max_freq as int)
                < (N as u32) / 2 && sample_rate as int / (min_freq as int) > 1,
    {
        if N <= 1 {
            return Err(PhonkError::BatchSizeTooSmall);
        }
        if N % 2 != 0 {
            return Err(PhonkError::BatchSizeNotEven);
        }
        if sample_rate <= 1 {
            return Err(PhonkError::InvalidSampleRate);
        }
        if max_freq <= min_freq {
            return Err(PhonkError::MaxFreqNotAboveMinFreq);
        }
        let phonk = Phonk {
            sample_rate,
            min_freq,
            max_freq,
            bitstream: [0u64;W],
            correlations: [0u32;L],
        };
        assert(phonk@.bitstream =~= Seq::new(W as nat, |i: int| 0u64));
        assert(phonk@.correlations =~= Seq::new(L as nat, |i: int| 0u32));
        if phonk.min_period() >= N as u32 / 2 {
            return Err(PhonkError::MaxFreqPeriodOutOfBounds);
        }
        if phonk.max_period() <= 1 {
            return Err(PhonkError::MaxFreqPeriodOutOfBounds);
        }
        Ok(phonk)
    }

    /// Whether construction with these parameters gets as far as dividing by a zero minimum
    /// frequency: the inputs that [`Phonk::new`] does not accept.
    pub fn divides_by_zero(sample_rate: u32, min_freq: u32, max_freq: u32) -> (r: bool)
        ensures
            r == (reaches_max_period_check(N, sample_rate, min_freq, max_freq) && min_freq == 0),
    {
        if N <= 1 || N % 2 != 0 || sample_rate <= 1 || max_freq <= min_freq || min_freq != 0 {
            return false;
        }
        let min_period = div_ceil(sample_rate, max_freq);
        min_period < N as u32 / 2
    }

    /// The minimum period in samples corresponding to the maximum detectable frequency.
    pub fn min_period(&self) -> (r: u32)
        requires
            self@.max_freq > 0,
        ensures
            r == min_period_of(self@.sample_rate, self@.max_freq),
    {
        div_ceil(self.sample_rate, self.max_freq)
    }

    /// The maximum period in samples corresponding to the minimum detectable frequency.
    pub fn max_period(&self) -> (r: u32)
        requires
            self@.min_freq > 0,
        ensures
            r == max_period_of(self@.sample_rate, self@.min_freq),
    {
        self.sample_rate / self.min_freq
    }

    /// Pack the zero-crossing state of a batch into the bitstream, one bit per sample, the
    /// first sample of each word in its most significant bit. The samples after the last
    /// whole word fill the top bits of the last word.
    pub fn zero_cross(&mut self, levels: &[Level])
        requires
            old(self).wf(),
            levels@.len() == N,
        ensures
            final(self).wf(),
            final(self)@.sample_rate == old(self)@.sample_rate,
            final(self)@.min_freq == old(self)@.min_freq,
            final(self)@.max_freq == old(self)@.max_freq,
            final(self)@.correlations == old(self)@.correlations,
            final(self)@.bitstream == packed_bitstream(levels@, W as nat),
            forall|k: int|
                0 <= k < N ==> bit_at(final(self)@.bitstream, k) == flag_after(levels@, k),
            forall|k: int|
                0 <= k < N ==> bit_at(final(self)@.bitstream, k) == set_by_high(levels@, k),
            forall|k: int|
                0 <= k < N && (forall|j: int| 0 <= j <= k ==> #[trigger] levels@[j] is Hold)
                    ==> !bit_at(final(self)@.bitstream, k),
    {
        let mut word: u64 = 0;
        let mut bit_index: usize = 0;
        let mut word_index: usize = 0;
        let mut flag = false;
        let mut k: usize = 0;
        while k < levels.len()
            invariant
                old(self).wf(),
                levels@.len() == N,
                W == (N + 63) / 64,
                k <= N,
                k == 64 * word_index + bit_index,
                bit_index < 64,
                flag == flag_after(levels@, k - 1),
                word == pack(levels@, 64 * word_index, bit_index as nat),
                self.sample_rate == old(self).sample_rate,
                self.min_freq == old(self).min_freq,
                self.max_freq == old(self).max_freq,
                self.correlations == old(self).correlations,
                self@.bitstream.len() == W,
                forall|w: int|
                    0 <= w < word_index ==> self@.bitstream[w] == pack(levels@, 64 * w, 64),
                forall|w: int|
                    word_index <= w < W ==> self@.bitstream[w] == old(self)@.bitstream[w],
            decreases N - k,
        {
            flag = match levels[k] {
                Level::High => true,
                Level::Low => false,
                Level::Hold => flag,
            };
            let f: u64 = if flag {
                1
            } else {
                0
            };
            word = (word << 1u64) | f;
            bit_index = bit_index + 1;
            if bit_index == 64 {
                proof {
                    lemma_word_index_bound(word_index as int, N as int, k as int);
                }
                self.bitstream[word_index] = word;
                word_index = word_index + 1;
                bit_index = 0;
                word = 0;
            }
            k = k + 1;
        }
        proof {
            crate::bitstream::lemma_split_position(word_index as int, bit_index as int);
            lemma_words_cover(N as int, W as int, word_index as int, bit_index as int);
        }
        if bit_index > 0 {
            self.bitstream[word_index] = word << ((64 - bit_index) as u64);
        }
        proof {
            assert forall|w: int| 0 <= w < W implies self@.bitstream[w] == packed_bitstream(
                levels@,
                W as nat,
            )[w] by {
                assert(64 * w < N) by (nonlinear_arith)
                    requires
                        W == (N + 63) / 64,
                        w < W,
                        N > 0,
                ;
                if w < word_index {
                    assert(64 * w + 64 <= N) by (nonlinear_arith)
                        requires
                            w < word_index,
                            N == 64 * word_index + bit_index,
                    ;
                } else {
                    assert(w == word_index) by (nonlinear_arith)
                        requires
                            w >= word_index,
                            64 * w < N,
                            N == 64 * word_index + bit_index,
                            bit_index < 64,
                    ;
                }
            }
            assert(self@.bitstream =~= packed_bitstream(levels@, W as nat));
            assert forall|k: int| 0 <= k < N implies bit_at(self@.bitstream, k) == flag_after(
                levels@,
                k,
            ) && bit_at(self@.bitstream, k) == set_by_high(levels@, k) by {
                assert(k < 64 * W) by (nonlinear_arith)
                    requires
                        W == (N + 63) / 64,
                        k < N,
                ;
                crate::bitstream::lemma_packed_bits(levels@, W as nat, k);
                crate::bitstream::lemma_flag_after_meaning(levels@, k);
            }
            assert forall|k: int|
                0 <= k < N && (forall|j: int| 0 <= j <= k ==> #[trigger] levels@[j] is Hold)
                    implies !bit_at(self@.bitstream, k) by {
                crate::bitstream::lemma_quiet_start(levels@, k);
            }
        }
    }

    /// Compute the autocorrelation of the bitstream at every lag from the minimum period up
    /// to, and not including, the maximum period.
    pub fn autocorrelate(&mut self)
        requires
            old(self).wf(),
            old(self).max_period_spec() <= L,
            forall|lag: int|
                old(self).min_period_spec() <= lag < old(self).max_period_spec() ==> correlation(
                    old(self)@.bitstream,
                    lag,
                ) <= u32::MAX,
        ensures
            final(self).wf(),
            final(self)@.sample_rate == old(self)@.sample_rate,
            final(self)@.min_freq == old(self)@.min_freq,
            final(self)@.max_freq == old(self)@.max_freq,
            final(self)@.bitstream == old(self)@.bitstream,
            final(self)@.correlations == correlation_curve(
                old(self)@.bitstream,
                old(self).min_period_spec(),
                old(self).max_period_spec(),
                L as nat,
            ),
    {
        let min_p = self.min_period();
        let max_p = self.max_period();
        let ghost bits = self@.bitstream;
        let mut lag = min_p;
        while lag < max_p
            invariant
                old(self).wf(),
                max_p == old(self).max_period_spec(),
                min_p == old(self).min_period_spec(),
                max_p <= L,
                forall|l: int| min_p <= l < max_p ==> correlation(bits, l) <= u32::MAX,
                min_p <= lag,
                lag <= max_p || lag == min_p,
                self.sample_rate == old(self).sample_rate,
                self.min_freq == old(self).min_freq,
                self.max_freq == old(self).max_freq,
                self@.bitstream == bits,
                bits == old(self)@.bitstream,
                self@.correlations.len() == L,
                forall|l: int|
                    0 <= l < L ==> self@.correlations[l] == if min_p <= l < lag {
                        correlation(bits, l) as u32
                    } else {
                        old(self)@.correlations[l]
                    },
                forall|l: int|
                    0 <= l < L ==> self@.correlations[l] <= 64 * W,
            decreases max_p - lag,
        {
            let word_shift: usize = (lag / 64) as usize;
            let bit_shift: u64 = (lag % 64) as u64;
            let limit = W.saturating_sub(word_shift + 1);
            let mut sum: u32 = 0;
            let mut i: usize = 0;
            while i < limit
                invariant
                    old(self).wf(),
                    correlation(bits, lag as int) <= u32::MAX,
                    self@.bitstream == bits,
                    bits.len() == W,
                    limit == compared_words(W as int, lag as int),
                    word_shift == lag / 64,
                    bit_shift == lag % 64,
                    i <= limit,
                    sum == mismatches(bits, lag as int, (64 * i) as nat),
                decreases limit - i,
            {
                let a = self.bitstream[i];
                let b = if bit_shift == 0 {
                    self.bitstream[i + word_shift]
                } else {
                    (self.bitstream[i + word_shift] << bit_shift) | (self.bitstream[i
                        + word_shift + 1] >> (64 - bit_shift))
                };
                proof {
                    assert(b == shifted_word(bits, i as int, word_shift as int, bit_shift));
                    lemma_word_mismatches(bits, i as int, word_shift as int, bit_shift, 64);
                    assert(lag as int == 64 * word_shift + bit_shift);
                    lemma_mismatches_monotone(
                        bits,
                        lag as int,
                        (64 * (i + 1)) as nat,
                        (64 * limit) as nat,
                    );
                }
                let c = count_ones(a ^ b);
                sum = sum + c;
                i = i + 1;
            }
            proof {
                lemma_mismatches_bound(bits, lag as int, (64 * limit) as nat);
            }
            self.correlations[lag as usize] = sum;
            lag = lag + 1;
        }
        proof {
            assert(self@.correlations =~= correlation_curve(
                bits,
                min_p as int,
                max_p as int,
                L as nat,
            ));
        }
    }

    /// Run the integer part of pitch detection on a batch: pack its zero crossings, compute
    /// the autocorrelation over the detectable periods, and choose the period. What it returns
    /// and leaves behind depends on the parameters and this batch alone.
    pub fn detect_lag(&mut self, levels: &[Level]) -> (r: Option<usize>)
        requires
            old(self).wf(),
            levels@.len() == N,
            old(self).max_period_spec() <= L,
            256 * W <= u32::MAX,
        ensures
            final(self).wf(),
            final(self)@.sample_rate == old(self)@.sample_rate,
            final(self)@.min_freq == old(self)@.min_freq,
            final(self)@.max_freq == old(self)@.max_freq,
            final(self)@.bitstream == packed_bitstream(levels@, W as nat),
            final(self)@.correlations == correlation_curve(
                packed_bitstream(levels@, W as nat),
                old(self).min_period_spec(),
                old(self).max_period_spec(),
                L as nat,
            ),
            r == chosen_lag(final(self)@.correlations),
            r matches Some(p) ==> is_trough(final(self)@.correlations, p as int),
            r is None <==> !falls_then_rises(
                final(self)@.correlations,
                window_count(L as nat) as int,
            ),
            r matches Some(p) ==> old(self).min_period_spec() < p && p + 1
                < old(self).max_period_spec(),
    {
        self.zero_cross(levels);
        proof {
            assert forall|lag: int| 0 <= lag implies correlation(self@.bitstream, lag) <= 64 * W by {
                crate::bitstream::lemma_correlation_bound(self@.bitstream, lag);
            }
        }
        self.autocorrelate();
        let r = self.find_lag();
        proof {
            if let Some(p) = r {
                let corr = self@.correlations;
                let i = choose|i: int| 0 <= i < p && #[trigger] falls_at(corr, i);
                assert(corr[i] > 0);
                assert(corr[p + 1] > 0);
            }
        }
        r
    }

    /// The sample rate in Hz.
    pub fn sample_rate(&self) -> (r: u32)
        ensures
            r == self@.sample_rate,
    {
        self.sample_rate
    }

    /// The minimum detectable frequency in Hz.
    pub fn min_freq(&self) -> (r: u32)
        ensures
            r == self@.min_freq,
    {
        self.min_freq
    }

    /// The maximum detectable frequency in Hz.
    pub fn max_freq(&self) -> (r: u32)
        ensures
            r == self@.max_freq,
    {
        self.max_freq
    }

    /// The autocorrelation computed by the last run, indexed by lag.
    pub fn get_correlations(&self) -> (r: &[u32; L])
        ensures
            r@ == self@.correlations,
    {
        &self.correlations
    }
}


/// With `n = 64 * word_index + bit_index` samples and `w = (n + 63) / 64` words, a partial last
/// word lies inside the bitstream.
proof fn lemma_words_cover(n: int, w: int, word_index: int, bit_index: int)
    requires
        0 <= word_index,
        0 <= bit_index < 64,
        n == 64 * word_index + bit_index,
        w == (n + 63) / 64,
    ensures
        bit_index > 0 ==> word_index < w,
{
    assert(bit_index > 0 ==> word_index < w) by (nonlinear_arith)
        requires
            0 <= bit_index < 64,
            n == 64 * word_index + bit_index,
            w == (n + 63) / 64,
    ;
}

/// A word that ends at sample `k <= n` lies inside the first `n / 64` words.
proof fn lemma_word_index_bound(word_index: int, n: int, k: int)
    requires
        0 <= word_index,
        k == 64 * word_index + 63,
        k < n,
    ensures
        word_index < n / 64,
        word_index < (n + 63) / 64,
{
    assert(word_index < n / 64) by (nonlinear_arith)
        requires
            k == 64 * word_index + 63,
            k < n,
    ;
}

} // verus!
