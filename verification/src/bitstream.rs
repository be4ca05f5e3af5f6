//! The zero-crossing bitstream of a batch and its autocorrelation.
use vstd::prelude::*;

verus! {

/// Where a sample stands against the hysteresis threshold of the zero-crossing detector.
#[derive(Clone, Copy, Debug, PartialEq, Eq, Structural)]
pub enum Level {
    /// At or above the positive threshold.
    High,
    /// At or below the negative threshold.
    Low,
    /// Strictly between the two thresholds.
    Hold,
}

/// The zero-crossing state after samples `0..=k` have been seen: set by a `High` sample,
/// cleared by a `Low` one, kept by a `Hold` one, and clear before the first sample.
pub open spec fn flag_after(levels: Seq<Level>, k: int) -> bool
    decreases k + 1,
{
    if k < 0 {
        false
    } else {
        match levels[k] {
            Level::High => true,
            Level::Low => false,
            Level::Hold => flag_after(levels, k - 1),
        }
    }
}

/// Every sample after `j`, up to `k`, stayed inside the band.
pub open spec fn quiet_after(levels: Seq<Level>, j: int, k: int) -> bool {
    forall|m: int| j < m <= k ==> #[trigger] levels[m] is Hold
}

/// Some sample at or before `k` reached the positive threshold, and every sample after it up
/// to `k` stayed inside the band.
pub open spec fn set_by_high(levels: Seq<Level>, k: int) -> bool {
    exists|j: int| 0 <= j <= k && levels[j] is High && #[trigger] quiet_after(levels, j, k)
}

/// The hysteresis state after sample `k` is set exactly when a sample at or above the positive
/// threshold came at or before `k` with only in-band samples after it: a state starts clear,
/// and an in-band sample never changes it.
pub proof fn lemma_flag_after_meaning(levels: Seq<Level>, k: int)
    requires
        k < levels.len(),
    ensures
        flag_after(levels, k) == set_by_high(levels, k),
    decreases k + 1,
{
    if k >= 0 {
        lemma_flag_after_meaning(levels, k - 1);
        if levels[k] is High {
            assert(quiet_after(levels, k, k));
        } else {
            if set_by_high(levels, k) {
                let j = choose|j: int|
                    0 <= j <= k && levels[j] is High && #[trigger] quiet_after(levels, j, k);
                assert(j != k);
                assert(levels[k] is Hold);
                assert(quiet_after(levels, j, k - 1));
            }
            if levels[k] is Hold && set_by_high(levels, k - 1) {
                let j = choose|j: int|
                    0 <= j <= k - 1 && levels[j] is High && #[trigger] quiet_after(
                        levels,
                        j,
                        k - 1,
                    );
                assert(quiet_after(levels, j, k));
            }
        }
    }
}

/// While every sample so far is inside the band, the hysteresis state is clear.
pub proof fn lemma_quiet_start(levels: Seq<Level>, k: int)
    requires
        k < levels.len(),
        forall|j: int| 0 <= j <= k ==> #[trigger] levels[j] is Hold,
    ensures
        !flag_after(levels, k),
{
    lemma_flag_after_meaning(levels, k);
    if set_by_high(levels, k) {
        let j = choose|j: int|
            0 <= j <= k && levels[j] is High && #[trigger] quiet_after(levels, j, k);
        assert(levels[j] is Hold);
    }
}

/// Bit `p` of a stream of 64-bit words, read most significant bit first: bit 0 is the top
/// bit of word 0, bit 64 the top bit of word 1.
pub open spec fn bit_at(words: Seq<u64>, p: int) -> bool {
    word_bit(words[p / 64], p % 64)
}

/// Bit `j` of `x` counted from the most significant end (`j == 0` is bit 63).
pub open spec fn word_bit(x: u64, j: int) -> bool {
    (x >> ((63 - j) as u64)) & 1 == 1
}

/// Number of set bits among the first `k` bits of `x`, most significant first.
pub open spec fn ones_upto(x: u64, k: nat) -> nat
    decreases k,
{
    if k == 0 {
        0
    } else {
        ones_upto(x, (k - 1) as nat) + if word_bit(x, k - 1) {
            1nat
        } else {
            0nat
        }
    }
}

/// Number of set bits of `x`.
pub open spec fn popcount(x: u64) -> nat {
    ones_upto(x, 64)
}

/// Number of positions `p < n` at which the bit stream differs from itself shifted by `lag`.
pub open spec fn mismatches(words: Seq<u64>, lag: int, n: nat) -> nat
    decreases n,
{
    if n == 0 {
        0
    } else {
        mismatches(words, lag, (n - 1) as nat) + if bit_at(words, n - 1) != bit_at(
            words,
            n - 1 + lag,
        ) {
            1nat
        } else {
            0nat
        }
    }
}

/// Number of whole words that the correlation at `lag` compares: every word whose shifted
/// partner, and the word after that, lie inside the stream.
pub open spec fn compared_words(num_words: int, lag: int) -> int {
    if num_words > lag / 64 + 1 {
        num_words - (lag / 64 + 1)
    } else {
        0
    }
}

/// The autocorrelation of the bit stream at `lag`: the Hamming distance between the stream
/// and the stream shifted by `lag` bits, over the compared words.
pub open spec fn correlation(words: Seq<u64>, lag: int) -> nat {
    mismatches(words, lag, (64 * compared_words(words.len() as int, lag)) as nat)
}

/// `u64::count_ones`: the number of ones in the binary representation of `x`.
#[verifier::external_body]
pub(crate) fn count_ones(x: u64) -> (r: u32)
    ensures
        r as nat == popcount(x),
{
    x.count_ones()
}

/// Each position adds at most one mismatch.
pub proof fn lemma_mismatches_bound(words: Seq<u64>, lag: int, n: nat)
    ensures
        mismatches(words, lag, n) <= n,
    decreases n,
{
    if n > 0 {
        lemma_mismatches_bound(words, lag, (n - 1) as nat);
    }
}

/// A bit of `a ^ b` is set exactly where the bits of `a` and `b` differ.
proof fn lemma_xor_bit(a: u64, b: u64, t: u64)
    requires
        t < 64,
    ensures
        (((a ^ b) >> t) & 1 == 1) == (((a >> t) & 1 == 1) != ((b >> t) & 1 == 1)),
{
    assert((((a ^ b) >> t) & 1 == 1) == (((a >> t) & 1 == 1) != ((b >> t) & 1 == 1)))
        by (bit_vector);
}

/// The high bits of a word spliced from `w1` and `w2` come from `w1`.
proof fn lemma_shifted_bit_high(w1: u64, w2: u64, s: u64, j: u64)
    requires
        0 < s < 64,
        j < 64,
        j + s < 64,
    ensures
        (((w1 << s) | (w2 >> ((64 - s) as u64))) >> ((63 - j) as u64)) & 1 == (w1 >> ((63 - j
            - s) as u64)) & 1,
{
    assert((((w1 << s) | (w2 >> ((64 - s) as u64))) >> ((63 - j) as u64)) & 1 == (w1 >> ((63
        - j - s) as u64)) & 1) by (bit_vector)
        requires
            0 < s < 64,
            j < 64,
            j + s < 64,
    ;
}

/// The low bits of a word spliced from `w1` and `w2` come from `w2`.
proof fn lemma_shifted_bit_low(w1: u64, w2: u64, s: u64, j: u64)
    requires
        0 < s < 64,
        j < 64,
        j + s >= 64,
    ensures
        (((w1 << s) | (w2 >> ((64 - s) as u64))) >> ((63 - j) as u64)) & 1 == (w2 >> ((127 - j
            - s) as u64)) & 1,
{
    assert((((w1 << s) | (w2 >> ((64 - s) as u64))) >> ((63 - j) as u64)) & 1 == (w2 >> ((127
        - j - s) as u64)) & 1) by (bit_vector)
        requires
            0 < s < 64,
            j < 64,
            j + s >= 64,
    ;
}

/// Position `64 * w + j` is bit `j` of word `w`.
pub(crate) proof fn lemma_split_position(w: int, j: int)
    requires
        0 <= w,
        0 <= j < 64,
    ensures
        (64 * w + j) / 64 == w,
        (64 * w + j) % 64 == j,
{
    assert((64 * w + j) / 64 == w && (64 * w + j) % 64 == j) by (nonlinear_arith)
        requires
            0 <= w,
            0 <= j < 64,
    ;
}

/// The word that the correlation at lag `64 * word_shift + bit_shift` compares with word `i`.
pub open spec fn shifted_word(words: Seq<u64>, i: int, word_shift: int, bit_shift: u64) -> u64 {
    if bit_shift == 0 {
        words[i + word_shift]
    } else {
        (words[i + word_shift] << bit_shift) | (words[i + word_shift + 1] >> ((64
            - bit_shift) as u64))
    }
}

/// Bit `j` of the shifted partner of word `i` is stream bit `64 * i + j + lag`.
proof fn lemma_shifted_word_bit(words: Seq<u64>, i: int, word_shift: int, bit_shift: u64, j: int)
    requires
        0 <= i,
        0 <= word_shift,
        bit_shift < 64,
        0 <= j < 64,
        i + word_shift + 1 < words.len() || (bit_shift == 0 && i + word_shift < words.len()),
    ensures
        word_bit(shifted_word(words, i, word_shift, bit_shift), j) == bit_at(
            words,
            64 * i + j + 64 * word_shift + bit_shift,
        ),
{
    let p = 64 * i + j + 64 * word_shift + bit_shift;
    let w1 = words[i + word_shift];
    if bit_shift == 0 {
        lemma_split_position(i + word_shift, j);
        assert(p == 64 * (i + word_shift) + j) by (nonlinear_arith)
            requires
                p == 64 * i + j + 64 * word_shift + bit_shift,
                bit_shift == 0,
        ;
    } else {
        let w2 = words[i + word_shift + 1];
        if j + bit_shift < 64 {
            lemma_shifted_bit_high(w1, w2, bit_shift, j as u64);
            lemma_split_position(i + word_shift, j + bit_shift);
            assert(p == 64 * (i + word_shift) + (j + bit_shift)) by (nonlinear_arith)
                requires
                    p == 64 * i + j + 64 * word_shift + bit_shift,
            ;
        } else {
            lemma_shifted_bit_low(w1, w2, bit_shift, j as u64);
            lemma_split_position(i + word_shift + 1, j + bit_shift - 64);
            assert(p == 64 * (i + word_shift + 1) + (j + bit_shift - 64)) by (nonlinear_arith)
                requires
                    p == 64 * i + j + 64 * word_shift + bit_shift,
            ;
        }
    }
}

/// The ones of `a ^ b`, with `a` word `i` of the stream and `b` its shifted partner, count the
/// mismatches of word `i`.
pub proof fn lemma_word_mismatches(
    words: Seq<u64>,
    i: int,
    word_shift: int,
    bit_shift: u64,
    k: nat,
)
    requires
        0 <= i,
        0 <= word_shift,
        bit_shift < 64,
        k <= 64,
        i + word_shift + 1 < words.len() || (bit_shift == 0 && i + word_shift < words.len()),
    ensures
        mismatches(words, 64 * word_shift + bit_shift, (64 * i + k) as nat) == mismatches(
            words,
            64 * word_shift + bit_shift,
            (64 * i) as nat,
        ) + ones_upto(words[i] ^ shifted_word(words, i, word_shift, bit_shift), k),
    decreases k,
{
    if k > 0 {
        lemma_word_mismatches(words, i, word_shift, bit_shift, (k - 1) as nat);
        let j = k - 1;
        let a = words[i];
        let b = shifted_word(words, i, word_shift, bit_shift);
        let lag = 64 * word_shift + bit_shift;
        lemma_xor_bit(a, b, (63 - j) as u64);
        lemma_shifted_word_bit(words, i, word_shift, bit_shift, j);
        lemma_split_position(i, j);
        assert(bit_at(words, 64 * i + j) == word_bit(a, j));
        assert(64 * i + j + lag == 64 * i + j + 64 * word_shift + bit_shift);
        assert((64 * i + k - 1) as int == 64 * i + j);
    }
}


/// The bit that the zero-crossing state after sample `k` contributes.
pub open spec fn level_bit(levels: Seq<Level>, k: int) -> u64 {
    if flag_after(levels, k) {
        1
    } else {
        0
    }
}

/// The word holding the zero-crossing bits of samples `start .. start + k`, the earliest in
/// the most significant of the `k` low bits.
pub open spec fn pack(levels: Seq<Level>, start: int, k: nat) -> u64
    decreases k,
{
    if k == 0 {
        0
    } else {
        (pack(levels, start, (k - 1) as nat) << 1u64) | level_bit(levels, start + k - 1)
    }
}

/// The bitstream of a batch: one word per 64 samples, the last word holding the remaining
/// samples in its top bits, and zero words after the batch.
pub open spec fn packed_bitstream(levels: Seq<Level>, num_words: nat) -> Seq<u64> {
    Seq::new(
        num_words,
        |w: int|
            {
                let rest = levels.len() - 64 * w;
                if rest >= 64 {
                    pack(levels, 64 * w, 64)
                } else if rest > 0 {
                    pack(levels, 64 * w, rest as nat) << ((64 - rest) as u64)
                } else {
                    0
                }
            },
    )
}

/// Appending a bit to a word: the new bit lands in bit 0 and every earlier bit moves up one.
pub proof fn lemma_push_bit(w: u64, f: u64, t: u64)
    requires
        f <= 1,
        t < 64,
    ensures
        t == 0 ==> ((((w << 1u64) | f) >> t) & 1 == 1) == (f == 1),
        t > 0 ==> ((((w << 1u64) | f) >> t) & 1) == ((w >> ((t - 1) as u64)) & 1),
{
    assert(t == 0 ==> ((((w << 1u64) | f) >> t) & 1 == 1) == (f == 1)) by (bit_vector)
        requires
            f <= 1,
    ;
    if t > 0 {
        let u: u64 = (t - 1) as u64;
        assert(((((w << 1u64) | f) >> t) & 1) == ((w >> u) & 1)) by (bit_vector)
            requires
                f <= 1,
                t < 64,
                u + 1 == t,
        ;
    }
}

/// Bit `t` of a packed word of `k` samples is the state after sample `start + k - 1 - t`.
pub proof fn lemma_pack_low_bits(levels: Seq<Level>, start: int, k: nat, t: u64)
    requires
        k <= 64,
        t < k,
    ensures
        ((pack(levels, start, k) >> t) & 1 == 1) == flag_after(levels, start + k - 1 - t),
    decreases k,
{
    let w = pack(levels, start, (k - 1) as nat);
    let f = level_bit(levels, start + k - 1);
    lemma_push_bit(w, f, t);
    if t > 0 {
        lemma_pack_low_bits(levels, start, (k - 1) as nat, (t - 1) as u64);
    }
}

/// Shifting a word up by `s` moves bit `t - s` to bit `t` and clears the bits below `s`.
proof fn lemma_shift_up_bit(x: u64, s: u64, t: u64)
    requires
        s < 64,
        t < 64,
    ensures
        t >= s ==> ((x << s) >> t) & 1 == (x >> ((t - s) as u64)) & 1,
        t < s ==> ((x << s) >> t) & 1 == 0,
        (0u64 >> t) & 1 == 0,
{
    if t >= s {
        let u: u64 = (t - s) as u64;
        assert(((x << s) >> t) & 1 == (x >> u) & 1) by (bit_vector)
            requires
                s < 64,
                t < 64,
                u + s == t,
        ;
    } else {
        assert(((x << s) >> t) & 1 == 0) by (bit_vector)
            requires
                t < s,
                s < 64,
        ;
    }
    assert((0u64 >> t) & 1 == 0) by (bit_vector);
}

/// Reading the packed bitstream bit by bit gives back the zero-crossing state of every
/// sample of the batch, and clear bits after it.
pub proof fn lemma_packed_bits(levels: Seq<Level>, num_words: nat, p: int)
    requires
        0 <= p < 64 * num_words,
    ensures
        bit_at(packed_bitstream(levels, num_words), p) == (p < levels.len() && flag_after(
            levels,
            p,
        )),
{
    let w = p / 64;
    let j = p % 64;
    lemma_split_position(w, j);
    assert(p == 64 * w + j);
    assert(0 <= w < num_words) by (nonlinear_arith)
        requires
            p == 64 * w + j,
            0 <= j < 64,
            0 <= p < 64 * num_words,
    ;
    let rest = levels.len() - 64 * w;
    if rest >= 64 {
        lemma_pack_low_bits(levels, 64 * w, 64, (63 - j) as u64);
    } else if rest > 0 {
        let x = pack(levels, 64 * w, rest as nat);
        lemma_shift_up_bit(x, (64 - rest) as u64, (63 - j) as u64);
        if j < rest {
            lemma_pack_low_bits(levels, 64 * w, rest as nat, (rest - 1 - j) as u64);
        }
    } else {
        lemma_shift_up_bit(0, 0, (63 - j) as u64);
    }
}

/// A bit stream that repeats itself with period `lag` over the compared bits has zero
/// autocorrelation at `lag`.
pub proof fn lemma_periodic_stream_has_zero_correlation(words: Seq<u64>, lag: int)
    requires
        forall|p: int|
            0 <= p < 64 * compared_words(words.len() as int, lag) ==> #[trigger] bit_at(words, p)
                == bit_at(words, p + lag),
    ensures
        correlation(words, lag) == 0,
{
    lemma_periodic_prefix(words, lag, (64 * compared_words(words.len() as int, lag)) as nat);
}

/// A stream that repeats with period `lag` over its first `n` bits has no mismatch there.
proof fn lemma_periodic_prefix(words: Seq<u64>, lag: int, n: nat)
    requires
        forall|p: int| 0 <= p < n ==> #[trigger] bit_at(words, p) == bit_at(words, p + lag),
    ensures
        mismatches(words, lag, n) == 0,
    decreases n,
{
    if n > 0 {
        assert(bit_at(words, n - 1) == bit_at(words, n - 1 + lag));
        lemma_periodic_prefix(words, lag, (n - 1) as nat);
    }
}


/// Looking at more positions never finds fewer mismatches.
pub proof fn lemma_mismatches_monotone(words: Seq<u64>, lag: int, n: nat, m: nat)
    requires
        n <= m,
    ensures
        mismatches(words, lag, n) <= mismatches(words, lag, m),
    decreases m - n,
{
    if n < m {
        lemma_mismatches_monotone(words, lag, n, (m - 1) as nat);
    }
}


/// The autocorrelation never exceeds the number of bits in the stream.
pub proof fn lemma_correlation_bound(words: Seq<u64>, lag: int)
    requires
        0 <= lag,
    ensures
        correlation(words, lag) <= 64 * words.len(),
{
    lemma_mismatches_bound(words, lag, (64 * compared_words(words.len() as int, lag)) as nat);
}

} // verus!
