//! Choosing the period from the autocorrelation: troughs of the correlation curve that recur
//! at a steady spacing are tracked as candidate periods; the first candidate confirmed often
//! enough wins, else the smallest one still tracked.
use vstd::prelude::*;

use crate::Phonk;

verus! {

/// Troughs further apart than this many periods drop a candidate.
pub const PERIODS_REMOVE: usize = 2;

/// A trough matches a candidate when it lies within this many lags of the expected spot.
pub const PERIOD_TOLERANCE: usize = 5;

/// A candidate confirmed by this many equivalent troughs is the answer.
pub const FINISH_THRESHOLD: u8 = 4;

/// What is tracked about a candidate period.
#[derive(Clone, Copy)]
pub struct PeriodState {
    /// Last index in correlations where this period was observed.
    pub index_of_last: usize,
    /// Average magnitude of the observed troughs for this period.
    pub avg_mag: u32,
    /// Magnitude of the first observed trough for this period, used to determine tolerance.
    pub first_mag: u32,
    /// Number of troughs observed that are considered equivalent to the first one.
    pub num_equiv: u8,
}

/// The state of the trough search between two windows of the correlation curve.
pub struct SearchState {
    pub peak_count: int,
    pub trough_count: int,
    pub lowest: u32,
    pub highest: u32,
    /// Candidate periods, in the order in which they were found.
    pub active: Seq<usize>,
    /// What is tracked for each lag, when it is a candidate.
    pub periods: Seq<Option<PeriodState>>,
}

/// The search either goes on or has decided.
pub enum Search {
    Running(SearchState),
    Done(Option<usize>),
}

/// The outcome of checking a trough against the remaining candidates.
pub enum Scan {
    /// A candidate reached the finishing threshold.
    Found(usize),
    /// A candidate had no tracked state.
    Lost,
    /// The candidates kept, whether one matched, and the updated tracking.
    Kept(Seq<usize>, bool, Seq<Option<PeriodState>>),
}

pub open spec fn initial_search(len: nat) -> SearchState {
    SearchState {
        peak_count: 0,
        trough_count: 0,
        lowest: u32::MAX,
        highest: 0,
        active: Seq::empty(),
        periods: Seq::new(len, |i: int| None),
    }
}

pub open spec fn abs_diff(a: int, b: int) -> int {
    if a >= b {
        a - b
    } else {
        b - a
    }
}

/// Check the trough at `index`, of magnitude `prev`, against the candidates `cands` in order;
/// `kept` holds the candidates already kept and `matched` tells whether one already matched.
pub open spec fn scan(
    corr: Seq<u32>,
    index: int,
    prev: u32,
    tolerance: u32,
    cands: Seq<usize>,
    kept: Seq<usize>,
    matched: bool,
    periods: Seq<Option<PeriodState>>,
) -> Scan
    decreases cands.len(),
{
    if cands.len() == 0 {
        Scan::Kept(kept, matched, periods)
    } else {
        let period = cands[0];
        match periods[period as int] {
            None => Scan::Lost,
            Some(st) => {
                if (index - st.index_of_last) / (period as int) >= PERIODS_REMOVE {
                    scan(
                        corr,
                        index,
                        prev,
                        tolerance,
                        cands.drop_first(),
                        kept,
                        matched,
                        periods.update(period as int, None),
                    )
                } else if !matched && abs_diff(index, st.index_of_last + period)
                    < PERIOD_TOLERANCE && prev.saturating_sub(corr[st.index_of_last as int])
                    < tolerance {
                    let next_n = st.num_equiv + 1;
                    let updated = PeriodState {
                        index_of_last: index as usize,
                        avg_mag: ((st.num_equiv * st.avg_mag + prev) / next_n) as u32,
                        first_mag: st.first_mag,
                        num_equiv: next_n as u8,
                    };
                    if next_n >= FINISH_THRESHOLD {
                        Scan::Found(period)
                    } else {
                        scan(
                            corr,
                            index,
                            prev,
                            tolerance,
                            cands.drop_first(),
                            kept.push(period),
                            true,
                            periods.update(period as int, Some(updated)),
                        )
                    }
                } else {
                    scan(
                        corr,
                        index,
                        prev,
                        tolerance,
                        cands.drop_first(),
                        kept.push(period),
                        matched,
                        periods,
                    )
                }
            },
        }
    }
}

/// Look at the window `(corr[index], corr[index + 1])`: count a peak when the curve turns
/// down, and at a trough, where it turns up after a peak, match it against the candidates.
pub open spec fn step(corr: Seq<u32>, st: SearchState, index: int) -> Search {
    let prev = corr[index];
    let curr = corr[index + 1];
    if st.peak_count <= st.trough_count {
        if curr < prev {
            Search::Running(
                SearchState {
                    peak_count: st.peak_count + 1,
                    highest: if st.highest >= prev {
                        st.highest
                    } else {
                        prev
                    },
                    ..st
                },
            )
        } else {
            Search::Running(st)
        }
    } else if curr <= prev {
        Search::Running(st)
    } else {
        let tolerance = (st.highest.saturating_sub(st.lowest) / 5) as u32;
        let lowest = if st.lowest <= prev {
            st.lowest
        } else {
            prev
        };
        match scan(corr, index, prev, tolerance, st.active, Seq::empty(), false, st.periods) {
            Scan::Found(p) => Search::Done(Some(p)),
            Scan::Lost => Search::Done(None),
            Scan::Kept(kept, matched, periods) => Search::Running(
                SearchState {
                    peak_count: st.peak_count,
                    trough_count: st.trough_count + 1,
                    lowest,
                    highest: st.highest,
                    active: if matched {
                        kept
                    } else {
                        kept.push(index as usize)
                    },
                    periods: if matched {
                        periods
                    } else {
                        periods.update(
                            index,
                            Some(
                                PeriodState {
                                    index_of_last: index as usize,
                                    avg_mag: prev,
                                    num_equiv: 1,
                                    first_mag: prev,
                                },
                            ),
                        )
                    },
                },
            ),
        }
    }
}

/// The search after the first `k` windows of the correlation curve.
pub open spec fn search(corr: Seq<u32>, k: nat) -> Search
    decreases k,
{
    if k == 0 {
        Search::Running(initial_search(corr.len()))
    } else {
        match search(corr, (k - 1) as nat) {
            Search::Done(r) => Search::Done(r),
            Search::Running(st) => step(corr, st, k - 1),
        }
    }
}

/// The smallest element of `s`, if any.
pub open spec fn smallest(s: Seq<usize>) -> Option<usize>
    decreases s.len(),
{
    if s.len() == 0 {
        None
    } else {
        match smallest(s.drop_last()) {
            None => Some(s.last()),
            Some(m) => Some(
                if s.last() < m {
                    s.last()
                } else {
                    m
                },
            ),
        }
    }
}

/// Number of windows of two consecutive values in a sequence of length `len`.
pub open spec fn window_count(len: nat) -> nat {
    if len >= 2 {
        (len - 1) as nat
    } else {
        0
    }
}

/// The period chosen from a correlation curve.
pub open spec fn chosen_lag(corr: Seq<u32>) -> Option<usize> {
    match search(corr, window_count(corr.len())) {
        Search::Done(r) => r,
        Search::Running(st) => smallest(st.active),
    }
}

/// The curve falls from lag `i` to lag `i + 1`.
pub open spec fn falls_at(corr: Seq<u32>, i: int) -> bool {
    corr[i + 1] < corr[i]
}

/// The curve rises from lag `j` to lag `j + 1`.
pub open spec fn rises_at(corr: Seq<u32>, j: int) -> bool {
    corr[j] < corr[j + 1]
}

/// The curve falls somewhere before lag `p`.
pub open spec fn falls_before(corr: Seq<u32>, p: int) -> bool {
    exists|i: int| 0 <= i < p && #[trigger] falls_at(corr, i)
}

/// Among the first `n` windows, a rise follows a fall.
pub open spec fn falls_then_rises(corr: Seq<u32>, n: int) -> bool {
    exists|j: int| 0 <= j < n && #[trigger] rises_at(corr, j) && falls_before(corr, j)
}

/// A trough of the correlation curve: the curve does not rise into `p`, rises right after
/// it, and has fallen somewhere before it.
pub open spec fn is_trough(corr: Seq<u32>, p: int) -> bool {
    &&& 1 <= p
    &&& p + 1 < corr.len()
    &&& corr[p - 1] >= corr[p]
    &&& rises_at(corr, p)
    &&& falls_before(corr, p)
}

/// Once the search has decided, later windows do not change its answer.
pub proof fn lemma_search_done(corr: Seq<u32>, k: nat, later: nat, r: Option<usize>)
    requires
        k <= later,
        search(corr, k) == Search::Done(r),
    ensures
        search(corr, later) == Search::Done(r),
    decreases later - k,
{
    if k < later {
        lemma_search_done(corr, k, (later - 1) as nat, r);
    }
}

/// The running average of trough magnitudes stays within the bound on the magnitudes, and
/// computing it does not overflow.
proof fn lemma_average_bound(n: u8, avg: u32, prev: u32)
    requires
        1 <= n <= 3,
        4 * avg <= u32::MAX,
        4 * prev <= u32::MAX,
    ensures
        n as u32 * avg + prev <= u32::MAX,
        4 * ((n as u32 * avg + prev) / (n as u32 + 1)) <= u32::MAX,
{
    let a = avg as int;
    let p = prev as int;
    let m = n as int;
    assert(m * a <= 3 * a) by (nonlinear_arith)
        requires
            1 <= m <= 3,
            0 <= a,
    ;
    let b = (u32::MAX / 4) as int;
    assert(m * a + p <= (m + 1) * b) by (nonlinear_arith)
        requires
            1 <= m <= 3,
            0 <= a <= b,
            0 <= p <= b,
    ;
    assert((m * a + p) / (m + 1) <= b) by (nonlinear_arith)
        requires
            1 <= m <= 3,
            0 <= m * a + p <= (m + 1) * b,
    ;
}

impl<const N: usize, const W: usize, const L: usize> Phonk<N, W, L> {
    /// Pick the period from the correlation curve computed by the last run: the first
    /// candidate confirmed by enough equivalent troughs, else the smallest candidate left.
    pub fn find_lag(&self) -> (r: Option<usize>)
        requires
            self@.correlations.len() == L,
            forall|i: int| 0 <= i < L ==> 4 * self@.correlations[i] <= u32::MAX,
        ensures
            r == chosen_lag(self@.correlations),
            r matches Some(p) ==> is_trough(self@.correlations, p as int),
            r is None <==> !falls_then_rises(
                self@.correlations,
                window_count(self@.correlations.len()) as int,
            ),
    {
        let ghost corr = self@.correlations;
        let mut peak_count: usize = 0;
        let mut trough_count: usize = 0;
        let mut lowest: u32 = u32::MAX;
        let mut highest: u32 = 0;
        let mut active_len: usize = 0;
        let mut active: [usize; L] = [0usize;L];
        let mut periods: [Option<PeriodState>; L] = [None;L];
        let windows: usize = if L >= 2 {
            L - 1
        } else {
            0
        };
        proof {
            assert(periods@ =~= initial_search(L as nat).periods);
            assert(active@.take(0) =~= Seq::<usize>::empty());
        }
        let mut index: usize = 0;
        while index < windows
            invariant
                corr == self@.correlations,
                corr.len() == L,
                forall|i: int| 0 <= i < L ==> 4 * corr[i] <= u32::MAX,
                windows == window_count(L as nat),
                index <= windows,
                peak_count <= index,
                trough_count <= index,
                active_len <= trough_count,
                trough_count <= peak_count <= trough_count + 1,
                peak_count > trough_count ==> index >= 1 && corr[index - 1] >= corr[index as int],
                peak_count > 0 ==> falls_before(corr, index as int),
                peak_count == 0 ==> !falls_before(corr, index as int),
                trough_count == 0 ==> !falls_then_rises(corr, index as int),
                trough_count > 0 ==> active_len > 0,
                forall|k1: int, k2: int|
                    0 <= k1 < k2 < active_len ==> active@[k1] < active@[k2],
                forall|k: int| 0 <= k < active_len ==> periods@[active@[k] as int] is Some,
                active@.len() == L,
                periods@.len() == L,
                search(corr, index as nat) == Search::Running(
                    SearchState {
                        peak_count: peak_count as int,
                        trough_count: trough_count as int,
                        lowest,
                        highest,
                        active: active@.take(active_len as int),
                        periods: periods@,
                    },
                ),
                forall|k: int|
                    0 <= k < active_len ==> active@[k] < index && is_trough(
                        corr,
                        active@[k] as int,
                    ),
                forall|j: int|
                    #![trigger periods@[j]]
                    0 <= j < L ==> (periods@[j] matches Some(st) ==> {
                        &&& st.index_of_last < index
                        &&& 1 <= st.num_equiv <= 3
                        &&& 4 * st.avg_mag <= u32::MAX
                    }),
            decreases windows - index,
        {
            let ghost st0 = SearchState {
                peak_count: peak_count as int,
                trough_count: trough_count as int,
                lowest,
                highest,
                active: active@.take(active_len as int),
                periods: periods@,
            };
            let prev = self.correlations[index];
            let curr = self.correlations[index + 1];
            if peak_count <= trough_count {
                if curr < prev {
                    assert(falls_at(corr, index as int));
                    peak_count = peak_count + 1;
                    if prev > highest {
                        highest = prev;
                    }
                }
            } else if curr > prev {
                let tolerance = highest.saturating_sub(lowest) / 5;
                trough_count = trough_count + 1;
                if prev < lowest {
                    lowest = prev;
                }
                let ghost cands = active@.take(active_len as int);
                let ghost periods0 = periods@;
                let mut write: usize = 0;
                let mut matched = false;
                let mut read: usize = 0;
                proof {
                    assert(cands.skip(0) =~= cands);
                    assert(active@.take(0) =~= Seq::<usize>::empty());
                }
                while read < active_len
                    invariant
                        corr == self@.correlations,
                        corr.len() == L,
                        forall|i: int| 0 <= i < L ==> 4 * corr[i] <= u32::MAX,
                        index + 1 < L,
                        prev == corr[index as int],
                        prev < corr[index + 1],
                        index >= 1,
                        corr[index - 1] >= prev,
                        falls_before(corr, index as int),
                        forall|k1: int, k2: int|
                            0 <= k1 < k2 < active_len ==> cands[k1] < cands[k2],
                        forall|k1: int, k2: int|
                            0 <= k1 < k2 < write ==> active@[k1] < active@[k2],
                        forall|k: int, m: int|
                            0 <= k < write && read <= m < active_len ==> active@[k] < cands[m],
                        forall|k: int| 0 <= k < write ==> periods@[active@[k] as int] is Some,
                        forall|m: int|
                            read <= m < active_len ==> periods@[cands[m] as int] is Some,
                        matched ==> write > 0,
                        search(corr, index as nat) == Search::Running(st0),
                        st0.peak_count > st0.trough_count,
                        st0.active == cands,
                        st0.periods == periods0,
                        tolerance == (st0.highest.saturating_sub(st0.lowest) / 5) as u32,
                        active@.len() == L,
                        periods@.len() == L,
                        write <= read,
                        read <= active_len,
                        active_len <= index,
                        cands.len() == active_len,
                        forall|k: int| read <= k < active_len ==> active@[k] == cands[k],
                        forall|k: int|
                            0 <= k < active_len ==> cands[k] < index && is_trough(
                                corr,
                                cands[k] as int,
                            ),
                        forall|k: int|
                            0 <= k < write ==> active@[k] < index && is_trough(
                                corr,
                                active@[k] as int,
                            ),
                        scan(corr, index as int, prev, tolerance, cands, Seq::empty(), false, periods0)
                            == scan(
                            corr,
                            index as int,
                            prev,
                            tolerance,
                            cands.skip(read as int),
                            active@.take(write as int),
                            matched,
                            periods@,
                        ),
                        forall|j: int|
                            #![trigger periods@[j]]
                            0 <= j < L ==> (periods@[j] matches Some(st) ==> {
                                &&& st.index_of_last <= index
                                &&& 1 <= st.num_equiv <= 3
                                &&& 4 * st.avg_mag <= u32::MAX
                            }),
                    decreases active_len - read,
                {
                    let period = active[read];
                    let ghost rest = cands.skip(read as int);
                    proof {
                        assert(rest[0] == period);
                        assert(rest.drop_first() =~= cands.skip(read + 1));
                    }
                    let state = match periods[period] {
                        Some(s) => s,
                        None => {
                            return None;
                        },
                    };
                    if (index - state.index_of_last) / period >= PERIODS_REMOVE {
                        periods[period] = None;
                    } else {
                        let d = index - state.index_of_last;
                        let dist = if d >= period {
                            d - period
                        } else {
                            period - d
                        };
                        let mut is_match = false;
                        if !matched && dist < PERIOD_TOLERANCE {
                            if prev.saturating_sub(self.correlations[state.index_of_last])
                                < tolerance {
                                is_match = true;
                            }
                        }
                        if is_match {
                            let next_n = state.num_equiv + 1;
                            proof {
                                lemma_average_bound(state.num_equiv, state.avg_mag, prev);
                            }
                            let updated = PeriodState {
                                index_of_last: index,
                                avg_mag: (state.num_equiv as u32 * state.avg_mag + prev) / (
                                next_n as u32),
                                num_equiv: next_n,
                                first_mag: state.first_mag,
                            };
                            periods[period] = Some(updated);
                            matched = true;
                            if next_n >= FINISH_THRESHOLD {
                                proof {
                                    assert(search(corr, (index + 1) as nat) == Search::Done(
                                        Some(period),
                                    ));
                                    lemma_search_done(
                                        corr,
                                        (index + 1) as nat,
                                        window_count(L as nat),
                                        Some(period),
                                    );
                                }
                                return Some(period);
                            }
                        }
                        proof {
                            assert(active@.take(write as int).push(period) =~= active@.update(
                                write as int,
                                period,
                            ).take(write + 1));
                        }
                        active[write] = period;
                        write = write + 1;
                    }
                    read = read + 1;
                }
                proof {
                    assert(cands.skip(read as int) =~= Seq::<usize>::empty());
                }
                let ghost kept = active@.take(write as int);
                active_len = write;
                if !matched {
                    periods[index] = Some(
                        PeriodState {
                            index_of_last: index,
                            avg_mag: prev,
                            num_equiv: 1,
                            first_mag: prev,
                        },
                    );
                    active[active_len] = index;
                    active_len = active_len + 1;
                    proof {
                        assert(active@.take(active_len as int) =~= kept.push(index));
                    }
                }
            }
            proof {
                assert(search(corr, (index + 1) as nat) == step(corr, st0, index as int));
            }
            index = index + 1;
        }
        let mut min_period: Option<usize> = None;
        let mut k: usize = 0;
        proof {
            assert(active@.take(0) =~= Seq::<usize>::empty());
        }
        while k < active_len
            invariant
                k <= active_len,
                active_len <= L,
                active@.len() == L,
                min_period == smallest(active@.take(k as int)),
                min_period matches Some(m) ==> is_trough(corr, m as int),
                forall|j: int| 0 <= j < active_len ==> is_trough(corr, active@[j] as int),
            decreases active_len - k,
        {
            let period = active[k];
            proof {
                assert(active@.take(k + 1).drop_last() =~= active@.take(k as int));
            }
            match min_period {
                None => {
                    min_period = Some(period);
                },
                Some(best) => {
                    if period < best {
                        min_period = Some(period);
                    }
                },
            }
            k = k + 1;
        }
        min_period
    }
}

} // verus!
