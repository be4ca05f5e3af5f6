//! What the period search does, stated over the correlation curve and the tracked candidates
//! rather than through the search itself.
use vstd::prelude::*;

use crate::lag::{
    chosen_lag, lemma_search_done, scan, search, smallest, step, window_count, PeriodState, Scan,
    Search, SearchState,
};

verus! {

/// The lags of `s` strictly increase.
pub open spec fn increasing(s: Seq<usize>) -> bool {
    forall|i: int, j: int| 0 <= i < j < s.len() ==> s[i] < s[j]
}

/// Every lag of `s` is tracked in `periods`.
pub open spec fn all_tracked(s: Seq<usize>, periods: Seq<Option<PeriodState>>) -> bool {
    forall|i: int| 0 <= i < s.len() ==> s[i] < periods.len() && #[trigger] periods[s[i] as int] is Some
}

/// The smallest element of a non-empty sequence is one of its elements and no greater than
/// any of them; an empty sequence has none.
pub proof fn lemma_smallest(s: Seq<usize>)
    ensures
        s.len() == 0 ==> smallest(s) is None,
        s.len() > 0 ==> smallest(s) is Some && s.contains(smallest(s).unwrap()) && forall|i: int|
            0 <= i < s.len() ==> smallest(s).unwrap() <= s[i],
    decreases s.len(),
{
    if s.len() > 0 {
        let front = s.drop_last();
        lemma_smallest(front);
        let m = smallest(s).unwrap();
        if front.len() > 0 {
            let f = smallest(front).unwrap();
            assert(front.contains(f));
            let fi = choose|i: int| 0 <= i < front.len() && front[i] == f;
            assert(s[fi] == f);
            assert forall|i: int| 0 <= i < s.len() implies m <= s[i] by {
                if i < s.len() - 1 {
                    assert(front[i] == s[i]);
                }
            }
            if m == s.last() {
                assert(s[s.len() - 1] == m);
            }
        } else {
            assert(s[0] == m);
        }
    }
}

/// Checking a trough against candidates that are increasing and all tracked never loses a
/// candidate's state; what it keeps is increasing and tracked, drawn from the kept and the
/// checked candidates with the kept ones first; it only touches the state of the checked
/// candidates; and a candidate it confirms is one of them.
pub proof fn lemma_scan_frame(
    corr: Seq<u32>,
    index: int,
    prev: u32,
    tolerance: u32,
    cands: Seq<usize>,
    kept: Seq<usize>,
    matched: bool,
    periods: Seq<Option<PeriodState>>,
)
    requires
        increasing(cands),
        increasing(kept),
        forall|i: int, j: int| 0 <= i < kept.len() && 0 <= j < cands.len() ==> kept[i] < cands[j],
        all_tracked(cands, periods),
        all_tracked(kept, periods),
    ensures
        !(scan(corr, index, prev, tolerance, cands, kept, matched, periods) is Lost),
        matched ==> scan(corr, index, prev, tolerance, cands, kept, matched, periods) is Kept,
        scan(corr, index, prev, tolerance, cands, kept, matched, periods) matches Scan::Found(p)
            ==> cands.contains(p),
        scan(corr, index, prev, tolerance, cands, kept, matched, periods) matches Scan::Kept(
            kept2,
            matched2,
            periods2,
        ) ==> {
            &&& increasing(kept2)
            &&& all_tracked(kept2, periods2)
            &&& periods2.len() == periods.len()
            &&& kept.len() <= kept2.len()
            &&& (forall|i: int| 0 <= i < kept.len() ==> kept2[i] == kept[i])
            &&& (forall|x: usize| #[trigger]
                kept2.contains(x) ==> kept.contains(x) || cands.contains(x))
            &&& (forall|x: usize|
                x < periods.len() && !cands.contains(x) ==> #[trigger] periods2[x as int]
                    == periods[x as int])
            &&& (matched ==> matched2)
        },
    decreases cands.len(),
{
    if cands.len() > 0 {
        let period = cands[0];
        let rest = cands.drop_first();
        let st = periods[period as int].unwrap();
        assert(periods[cands[0] as int] is Some);
        assert(forall|i: int| 0 <= i < rest.len() ==> rest[i] == cands[i + 1]);
        if (index - st.index_of_last) / (period as int) >= 2 {
            let p2 = periods.update(period as int, None);
            assert forall|i: int| 0 <= i < kept.len() implies kept[i] < p2.len() && #[trigger] p2[kept[i] as int] is Some by {
                assert(kept[i] < cands[0]);
            }
            assert forall|i: int| 0 <= i < rest.len() implies rest[i] < p2.len() && #[trigger] p2[rest[i] as int] is Some by {
                assert(cands[0] < cands[i + 1]);
                assert(periods[cands[i + 1] as int] is Some);
            }
            lemma_scan_frame(corr, index, prev, tolerance, rest, kept, matched, p2);
            frame_conclude(cands, kept, periods, rest, kept, p2);
        } else {
            let kept1 = kept.push(period);
            assert(increasing(kept1));
            let confirms = !matched && crate::lag::abs_diff(index, st.index_of_last + period)
                < crate::lag::PERIOD_TOLERANCE && prev.saturating_sub(
                corr[st.index_of_last as int],
            ) < tolerance;
            let p2 = if confirms && st.num_equiv + 1 < 4 {
                periods.update(
                    period as int,
                    Some(
                        PeriodState {
                            index_of_last: index as usize,
                            avg_mag: ((st.num_equiv * st.avg_mag + prev) / (st.num_equiv + 1))
                                as u32,
                            first_mag: st.first_mag,
                            num_equiv: (st.num_equiv + 1) as u8,
                        },
                    ),
                )
            } else {
                periods
            };
            if confirms && st.num_equiv + 1 >= 4 {
            } else {
                assert forall|i: int| 0 <= i < kept1.len() implies kept1[i] < p2.len() && #[trigger] p2[kept1[i] as int] is Some by {
                    if i < kept.len() {
                        assert(kept[i] < cands[0]);
                    }
                }
                assert forall|i: int| 0 <= i < rest.len() implies rest[i] < p2.len() && #[trigger] p2[rest[i] as int] is Some by {
                    assert(cands[0] < cands[i + 1]);
                    assert(periods[cands[i + 1] as int] is Some);
                }
                assert forall|i: int, j: int| 0 <= i < kept1.len() && 0 <= j < rest.len() implies kept1[i] < rest[j] by {
                    assert(cands[0] < cands[j + 1]);
                    if i < kept.len() {
                        assert(kept[i] < cands[0]);
                    }
                }
                let m1 = if confirms { true } else { matched };
                lemma_scan_frame(corr, index, prev, tolerance, rest, kept1, m1, p2);
                frame_conclude(cands, kept, periods, rest, kept1, p2);
            }
        }
    }
}

/// Carrying the frame facts of the remaining candidates back to all of them.
proof fn frame_conclude(
    cands: Seq<usize>,
    kept: Seq<usize>,
    periods: Seq<Option<PeriodState>>,
    rest: Seq<usize>,
    kept1: Seq<usize>,
    p2: Seq<Option<PeriodState>>,
)
    requires
        cands.len() > 0,
        rest == cands.drop_first(),
        kept1 == kept || kept1 == kept.push(cands[0]),
        p2.len() == periods.len(),
        forall|x: int|
            0 <= x < periods.len() && x != cands[0] ==> #[trigger] p2[x] == periods[x],
    ensures
        forall|x: usize| #[trigger]
            kept1.contains(x) || rest.contains(x) ==> kept.contains(x) || cands.contains(x),
        forall|x: usize| x < periods.len() && !cands.contains(x) ==> #[trigger] p2[x as int] == periods[x as int],
        forall|x: usize| #[trigger] cands.contains(x) || !rest.contains(x),
{
    assert forall|x: usize| #[trigger]
        kept1.contains(x) || rest.contains(x) implies kept.contains(x) || cands.contains(x) by {
        if rest.contains(x) {
            let i = choose|i: int| 0 <= i < rest.len() && rest[i] == x;
            assert(cands[i + 1] == x);
        } else if !kept.contains(x) {
            let i = choose|i: int| 0 <= i < kept1.len() && kept1[i] == x;
            assert(i == kept.len());
            assert(cands[0] == x);
        }
    }
    assert forall|x: usize| #[trigger] cands.contains(x) || !rest.contains(x) by {
        if rest.contains(x) {
            let i = choose|i: int| 0 <= i < rest.len() && rest[i] == x;
            assert(cands[i + 1] == x);
        }
    }
    assert forall|x: usize| x < periods.len() && !cands.contains(x) implies #[trigger] p2[x as int] == periods[x as int] by {
        assert(cands[0] != x);
    }
}

/// The search state after the first `k` windows, while it goes on.
pub open spec fn search_state(corr: Seq<u32>, k: nat) -> SearchState
    recommends
        search(corr, k) is Running,
{
    search(corr, k)->Running_0
}

/// While the search goes on, its candidates are increasing lags below the windows seen, each
/// with tracked state, and one state slot is kept per lag.
pub proof fn lemma_search_state(corr: Seq<u32>, k: nat)
    requires
        k <= window_count(corr.len()),
        corr.len() <= usize::MAX,
    ensures
        search(corr, k) is Running ==> {
            let st = search_state(corr, k);
            &&& increasing(st.active)
            &&& all_tracked(st.active, st.periods)
            &&& st.periods.len() == corr.len()
            &&& forall|i: int| 0 <= i < st.active.len() ==> st.active[i] < k
        },
    decreases k,
{
    if k > 0 {
        lemma_search_state(corr, (k - 1) as nat);
        if search(corr, (k - 1) as nat) is Running {
            let st = search_state(corr, (k - 1) as nat);
            let index = k - 1;
            let prev = corr[index];
            let curr = corr[index + 1int];
            if st.peak_count > st.trough_count && curr > prev {
                let tolerance = (st.highest.saturating_sub(st.lowest) / 5) as u32;
                lemma_scan_frame(
                    corr,
                    index,
                    prev,
                    tolerance,
                    st.active,
                    Seq::empty(),
                    false,
                    st.periods,
                );
                match scan(corr, index, prev, tolerance, st.active, Seq::empty(), false, st.periods) {
                    Scan::Kept(kept2, matched, periods2) => {
                        assert forall|i: int| 0 <= i < kept2.len() implies kept2[i] < index by {
                            assert(kept2.contains(kept2[i]));
                            assert(st.active.contains(kept2[i]));
                        }
                        if !matched {
                            let a = kept2.push(index as usize);
                            let p = periods2.update(
                                index,
                                Some(
                                    PeriodState {
                                        index_of_last: index as usize,
                                        avg_mag: prev,
                                        num_equiv: 1,
                                        first_mag: prev,
                                    },
                                ),
                            );
                            assert(search_state(corr, k).active == a);
                            assert(search_state(corr, k).periods == p);
                            assert forall|i: int| 0 <= i < a.len() implies a[i] < p.len() && #[trigger] p[a[i] as int] is Some by {
                                if i < kept2.len() {
                                    assert(periods2[kept2[i] as int] is Some);
                                }
                            }
                        }
                    },
                    _ => {},
                }
            }
        }
    }
}

/// When the search ends without a confirmed candidate, the lag chosen is the least of the
/// candidates still tracked, and there is none when no candidate is left.
pub proof fn lemma_chosen_lag_least(corr: Seq<u32>)
    ensures
        search(corr, window_count(corr.len())) is Running ==> {
            let active = search_state(corr, window_count(corr.len())).active;
            &&& active.len() == 0 ==> chosen_lag(corr) is None
            &&& active.len() > 0 ==> chosen_lag(corr) is Some && active.contains(
                chosen_lag(corr).unwrap(),
            ) && forall|i: int| 0 <= i < active.len() ==> chosen_lag(corr).unwrap() <= active[i]
        },
{
    let n = window_count(corr.len());
    if search(corr, n) is Running {
        lemma_smallest(search_state(corr, n).active);
    }
}

/// A candidate of period `period` last seen at `last` is stale at the trough at `index` when
/// that trough lies two or more of its periods later.
pub open spec fn stale(index: int, last: int, period: int) -> bool {
    (index - last) / period >= 2
}

/// The trough at `index` lies fewer than five lags from where a candidate of period `period`
/// last seen at `last` expects its next one.
pub open spec fn near_expected(index: int, last: int, period: int) -> bool {
    -5 < index - (last + period) < 5
}

/// The trough magnitude `prev` exceeds the candidate's last trough magnitude by less than
/// `tolerance` (a lower trough always qualifies when the tolerance is positive).
pub open spec fn close_in_magnitude(corr: Seq<u32>, prev: u32, last: int, tolerance: u32) -> bool {
    (if prev > corr[last] {
        prev - corr[last]
    } else {
        0
    }) < tolerance
}

/// The trough at `index`, of magnitude `prev`, confirms a tracked candidate of period `period`.
pub open spec fn confirms(
    corr: Seq<u32>,
    index: int,
    prev: u32,
    tolerance: u32,
    period: usize,
    s: PeriodState,
) -> bool {
    &&& !stale(index, s.index_of_last as int, period as int)
    &&& near_expected(index, s.index_of_last as int, period as int)
    &&& close_in_magnitude(corr, prev, s.index_of_last as int, tolerance)
}

/// The tolerance on trough magnitudes: a fifth of the gap between the highest peak and the
/// lowest trough so far.
pub open spec fn magnitude_tolerance(st: SearchState) -> u32 {
    ((if st.highest > st.lowest {
        st.highest - st.lowest
    } else {
        0
    }) / 5) as u32
}

/// Checking a trough against the candidates in order: the first candidate it confirms, when
/// none before it is confirmed, gains a confirmation: it is the answer at its fourth, else it is
/// kept with the trough as its last and its count raised by one.
pub proof fn lemma_scan_confirms(
    corr: Seq<u32>,
    index: int,
    prev: u32,
    tolerance: u32,
    cands: Seq<usize>,
    kept: Seq<usize>,
    periods: Seq<Option<PeriodState>>,
    k: int,
)
    requires
        increasing(cands),
        increasing(kept),
        forall|i: int, j: int| 0 <= i < kept.len() && 0 <= j < cands.len() ==> kept[i] < cands[j],
        all_tracked(cands, periods),
        all_tracked(kept, periods),
        0 <= index <= usize::MAX,
        0 <= k < cands.len(),
        forall|i: int|
            0 <= i < k ==> !confirms(
                corr,
                index,
                prev,
                tolerance,
                cands[i],
                #[trigger] periods[cands[i] as int].unwrap(),
            ),
        confirms(corr, index, prev, tolerance, cands[k], periods[cands[k] as int].unwrap()),
    ensures
        ({
            let c = cands[k];
            let n = periods[c as int].unwrap().num_equiv + 1;
            let r = scan(corr, index, prev, tolerance, cands, kept, false, periods);
            &&& n >= 4 ==> r == Scan::Found(c)
            &&& n < 4 ==> (r matches Scan::Kept(kept2, matched2, periods2) && matched2
                && kept2.contains(c) && (periods2[c as int] matches Some(t) && t.index_of_last
                == index && t.num_equiv == n))
        }),
    decreases k,
{
    let period = cands[0];
    let rest = cands.drop_first();
    let st = periods[period as int].unwrap();
    assert(periods[cands[0] as int] is Some);
    assert(forall|i: int| 0 <= i < rest.len() ==> rest[i] == cands[i + 1]);
    if k == 0 {
        assert(!(st.index_of_last + period - index >= 5));
        assert(crate::lag::abs_diff(index, st.index_of_last + period) < crate::lag::PERIOD_TOLERANCE);
        assert(prev.saturating_sub(corr[st.index_of_last as int]) < tolerance);
        if st.num_equiv + 1 >= 4 {
            assert(scan(corr, index, prev, tolerance, cands, kept, false, periods) == Scan::Found(period));
        }
        if st.num_equiv + 1 < 4 {
            let kept1 = kept.push(period);
            let p2 = periods.update(
                period as int,
                Some(
                    PeriodState {
                        index_of_last: index as usize,
                        avg_mag: ((st.num_equiv * st.avg_mag + prev) / (st.num_equiv + 1)) as u32,
                        first_mag: st.first_mag,
                        num_equiv: (st.num_equiv + 1) as u8,
                    },
                ),
            );
            lemma_rest_ready(cands, kept, periods, kept1, p2);
            lemma_scan_frame(corr, index, prev, tolerance, rest, kept1, true, p2);
            assert(scan(corr, index, prev, tolerance, cands, kept, false, periods) == scan(
                corr,
                index,
                prev,
                tolerance,
                rest,
                kept1,
                true,
                p2,
            ));
            assert(!rest.contains(period)) by {
                if rest.contains(period) {
                    let i = choose|i: int| 0 <= i < rest.len() && rest[i] == period;
                    assert(cands[i + 1] == cands[0]);
                }
            }
            match scan(corr, index, prev, tolerance, rest, kept1, true, p2) {
                Scan::Kept(kept2, _, periods2) => {
                    assert(kept2[kept.len() as int] == period);
                    assert(kept2.contains(period));
                    assert(periods2[period as int] == p2[period as int]);
                    assert(periods2[period as int] matches Some(t) && t.index_of_last == index && t.num_equiv == st.num_equiv + 1);
                },
                _ => {
                    assert(false);
                },
            }
        }
    } else {
        if stale(index, st.index_of_last as int, period as int) {
            let p2 = periods.update(period as int, None);
            lemma_rest_ready(cands, kept, periods, kept, p2);
            assert(periods[cands[k] as int] == p2[rest[k - 1] as int]);
            assert forall|i: int| 0 <= i < k - 1 implies periods[cands[i + 1] as int] == p2[rest[i] as int] by {}
            lemma_scan_confirms(corr, index, prev, tolerance, rest, kept, p2, k - 1);
            assert(scan(corr, index, prev, tolerance, cands, kept, false, periods) == scan(
                corr,
                index,
                prev,
                tolerance,
                rest,
                kept,
                false,
                p2,
            ));
        } else {
            assert(!confirms(corr, index, prev, tolerance, cands[0], periods[cands[0] as int].unwrap()));
            let kept1 = kept.push(period);
            lemma_rest_ready(cands, kept, periods, kept1, periods);
            lemma_scan_confirms(corr, index, prev, tolerance, rest, kept1, periods, k - 1);
            assert(!(crate::lag::abs_diff(index, st.index_of_last + period)
                < crate::lag::PERIOD_TOLERANCE && prev.saturating_sub(
                corr[st.index_of_last as int],
            ) < tolerance));
            assert(scan(corr, index, prev, tolerance, cands, kept, false, periods) == scan(
                corr,
                index,
                prev,
                tolerance,
                rest,
                kept1,
                false,
                periods,
            ));
        }
    }
}

/// A stale candidate is dropped: whatever is kept leaves it out, and its state is gone.
pub proof fn lemma_scan_drops_stale(
    corr: Seq<u32>,
    index: int,
    prev: u32,
    tolerance: u32,
    cands: Seq<usize>,
    kept: Seq<usize>,
    matched: bool,
    periods: Seq<Option<PeriodState>>,
    k: int,
)
    requires
        increasing(cands),
        increasing(kept),
        forall|i: int, j: int| 0 <= i < kept.len() && 0 <= j < cands.len() ==> kept[i] < cands[j],
        all_tracked(cands, periods),
        all_tracked(kept, periods),
        0 <= index <= usize::MAX,
        0 <= k < cands.len(),
        stale(index, periods[cands[k] as int].unwrap().index_of_last as int, cands[k] as int),
    ensures
        scan(corr, index, prev, tolerance, cands, kept, matched, periods) matches Scan::Kept(
            kept2,
            _,
            periods2,
        ) ==> !kept2.contains(cands[k]) && periods2[cands[k] as int] is None,
    decreases k,
{
    let period = cands[0];
    let rest = cands.drop_first();
    let st = periods[period as int].unwrap();
    assert(periods[cands[0] as int] is Some);
    assert(forall|i: int| 0 <= i < rest.len() ==> rest[i] == cands[i + 1]);
    let c = cands[k];
    assert(!kept.contains(c)) by {
        if kept.contains(c) {
            let i = choose|i: int| 0 <= i < kept.len() && kept[i] == c;
            assert(kept[i] < cands[k]);
        }
    }
    if k == 0 {
        let p2 = periods.update(period as int, None);
        lemma_rest_ready(cands, kept, periods, kept, p2);
        lemma_scan_frame(corr, index, prev, tolerance, rest, kept, matched, p2);
        assert(!rest.contains(period)) by {
            if rest.contains(period) {
                let i = choose|i: int| 0 <= i < rest.len() && rest[i] == period;
                assert(cands[i + 1] == cands[0]);
            }
        }
    } else {
        let confirms_now = !matched && crate::lag::abs_diff(index, st.index_of_last + period)
            < crate::lag::PERIOD_TOLERANCE && prev.saturating_sub(corr[st.index_of_last as int])
            < tolerance;
        if stale(index, st.index_of_last as int, period as int) {
            let p2 = periods.update(period as int, None);
            lemma_rest_ready(cands, kept, periods, kept, p2);
            assert(periods[cands[k] as int] == p2[rest[k - 1] as int]);
            lemma_scan_drops_stale(corr, index, prev, tolerance, rest, kept, matched, p2, k - 1);
        } else if confirms_now {
            if st.num_equiv + 1 < 4 {
                let kept1 = kept.push(period);
                let p2 = periods.update(
                    period as int,
                    Some(
                        PeriodState {
                            index_of_last: index as usize,
                            avg_mag: ((st.num_equiv * st.avg_mag + prev) / (st.num_equiv + 1))
                                as u32,
                            first_mag: st.first_mag,
                            num_equiv: (st.num_equiv + 1) as u8,
                        },
                    ),
                );
                lemma_rest_ready(cands, kept, periods, kept1, p2);
                assert(periods[cands[k] as int] == p2[rest[k - 1] as int]);
                lemma_scan_drops_stale(corr, index, prev, tolerance, rest, kept1, true, p2, k - 1);
            }
        } else {
            let kept1 = kept.push(period);
            lemma_rest_ready(cands, kept, periods, kept1, periods);
            lemma_scan_drops_stale(corr, index, prev, tolerance, rest, kept1, matched, periods, k - 1);
        }
    }
}

/// After the first candidate is handled, the remaining ones meet the conditions of the frame.
proof fn lemma_rest_ready(
    cands: Seq<usize>,
    kept: Seq<usize>,
    periods: Seq<Option<PeriodState>>,
    kept1: Seq<usize>,
    p2: Seq<Option<PeriodState>>,
)
    requires
        cands.len() > 0,
        increasing(cands),
        increasing(kept),
        forall|i: int, j: int| 0 <= i < kept.len() && 0 <= j < cands.len() ==> kept[i] < cands[j],
        all_tracked(cands, periods),
        all_tracked(kept, periods),
        kept1 == kept || kept1 == kept.push(cands[0]),
        p2.len() == periods.len(),
        kept1 == kept.push(cands[0]) ==> p2[cands[0] as int] is Some,
        forall|x: int| 0 <= x < periods.len() && x != cands[0] ==> #[trigger] p2[x] == periods[x],
    ensures
        increasing(cands.drop_first()),
        increasing(kept1),
        forall|i: int, j: int|
            0 <= i < kept1.len() && 0 <= j < cands.drop_first().len() ==> kept1[i]
                < cands.drop_first()[j],
        all_tracked(cands.drop_first(), p2),
        all_tracked(kept1, p2),
{
    let rest = cands.drop_first();
    assert(forall|i: int| 0 <= i < rest.len() ==> rest[i] == cands[i + 1]);
    assert forall|i: int| 0 <= i < kept1.len() implies kept1[i] < p2.len() && #[trigger] p2[kept1[i] as int] is Some by {
        if i < kept.len() {
            assert(kept1[i] == kept[i]);
            assert(0 <= kept.len());
            assert(kept[i] < cands[0]);
            assert(kept[i] < periods.len() && periods[kept[i] as int] is Some);
            assert(p2[kept[i] as int] == periods[kept[i] as int]);
        } else {
            assert(kept1 == kept.push(cands[0]));
            assert(kept1[i] == cands[0]);
            assert(cands[0] < periods.len() && periods[cands[0] as int] is Some);
        }
    }
    assert forall|i: int| 0 <= i < rest.len() implies rest[i] < p2.len() && #[trigger] p2[rest[i] as int] is Some by {
        assert(cands[0] < cands[i + 1]);
        assert(cands[i + 1] < periods.len() && periods[cands[i + 1] as int] is Some);
        assert(p2[cands[i + 1] as int] == periods[cands[i + 1] as int]);
    }
    assert forall|i: int, j: int| 0 <= i < kept1.len() && 0 <= j < rest.len() implies kept1[i] < rest[j] by {
        assert(cands[0] < cands[j + 1]);
        if i < kept.len() {
            assert(kept[i] < cands[0]);
        }
    }
    assert forall|i: int, j: int| 0 <= i < j < kept1.len() implies kept1[i] < kept1[j] by {
        if j == kept.len() {
            assert(kept[i] < cands[0]);
        }
    }
}

/// At a trough, where the curve turns up after a peak since the last trough, the first tracked
/// candidate that the trough confirms (it lies fewer than five lags from the candidate's last
/// trough plus its period, within the magnitude tolerance, and the candidate is not stale)
/// gains a confirmation: at its fourth the search answers with that candidate, before that the
/// candidate stays tracked with this trough as its last and its count raised by one.
pub proof fn lemma_trough_confirms_candidate(corr: Seq<u32>, index: nat, k: int)
    requires
        index < window_count(corr.len()),
        corr.len() <= usize::MAX,
        search(corr, index) is Running,
        ({
            let st = search_state(corr, index);
            let prev = corr[index as int];
            let tolerance = magnitude_tolerance(st);
            &&& st.peak_count > st.trough_count
            &&& prev < corr[index + 1int]
            &&& 0 <= k < st.active.len()
            &&& forall|i: int|
                0 <= i < k ==> !confirms(
                    corr,
                    index as int,
                    prev,
                    tolerance,
                    st.active[i],
                    #[trigger] st.periods[st.active[i] as int].unwrap(),
                )
            &&& confirms(
                corr,
                index as int,
                prev,
                tolerance,
                st.active[k],
                st.periods[st.active[k] as int].unwrap(),
            )
        }),
    ensures
        ({
            let st = search_state(corr, index);
            let c = st.active[k];
            let n = st.periods[c as int].unwrap().num_equiv + 1;
            &&& n >= 4 ==> chosen_lag(corr) == Some(c)
            &&& n < 4 ==> search(corr, index + 1) is Running && search_state(
                corr,
                index + 1,
            ).active.contains(c) && (search_state(corr, index + 1).periods[c as int] matches Some(
                t,
            ) && t.index_of_last == index && t.num_equiv == n)
        }),
{
    lemma_search_state(corr, index);
    let st = search_state(corr, index);
    let prev = corr[index as int];
    let tolerance = (st.highest.saturating_sub(st.lowest) / 5) as u32;
    assert(tolerance == magnitude_tolerance(st));
    assert(search(corr, index) == Search::Running(st));
    lemma_scan_confirms(corr, index as int, prev, tolerance, st.active, Seq::empty(), st.periods, k);
    assert(search(corr, index + 1) == step(corr, st, index as int));
    let c = st.active[k];
    if st.periods[c as int].unwrap().num_equiv + 1 >= 4 {
        assert(search(corr, index + 1) == Search::Done(Some(c)));
        lemma_search_done(corr, index + 1, window_count(corr.len()), Some(c));
    } else {
        match scan(corr, index as int, prev, tolerance, st.active, Seq::empty(), false, st.periods) {
            Scan::Kept(kept2, _, periods2) => {
                assert(search_state(corr, index + 1).active == kept2);
                assert(search_state(corr, index + 1).periods == periods2);
            },
            _ => {},
        }
    }
}

/// At a trough, a tracked candidate whose last trough lies two or more of its periods back is
/// no longer tracked afterwards.
pub proof fn lemma_stale_candidate_dropped(corr: Seq<u32>, index: nat, k: int)
    requires
        index < window_count(corr.len()),
        corr.len() <= usize::MAX,
        search(corr, index) is Running,
        ({
            let st = search_state(corr, index);
            &&& st.peak_count > st.trough_count
            &&& corr[index as int] < corr[index + 1int]
            &&& 0 <= k < st.active.len()
            &&& stale(
                index as int,
                st.periods[st.active[k] as int].unwrap().index_of_last as int,
                st.active[k] as int,
            )
        }),
    ensures
        ({
            let c = search_state(corr, index).active[k];
            search(corr, index + 1) is Running ==> !search_state(corr, index + 1).active.contains(c)
                && search_state(corr, index + 1).periods[c as int] is None
        }),
{
    lemma_search_state(corr, index);
    let st = search_state(corr, index);
    let prev = corr[index as int];
    let tolerance = (st.highest.saturating_sub(st.lowest) / 5) as u32;
    assert(search(corr, index) == Search::Running(st));
    let c = st.active[k];
    lemma_scan_frame(corr, index as int, prev, tolerance, st.active, Seq::empty(), false, st.periods);
    lemma_scan_drops_stale(
        corr,
        index as int,
        prev,
        tolerance,
        st.active,
        Seq::empty(),
        false,
        st.periods,
        k,
    );
    assert(search(corr, index + 1) == step(corr, st, index as int));
    match scan(corr, index as int, prev, tolerance, st.active, Seq::empty(), false, st.periods) {
        Scan::Kept(kept2, matched, periods2) => {
            assert(c < index);
            if !matched {
                let a = kept2.push(index as usize);
                assert(search_state(corr, index + 1).active == a);
                if a.contains(c) {
                    let i = choose|i: int| 0 <= i < a.len() && a[i] == c;
                    assert(i < kept2.len());
                    assert(kept2.contains(c));
                }
            }
        },
        _ => {},
    }
}

/// A trough that confirms none of the candidates leaves the check unmatched.
pub proof fn lemma_scan_no_confirm(
    corr: Seq<u32>,
    index: int,
    prev: u32,
    tolerance: u32,
    cands: Seq<usize>,
    kept: Seq<usize>,
    periods: Seq<Option<PeriodState>>,
)
    requires
        increasing(cands),
        increasing(kept),
        forall|i: int, j: int| 0 <= i < kept.len() && 0 <= j < cands.len() ==> kept[i] < cands[j],
        all_tracked(cands, periods),
        all_tracked(kept, periods),
        forall|i: int|
            0 <= i < cands.len() ==> !confirms(
                corr,
                index,
                prev,
                tolerance,
                cands[i],
                #[trigger] periods[cands[i] as int].unwrap(),
            ),
    ensures
        scan(corr, index, prev, tolerance, cands, kept, false, periods) matches Scan::Kept(_, m, _)
            && !m,
    decreases cands.len(),
{
    if cands.len() > 0 {
        let period = cands[0];
        let rest = cands.drop_first();
        let st = periods[period as int].unwrap();
        assert(periods[cands[0] as int] is Some);
        assert(forall|i: int| 0 <= i < rest.len() ==> rest[i] == cands[i + 1]);
        assert(!confirms(corr, index, prev, tolerance, cands[0], periods[cands[0] as int].unwrap()));
        if stale(index, st.index_of_last as int, period as int) {
            let p2 = periods.update(period as int, None);
            lemma_rest_ready(cands, kept, periods, kept, p2);
            assert forall|i: int| 0 <= i < rest.len() implies periods[cands[i + 1] as int] == p2[rest[i] as int] by {
                assert(cands[0] < cands[i + 1]);
            }
            lemma_scan_no_confirm(corr, index, prev, tolerance, rest, kept, p2);
        } else {
            let kept1 = kept.push(period);
            lemma_rest_ready(cands, kept, periods, kept1, periods);
            assert(!(crate::lag::abs_diff(index, st.index_of_last + period)
                < crate::lag::PERIOD_TOLERANCE && prev.saturating_sub(
                corr[st.index_of_last as int],
            ) < tolerance));
            lemma_scan_no_confirm(corr, index, prev, tolerance, rest, kept1, periods);
        }
    }
}

/// At a trough that confirms none of the tracked candidates, the trough itself becomes a
/// candidate: its lag is tracked with this trough as its last, its magnitude as first and
/// average, and a count of one. A trough that confirms a candidate does not become one.
pub proof fn lemma_trough_starts_candidate(corr: Seq<u32>, index: nat)
    requires
        index < window_count(corr.len()),
        corr.len() <= usize::MAX,
        search(corr, index) is Running,
        ({
            let st = search_state(corr, index);
            &&& st.peak_count > st.trough_count
            &&& corr[index as int] < corr[index + 1int]
        }),
    ensures
        ({
            let st = search_state(corr, index);
            let prev = corr[index as int];
            let tolerance = magnitude_tolerance(st);
            &&& (forall|i: int|
                0 <= i < st.active.len() ==> !confirms(
                    corr,
                    index as int,
                    prev,
                    tolerance,
                    st.active[i],
                    #[trigger] st.periods[st.active[i] as int].unwrap(),
                )) ==> search(corr, index + 1) is Running && search_state(
                corr,
                index + 1,
            ).active.contains(index as usize) && search_state(corr, index + 1).periods[index as int]
                == Some(
                PeriodState {
                    index_of_last: index as usize,
                    avg_mag: prev,
                    first_mag: prev,
                    num_equiv: 1,
                },
            )
            &&& (exists|i: int|
                0 <= i < st.active.len() && confirms(
                    corr,
                    index as int,
                    prev,
                    tolerance,
                    st.active[i],
                    #[trigger] st.periods[st.active[i] as int].unwrap(),
                )) ==> (search(corr, index + 1) is Running ==> !search_state(
                corr,
                index + 1,
            ).active.contains(index as usize))
        }),
{
    lemma_search_state(corr, index);
    let st = search_state(corr, index);
    let prev = corr[index as int];
    let tolerance = (st.highest.saturating_sub(st.lowest) / 5) as u32;
    assert(tolerance == magnitude_tolerance(st));
    assert(search(corr, index) == Search::Running(st));
    assert(search(corr, index + 1) == step(corr, st, index as int));
    lemma_scan_frame(corr, index as int, prev, tolerance, st.active, Seq::empty(), false, st.periods);
    if forall|i: int|
        0 <= i < st.active.len() ==> !confirms(
            corr,
            index as int,
            prev,
            tolerance,
            st.active[i],
            #[trigger] st.periods[st.active[i] as int].unwrap(),
        ) {
        lemma_scan_no_confirm(corr, index as int, prev, tolerance, st.active, Seq::empty(), st.periods);
        match scan(corr, index as int, prev, tolerance, st.active, Seq::empty(), false, st.periods) {
            Scan::Kept(kept2, _, _) => {
                let a = kept2.push(index as usize);
                assert(search_state(corr, index + 1).active == a);
                assert(a[kept2.len() as int] == index as usize);
            },
            _ => {},
        }
    } else {
        let k = choose|i: int|
            0 <= i < st.active.len() && confirms(
                corr,
                index as int,
                prev,
                tolerance,
                st.active[i],
                #[trigger] st.periods[st.active[i] as int].unwrap(),
            );
        lemma_first_confirming(corr, index as int, prev, tolerance, st.active, st.periods, k);
        let j = choose|j: int|
            0 <= j < st.active.len() && confirms(
                corr,
                index as int,
                prev,
                tolerance,
                st.active[j],
                st.periods[st.active[j] as int].unwrap(),
            ) && forall|i: int|
                0 <= i < j ==> !confirms(
                    corr,
                    index as int,
                    prev,
                    tolerance,
                    st.active[i],
                    #[trigger] st.periods[st.active[i] as int].unwrap(),
                );
        lemma_scan_confirms(corr, index as int, prev, tolerance, st.active, Seq::empty(), st.periods, j);
        match scan(corr, index as int, prev, tolerance, st.active, Seq::empty(), false, st.periods) {
            Scan::Kept(kept2, _, _) => {
                assert(search_state(corr, index + 1).active == kept2);
                if kept2.contains(index as usize) {
                    assert(st.active.contains(index as usize));
                    let i = choose|i: int| 0 <= i < st.active.len() && st.active[i] == index as usize;
                    assert(st.active[i] < index);
                }
            },
            _ => {},
        }
    }
}

/// Among candidates some of which a trough confirms, there is a first one.
proof fn lemma_first_confirming(
    corr: Seq<u32>,
    index: int,
    prev: u32,
    tolerance: u32,
    cands: Seq<usize>,
    periods: Seq<Option<PeriodState>>,
    k: int,
)
    requires
        0 <= k < cands.len(),
        confirms(corr, index, prev, tolerance, cands[k], periods[cands[k] as int].unwrap()),
    ensures
        exists|j: int|
            0 <= j < cands.len() && confirms(
                corr,
                index,
                prev,
                tolerance,
                cands[j],
                periods[cands[j] as int].unwrap(),
            ) && forall|i: int|
                0 <= i < j ==> !confirms(
                    corr,
                    index,
                    prev,
                    tolerance,
                    cands[i],
                    #[trigger] periods[cands[i] as int].unwrap(),
                ),
    decreases k,
{
    if exists|i: int|
        0 <= i < k && confirms(
            corr,
            index,
            prev,
            tolerance,
            cands[i],
            #[trigger] periods[cands[i] as int].unwrap(),
        ) {
        let i = choose|i: int|
            0 <= i < k && confirms(
                corr,
                index,
                prev,
                tolerance,
                cands[i],
                #[trigger] periods[cands[i] as int].unwrap(),
            );
        lemma_first_confirming(corr, index, prev, tolerance, cands, periods, i);
    }
}

} // verus!
