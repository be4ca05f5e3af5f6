//! Locating the zero crossings that bound one period of the waveform, for sub-sample
//! interpolation of the period.
use vstd::prelude::*;

verus! {

/// The sign of a sample.
#[derive(Clone, Copy, Debug, PartialEq, Eq, Structural)]
pub enum Sign {
    /// Strictly above zero.
    Positive,
    /// Strictly below zero.
    Negative,
    /// Neither: zero, or not a number.
    Neither,
}

/// The index of the first positive sample, or 0 when no sample is positive.
pub fn start_edge(signs: &[Sign]) -> (r: usize)
    ensures
        (r < signs@.len() && signs@[r as int] is Positive && forall|j: int|
            0 <= j < r ==> !(signs@[j] is Positive)) || (r == 0 && forall|j: int|
            0 <= j < signs@.len() ==> !(signs@[j] is Positive)),
{
    let mut i: usize = 0;
    while i < signs.len()
        invariant
            i <= signs@.len(),
            forall|j: int| 0 <= j < i ==> !(signs@[j] is Positive),
        decreases signs@.len() - i,
    {
        if signs[i] == Sign::Positive {
            return i;
        }
        i = i + 1;
    }
    0
}

/// The first index from `from` on whose sample is not negative: the end of the run of
/// negative samples that starts at `from`. `None` when the samples stay negative to the end.
pub fn next_edge(signs: &[Sign], from: usize) -> (r: Option<usize>)
    ensures
        match r {
            Some(e) => {
                &&& from <= e < signs@.len()
                &&& !(signs@[e as int] is Negative)
                &&& forall|j: int| from <= j < e ==> signs@[j] is Negative
            },
            None => forall|j: int| from <= j < signs@.len() ==> signs@[j] is Negative,
        },
{
    let mut e = from;
    while e < signs.len()
        invariant
            from <= e,
            forall|j: int| from <= j < e && j < signs@.len() ==> signs@[j] is Negative,
        decreases signs@.len() - e,
    {
        if signs[e] != Sign::Negative {
            return Some(e);
        }
        e = e + 1;
    }
    None
}

} // verus!
