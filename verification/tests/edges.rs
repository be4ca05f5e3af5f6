use phonk::edges::{next_edge, start_edge, Sign};

use Sign::{Negative as N, Neither as Z, Positive as P};

#[test]
fn start_edge_is_first_positive_sample() {
    assert_eq!(start_edge(&[N, Z, N, P, P, N]), 3);
    assert_eq!(start_edge(&[P, N]), 0);
}

#[test]
fn start_edge_without_positive_sample_is_zero() {
    assert_eq!(start_edge(&[N, Z, N]), 0);
    assert_eq!(start_edge(&[]), 0);
}

#[test]
fn next_edge_skips_negative_run() {
    assert_eq!(next_edge(&[P, N, N, Z, P], 1), Some(3));
    assert_eq!(next_edge(&[P, N, N, P], 0), Some(0));
    assert_eq!(next_edge(&[P, N, N, P], 3), Some(3));
}

#[test]
fn next_edge_of_negative_tail_is_none() {
    assert_eq!(next_edge(&[P, N, N], 1), None);
    assert_eq!(next_edge(&[P], 5), None);
}
