use phonk::ring::Ring;

fn window<const N: usize>(ring: &Ring<u32, N>) -> Vec<u32> {
    let (a, b) = ring.as_slices();
    let mut v = a.to_vec();
    v.extend_from_slice(b);
    v
}

#[test]
fn new_ring_holds_initial_value() {
    let ring: Ring<u32, 4> = Ring::new(7);
    assert_eq!(window(&ring), vec![7, 7, 7, 7]);
    assert!(!ring.is_full());
    let (a, b) = ring.as_slices();
    assert_eq!(a.len(), 4);
    assert!(b.is_empty());
}

#[test]
fn partial_push_keeps_older_slots() {
    let mut ring: Ring<u32, 4> = Ring::new(0);
    ring.extend_from_slice(&[1, 2]);
    assert_eq!(window(&ring), vec![0, 0, 1, 2]);
    let (a, b) = ring.as_slices();
    assert_eq!(a, &[0, 0]);
    assert_eq!(b, &[1, 2]);
    assert!(!ring.is_full());
}

#[test]
fn push_wraps_around() {
    let mut ring: Ring<u32, 4> = Ring::new(0);
    ring.extend_from_slice(&[1, 2, 3]);
    ring.extend_from_slice(&[4, 5]);
    assert_eq!(window(&ring), vec![2, 3, 4, 5]);
    assert!(ring.is_full());
    assert_eq!(*ring.index(0), 2);
    assert_eq!(*ring.index(3), 5);
}

#[test]
fn push_of_whole_window_replaces_it() {
    let mut ring: Ring<u32, 4> = Ring::new(0);
    ring.extend_from_slice(&[9]);
    ring.extend_from_slice(&[1, 2, 3, 4, 5, 6]);
    let (a, b) = ring.as_slices();
    assert_eq!(a, &[3, 4, 5, 6]);
    assert!(b.is_empty());
    assert!(ring.is_full());
}

#[test]
fn push_that_ends_on_the_last_slot() {
    let mut ring: Ring<u32, 4> = Ring::new(0);
    ring.extend_from_slice(&[1]);
    ring.extend_from_slice(&[2, 3, 4]);
    assert_eq!(window(&ring), vec![1, 2, 3, 4]);
    let (a, b) = ring.as_slices();
    assert_eq!(a, &[1, 2, 3, 4]);
    assert!(b.is_empty());
}

#[test]
fn two_pushes_equal_one_push_of_both() {
    let mut split: Ring<u32, 5> = Ring::new(0);
    split.extend_from_slice(&[1, 2, 3]);
    split.extend_from_slice(&[4, 5, 6, 7]);
    let mut whole: Ring<u32, 5> = Ring::new(0);
    whole.extend_from_slice(&[1, 2, 3, 4, 5, 6, 7]);
    assert_eq!(window(&split), window(&whole));
    assert_eq!(split.is_full(), whole.is_full());
}

#[test]
fn index_follows_the_window() {
    let mut ring: Ring<u32, 3> = Ring::new(0);
    ring.extend_from_slice(&[1, 2]);
    ring.extend_from_slice(&[3, 4]);
    let w = window(&ring);
    for i in 0..3 {
        assert_eq!(*ring.index(i), w[i]);
    }
    assert_eq!(w, vec![2, 3, 4]);
}

#[test]
fn zero_sized_ring_accepts_pushes() {
    let mut ring: Ring<u32, 0> = Ring::new(0);
    ring.extend_from_slice(&[]);
    ring.extend_from_slice(&[1, 2]);
    assert!(ring.is_full());
    assert!(window(&ring).is_empty());
}

#[test]
fn empty_push_leaves_ring_unchanged() {
    let mut ring: Ring<u32, 4> = Ring::new(0);
    ring.extend_from_slice(&[1, 2, 3]);
    let before = window(&ring);
    let (a, _) = ring.as_slices();
    let split = a.len();
    ring.extend_from_slice(&[]);
    assert_eq!(window(&ring), before);
    assert_eq!(ring.as_slices().0.len(), split);
    assert!(!ring.is_full());
}

#[test]
fn full_ring_stays_full() {
    let mut ring: Ring<u32, 3> = Ring::new(0);
    ring.extend_from_slice(&[1, 2, 3]);
    assert!(ring.is_full());
    ring.extend_from_slice(&[]);
    assert!(ring.is_full());
    ring.extend_from_slice(&[4]);
    assert!(ring.is_full());
    assert_eq!(*ring.index(2), 4);
    assert_eq!(window(&ring), vec![2, 3, 4]);
}

#[test]
fn many_pushes_fill_by_their_total() {
    let mut ring: Ring<u32, 6> = Ring::new(9);
    let pushes: [&[u32]; 3] = [&[1], &[2, 3], &[4, 5]];
    for d in pushes {
        ring.extend_from_slice(d);
        assert!(!ring.is_full());
    }
    assert_eq!(window(&ring), vec![9, 1, 2, 3, 4, 5]);
    ring.extend_from_slice(&[6]);
    assert!(ring.is_full());
    assert_eq!(window(&ring), vec![1, 2, 3, 4, 5, 6]);
    assert_eq!(ring.as_slices().0.len() + ring.as_slices().1.len(), 6);
}
