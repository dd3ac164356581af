use std::cmp::Ordering;

use replicated_queue::vector_clock::VectorClock;

fn clock_of(vals: &[i32]) -> VectorClock {
    let mut c = VectorClock::new(vals.len() as i32);
    for (i, v) in vals.iter().enumerate() {
        c.clock[i] = *v;
    }
    c
}

#[test]
fn new_clock_is_zeroed() {
    let c = VectorClock::new(3);
    assert_eq!(c.size, 3);
    assert!(c.clock.iter().all(|&x| x == 0));
}

#[test]
fn default_clock_has_size_zero() {
    let c = VectorClock::default();
    assert_eq!(c.size, 0);
    assert!(c.clock.iter().all(|&x| x == 0));
}

#[test]
fn compare_is_lexicographic() {
    let a = clock_of(&[1, 0, 0]);
    let b = clock_of(&[0, 9, 9]);
    assert_eq!(a.compare(&b), Ordering::Greater);
    assert_eq!(b.compare(&a), Ordering::Less);
    let c = clock_of(&[1, 2, 0]);
    let d = clock_of(&[1, 2, 1]);
    assert_eq!(c.compare(&d), Ordering::Less);
}

#[test]
fn compare_round_trip_on_values() {
    // compare(a, b) is the reverse of compare(b, a); compare(a, a) is Equal.
    let a = clock_of(&[2, 1, 3]);
    let b = clock_of(&[2, 2, 0]);
    assert_eq!(a.compare(&b), Ordering::Less);
    assert_eq!(b.compare(&a), Ordering::Greater);
    assert_eq!(a.compare(&a), Ordering::Equal);
}

#[test]
fn increment_advances_own_rank() {
    let mut a = clock_of(&[0, 0, 0]);
    a.increment(1);
    assert_eq!(&a.clock[0..3], &[0, 1, 0]);
    assert_eq!(a.size, 3);
}

#[test]
fn merge_takes_pointwise_maximum() {
    let mut a = clock_of(&[1, 5, 0]);
    let b = clock_of(&[3, 2, 4]);
    a.merge(&b);
    assert_eq!(&a.clock[0..3], &[3, 5, 4]);
}

#[test]
fn merge_is_idempotent_on_values() {
    let mut a = clock_of(&[4, 0, 7]);
    let before = a.clock;
    let other = a;
    a.merge(&other);
    assert_eq!(a.clock, before);
    assert_eq!(a.size, 3);
}

#[test]
fn merge_is_commutative_on_live_prefix() {
    let mut a = clock_of(&[1, 9, 2]);
    let mut b = clock_of(&[5, 3, 2]);
    let a0 = a;
    let b0 = b;
    a.merge(&b0);
    b.merge(&a0);
    assert_eq!(&a.clock[0..3], &b.clock[0..3]);
}

#[test]
fn merge_is_associative_on_values() {
    let a0 = clock_of(&[1, 0, 5]);
    let b0 = clock_of(&[0, 7, 2]);
    let c0 = clock_of(&[3, 1, 1]);
    let mut left = a0;
    left.merge(&b0);
    left.merge(&c0);
    let mut bc = b0;
    bc.merge(&c0);
    let mut right = a0;
    right.merge(&bc);
    assert_eq!(left.clock, right.clock);
    assert_eq!(left.size, right.size);
}
