use workpool::barrier::{Arrival, BarrierState};

#[test]
fn last_of_three_releases_and_barrier_restarts() {
    let mut b = BarrierState::new(3);
    assert_eq!(b.arrive(), Arrival::Wait(0));
    assert_eq!(b.arrive(), Arrival::Wait(0));
    assert!(!b.released(0));
    assert_eq!(b.arrive(), Arrival::Release);
    assert!(b.released(0));
    assert_eq!(b.arrive(), Arrival::Wait(1));
}

#[test]
fn single_party_never_waits() {
    let mut b = BarrierState::new(1);
    assert_eq!(b.arrive(), Arrival::Release);
    assert_eq!(b.arrive(), Arrival::Release);
    assert!(b.released(0));
    assert!(b.released(1));
    assert!(!b.released(2));
}
