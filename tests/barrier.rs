use apue::barrier::{Arrival, BarrierState};

#[test]
fn barrier_trips_on_last_party() {
    let mut b = BarrierState::new(3);
    assert_eq!(b.arrive(), Arrival::Wait { generation: 0 });
    assert!(!b.released(0));
    assert_eq!(b.arrive(), Arrival::Wait { generation: 0 });
    assert!(!b.released(0));
    assert_eq!(b.arrive(), Arrival::Release);
    assert!(b.released(0));
    assert_eq!(b, BarrierState { parties: 3, arrived: 0, generation: 1 });
}

#[test]
fn barrier_is_reusable() {
    let mut b = BarrierState::new(2);
    for cycle in 0..5u64 {
        assert_eq!(b.arrive(), Arrival::Wait { generation: cycle });
        assert!(!b.released(cycle));
        assert_eq!(b.arrive(), Arrival::Release);
        assert!(b.released(cycle));
        assert_eq!(b.generation, cycle + 1);
        assert_eq!(b.arrived, 0);
    }
}

#[test]
fn single_party_barrier_never_waits() {
    let mut b = BarrierState::new(1);
    assert_eq!(b.arrive(), Arrival::Release);
    assert_eq!(b.arrive(), Arrival::Release);
    assert_eq!(b.generation, 2);
}

#[test]
fn generation_wraps_around() {
    let mut b = BarrierState { parties: 1, arrived: 0, generation: u64::MAX };
    assert_eq!(b.arrive(), Arrival::Release);
    assert_eq!(b.generation, 0);
    assert!(b.released(u64::MAX));
}
