use std::time::Duration;

use memkv::config::pool_capacity;
use objpool::Pool;

#[test]
fn checkouts_never_exceed_capacity_and_all_come_back() {
    let capacity = pool_capacity(1);
    let pool = Pool::with_capacity(capacity, || 0u64);
    for round in 0..3u64 {
        let mut held: Vec<_> = (0..capacity).map(|_| pool.get()).collect();
        // Every reader is out: one more checkout has to wait.
        assert!(pool.get_timeout(Duration::from_millis(10)).is_err());
        for r in held.iter_mut() {
            assert_eq!(**r, round);
            **r += 1;
        }
        drop(held);
    }
    // After the load, every reader is back and idle.
    let held: Vec<_> = (0..capacity).map(|_| pool.get()).collect();
    assert_eq!(held.len(), 20);
    assert!(held.iter().all(|r| **r == 3));
}
