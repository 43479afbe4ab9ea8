use workpool::permits::PermitManager;

#[test]
fn new_manager_allows_max_permits() {
    let mut manager = PermitManager::new(3);
    assert!(manager.try_acquire());
    assert!(manager.try_acquire());
    assert!(manager.try_acquire());
    assert!(!manager.try_acquire());
}

#[test]
fn permits_are_reusable() {
    let mut manager = PermitManager::new(2);
    assert!(manager.try_acquire());
    assert!(manager.try_acquire());
    assert!(!manager.try_acquire());
    manager.release();
    assert!(manager.try_acquire());
}

#[test]
fn zero_permits_never_acquire() {
    let mut manager = PermitManager::new(0);
    assert!(!manager.try_acquire());
    assert_eq!(manager.available_permits(), 0);
    manager.release();
    assert_eq!(manager.available_permits(), 1);
}
