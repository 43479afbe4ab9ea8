use workpool::latch::{LatchState, WaitResult};

#[test]
fn counting_down_to_zero_succeeds() {
    let mut l = LatchState::new(2);
    assert_eq!(l.outcome(), None);
    l.count_down();
    assert_eq!(l.outcome(), None);
    l.count_down();
    assert_eq!(l.outcome(), Some(WaitResult::Success));
    l.count_down();
    assert_eq!(l.outcome(), Some(WaitResult::Success));
}

#[test]
fn zero_count_succeeds_at_once() {
    assert_eq!(LatchState::new(0).outcome(), Some(WaitResult::Success));
}

#[test]
fn cancel_wins_over_count_down() {
    let mut l = LatchState::new(2);
    l.cancel();
    l.count_down();
    l.count_down();
    assert_eq!(l.outcome(), Some(WaitResult::Canceled));
    assert_eq!(l.outcome_after_timeout(), WaitResult::Canceled);
}

#[test]
fn timeout_only_while_still_waiting() {
    let mut l = LatchState::new(2);
    l.count_down();
    assert_eq!(l.outcome_after_timeout(), WaitResult::Timeout);
    l.count_down();
    assert_eq!(l.outcome_after_timeout(), WaitResult::Success);
}

#[test]
fn test_count_down_to_zero() {
    let mut latch = LatchState::new(2);
    latch.count_down();
    latch.count_down();
    assert_eq!(latch.outcome(), Some(WaitResult::Success));
}

#[test]
fn test_wait_with_timeout_success() {
    let mut latch = LatchState::new(1);
    latch.count_down();
    assert_eq!(latch.outcome_after_timeout(), WaitResult::Success);
}

#[test]
fn test_cancel_before_wait() {
    let mut latch = LatchState::new(2);
    latch.cancel();
    assert_eq!(latch.outcome(), Some(WaitResult::Canceled));
}

#[test]
fn test_count_down_more_than_initial() {
    let mut latch = LatchState::new(2);
    latch.count_down();
    latch.count_down();
    latch.count_down();
    assert_eq!(latch.outcome(), Some(WaitResult::Success));
}

#[test]
fn test_zero_initial_count() {
    let latch = LatchState::new(0);
    assert_eq!(latch.outcome(), Some(WaitResult::Success));
}

#[test]
fn test_timeout_with_partial_countdown() {
    let mut latch = LatchState::new(2);
    latch.count_down();
    assert_eq!(latch.outcome(), None);
    assert_eq!(latch.outcome_after_timeout(), WaitResult::Timeout);
}

#[test]
fn test_wait_after_cancel() {
    let mut latch = LatchState::new(2);
    latch.cancel();
    assert_eq!(latch.outcome(), Some(WaitResult::Canceled));
    assert_eq!(latch.outcome(), Some(WaitResult::Canceled));
    assert_eq!(latch.outcome_after_timeout(), WaitResult::Canceled);
}

#[test]
fn test_count_down_after_cancel() {
    let mut latch = LatchState::new(2);
    latch.cancel();
    latch.count_down();
    latch.count_down();
    assert_eq!(latch.outcome(), Some(WaitResult::Canceled));
}
