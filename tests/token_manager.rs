use std::sync::atomic::{AtomicUsize, Ordering};
use std::sync::Arc;
use workpool::token::TokenManager;

type TokenAcquirer = dyn Fn() -> Result<(String, u64), String> + Send + Sync;

#[test]
fn a_new_manager_contains_no_token() {
    let a: Box<TokenAcquirer> = Box::new(|| Err("failure".to_string()));
    let manager = TokenManager::new(a);
    assert!(manager.try_get_token().is_none());
}

#[test]
fn a_failing_acquirer_always_returns_an_error() {
    let a: Box<TokenAcquirer> = Box::new(|| Err("failure".to_string()));
    let mut manager = TokenManager::new(a);
    assert_eq!(manager.get_token(), Err("failure".to_string()));
    assert_eq!(manager.get_token(), Err("failure".to_string()));
}

#[test]
fn a_successful_acquirer_always_returns_success() {
    let a: Box<TokenAcquirer> = Box::new(|| Ok(("abc".to_string(), 0)));
    let mut manager = TokenManager::new(a);
    assert_eq!(manager.get_token(), Ok("abc".to_string()));
}

#[test]
fn a_valid_token_is_reused_until_it_expires() {
    let calls = Arc::new(AtomicUsize::new(0));
    let c = calls.clone();
    let a: Box<TokenAcquirer> = Box::new(move || {
        let n = c.fetch_add(1, Ordering::SeqCst);
        Ok((format!("tok{}", n), 100))
    });
    let mut manager = TokenManager::new(a);
    assert_eq!(manager.get_token_at(10), Ok("tok0".to_string()));
    assert_eq!(manager.get_token_at(99), Ok("tok0".to_string()));
    assert_eq!(manager.try_get_token_at(99), Some("tok0".to_string()));
    assert_eq!(manager.try_get_token_at(100), None);
    assert_eq!(manager.get_token_at(100), Ok("tok1".to_string()));
    assert_eq!(calls.load(Ordering::SeqCst), 2);
}
