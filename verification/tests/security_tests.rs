use admin_core::security::{
    CsrfTokenStore, RateLimiter, SecurityConfig, CSRF_TOKEN_EXPIRY_MS, MAX_REQUESTS_PER_WINDOW,
    RATE_LIMIT_WINDOW_MS,
};

#[test]
fn test_csrf_token_generation_and_validation() {
    let mut store = CsrfTokenStore::new();
    let token = store.generate_csrf_token(0);
    assert!(store.validate_csrf_token(&token, 1));
    assert!(!store.validate_csrf_token(&token, 2));
}

#[test]
fn test_rate_limiting() {
    let identifier = "test_client";
    let mut limiter = RateLimiter::new();
    for _ in 0..MAX_REQUESTS_PER_WINDOW {
        assert!(limiter.check_rate_limit(identifier, 0).is_ok());
    }
    assert!(limiter.check_rate_limit(identifier, 1).is_err());
    assert!(limiter.check_rate_limit(identifier, RATE_LIMIT_WINDOW_MS).is_ok());
}

#[test]
fn rate_limit_exceeded_names_the_condition() {
    let mut limiter = RateLimiter::new();
    for _ in 0..MAX_REQUESTS_PER_WINDOW {
        limiter.check_rate_limit("x", 0).unwrap();
    }
    assert_eq!(limiter.check_rate_limit("x", 0), Err("Rate limit exceeded".to_string()));
}

#[test]
fn rate_limit_tracks_identifiers_independently() {
    let mut limiter = RateLimiter::new();
    for _ in 0..MAX_REQUESTS_PER_WINDOW {
        assert!(limiter.check_rate_limit("a", 0).is_ok());
    }
    assert!(limiter.check_rate_limit("a", 0).is_err());
    assert!(limiter.check_rate_limit("b", 0).is_ok());
}

#[test]
fn cleanup_rate_limits_drops_stale_identifiers() {
    let mut limiter = RateLimiter::new();
    for _ in 0..MAX_REQUESTS_PER_WINDOW {
        limiter.check_rate_limit("x", 0).unwrap();
    }
    assert!(limiter.check_rate_limit("x", 10).is_err());
    limiter.cleanup_rate_limits(RATE_LIMIT_WINDOW_MS + 10);
    assert!(limiter.check_rate_limit("x", RATE_LIMIT_WINDOW_MS + 11).is_ok());
}

#[test]
fn expired_token_is_rejected_but_kept_for_sweep() {
    let mut store = CsrfTokenStore::new();
    let token = store.generate_csrf_token(0);
    assert!(!store.validate_csrf_token(&token, CSRF_TOKEN_EXPIRY_MS));
    // rejection leaves the entry; only the sweep reclaims it
    assert!(!store.validate_csrf_token(&token, CSRF_TOKEN_EXPIRY_MS + 1));
    store.cleanup_expired_csrf_tokens(CSRF_TOKEN_EXPIRY_MS);
    assert!(!store.validate_csrf_token(&token, CSRF_TOKEN_EXPIRY_MS + 2));
}

#[test]
fn cleanup_keeps_live_tokens_usable() {
    let mut store = CsrfTokenStore::new();
    let token = store.generate_csrf_token(0);
    store.cleanup_expired_csrf_tokens(10);
    assert!(store.validate_csrf_token(&token, 11));
}

#[test]
fn token_is_32_alphanumeric_characters() {
    let mut store = CsrfTokenStore::new();
    let token = store.generate_csrf_token(0);
    assert_eq!(token.chars().count(), 32);
    assert!(token.chars().all(|c| c.is_ascii_alphanumeric()));
}

#[test]
fn default_config_enables_rate_limiting() {
    let config = SecurityConfig::default();
    assert!(config.rate_limit_enabled);
    assert_eq!(config.max_requests_per_window, MAX_REQUESTS_PER_WINDOW);
    assert!(config.csrf_token.is_empty());
}

#[test]
fn fresh_config_token_validates_once() {
    let mut store = CsrfTokenStore::new();
    let config = SecurityConfig::with_fresh_token(&mut store, 5);
    assert_eq!(config.csrf_token.chars().count(), 32);
    assert!(store.validate_csrf_token(&config.csrf_token, 6));
    assert!(!store.validate_csrf_token(&config.csrf_token, 7));
}
