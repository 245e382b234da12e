use askai_limiter::config::Config;
use askai_limiter::key::window_key_for;

#[test]
fn windowed_key_is_prefix_and_bucket() {
    let cfg = Config { limit: 3, window: Some(60) };
    assert_eq!(window_key_for(120, &cfg), b"askai:2".to_vec());
}

#[test]
fn key_is_stable_within_a_bucket() {
    let cfg = Config { limit: 3, window: Some(60) };
    assert_eq!(window_key_for(120, &cfg), window_key_for(125, &cfg));
    assert_eq!(window_key_for(120, &cfg), window_key_for(179, &cfg));
}

#[test]
fn key_changes_across_the_bucket_boundary() {
    let cfg = Config { limit: 3, window: Some(60) };
    assert_ne!(window_key_for(179, &cfg), window_key_for(180, &cfg));
    assert_eq!(window_key_for(180, &cfg), b"askai:3".to_vec());
}

#[test]
fn unwindowed_key_is_the_total_constant() {
    let cfg = Config { limit: 3, window: None };
    assert_eq!(window_key_for(0, &cfg), b"askai:total".to_vec());
    assert_eq!(window_key_for(120, &cfg), b"askai:total".to_vec());
    assert_eq!(window_key_for(u64::MAX, &cfg), b"askai:total".to_vec());
}

#[test]
fn one_second_window_uses_raw_seconds() {
    let cfg = Config { limit: 1, window: Some(1) };
    assert_eq!(window_key_for(1234, &cfg), b"askai:1234".to_vec());
}
