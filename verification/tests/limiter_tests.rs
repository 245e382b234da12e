use askai_limiter::config::{parse_config, Config};
use askai_limiter::limiter::{admit_request, counter_from_bytes, plan_admit, AdmitStep, Decision};
use askai_limiter::response::{deny_body, DENY_STATUS};
use askai_limiter::store::MemStore;

#[test]
fn scenario_three_per_minute() {
    let cfg = parse_config(b"limit=3,window=60", Config::default());
    let mut store = MemStore::new();

    assert_eq!(admit_request(120, &cfg, &mut store), Decision::Allow);
    assert_eq!(admit_request(120, &cfg, &mut store), Decision::Allow);
    assert_eq!(admit_request(121, &cfg, &mut store), Decision::Allow);
    assert_eq!(store.get(b"askai:2").0, Some(b"3".to_vec()));

    assert_eq!(admit_request(125, &cfg, &mut store), Decision::Deny);
    assert_eq!(deny_body(), b"{\"error\":\"API limit reached\"}".to_vec());
    assert_eq!(DENY_STATUS, 429);
    assert_eq!(store.get(b"askai:2").0, Some(b"3".to_vec()));

    assert_eq!(admit_request(180, &cfg, &mut store), Decision::Allow);
    assert_eq!(store.get(b"askai:3").0, Some(b"1".to_vec()));
}

#[test]
fn scenario_one_per_day() {
    let cfg = parse_config(b"limit=1", Config::default());
    assert_eq!(cfg.window, Some(86400));
    let mut store = MemStore::new();

    assert_eq!(admit_request(1000, &cfg, &mut store), Decision::Allow);
    assert_eq!(admit_request(2000, &cfg, &mut store), Decision::Deny);

    let next_day = 1000 + 86400;
    assert_eq!(admit_request(next_day, &cfg, &mut store), Decision::Allow);
}

#[test]
fn denial_is_idempotent_within_a_window() {
    let cfg = Config { limit: 2, window: Some(60) };
    let mut store = MemStore::new();
    assert_eq!(admit_request(10, &cfg, &mut store), Decision::Allow);
    assert_eq!(admit_request(10, &cfg, &mut store), Decision::Allow);
    for _ in 0..5 {
        assert_eq!(admit_request(10, &cfg, &mut store), Decision::Deny);
    }
    assert_eq!(store.get(b"askai:0").0, Some(b"2".to_vec()));
}

#[test]
fn unwindowed_counter_never_resets() {
    let cfg = Config { limit: 2, window: None };
    let mut store = MemStore::new();
    assert_eq!(admit_request(0, &cfg, &mut store), Decision::Allow);
    assert_eq!(admit_request(1_000_000, &cfg, &mut store), Decision::Allow);
    assert_eq!(admit_request(2_000_000, &cfg, &mut store), Decision::Deny);
    assert_eq!(store.get(b"askai:total").0, Some(b"2".to_vec()));
}

#[test]
fn corrupt_counter_fails_open_as_zero() {
    let cfg = Config { limit: 3, window: None };
    let mut store = MemStore::new();
    assert!(store.set_cas(b"askai:total", b"garbage", 0));
    assert_eq!(admit_request(5, &cfg, &mut store), Decision::Allow);
    assert_eq!(store.get(b"askai:total").0, Some(b"1".to_vec()));
}

#[test]
fn zero_limit_denies_everything() {
    let cfg = Config { limit: 0, window: Some(60) };
    let mut store = MemStore::new();
    assert_eq!(admit_request(0, &cfg, &mut store), Decision::Deny);
    assert_eq!(store.get(b"askai:0").0, None);
}

#[test]
fn counter_from_bytes_reads_decimal_or_zero() {
    assert_eq!(counter_from_bytes(&None), 0);
    assert_eq!(counter_from_bytes(&Some(b"42".to_vec())), 42);
    assert_eq!(counter_from_bytes(&Some(b"x".to_vec())), 0);
    assert_eq!(counter_from_bytes(&Some(b"".to_vec())), 0);
    assert_eq!(counter_from_bytes(&Some(b"4294967296".to_vec())), 0);
}

#[test]
fn plan_admit_denies_at_the_quota() {
    match plan_admit(&Some(b"5".to_vec()), 5) {
        AdmitStep::Deny => {}
        AdmitStep::Write(_) => panic!("a count at the quota must be denied"),
    }
}

#[test]
fn plan_admit_writes_the_incremented_count() {
    match plan_admit(&Some(b"5".to_vec()), 6) {
        AdmitStep::Deny => panic!("a count below the quota must be admitted"),
        AdmitStep::Write(v) => assert_eq!(v, b"6".to_vec()),
    }
    match plan_admit(&None, 1) {
        AdmitStep::Deny => panic!("an absent counter must be admitted"),
        AdmitStep::Write(v) => assert_eq!(v, b"1".to_vec()),
    }
}

#[test]
fn racing_attempts_admit_at_most_one() {
    // Two attempts race on the last admission under the quota: both read the
    // same count and version, both plan a write, only one write lands.
    let cfg = Config { limit: 3, window: None };
    let mut store = MemStore::new();
    assert_eq!(admit_request(0, &cfg, &mut store), Decision::Allow);
    assert_eq!(admit_request(0, &cfg, &mut store), Decision::Allow);

    let key: &[u8] = b"askai:total";
    let (data_a, cas_a) = store.get(key);
    let (data_b, cas_b) = store.get(key);
    assert_eq!(cas_a, cas_b);

    let step_a = plan_admit(&data_a, cfg.limit);
    let step_b = plan_admit(&data_b, cfg.limit);

    // attempt A lands its write and is admitted
    match step_a {
        AdmitStep::Write(v) => assert!(store.set_cas(key, &v, cas_a)),
        AdmitStep::Deny => panic!("count 2 of 3 must be admitted"),
    }
    // attempt B's conditional write loses: the version has moved
    match step_b {
        AdmitStep::Write(v) => assert!(!store.set_cas(key, &v, cas_b)),
        AdmitStep::Deny => panic!("count 2 of 3 must be admitted"),
    }
    // attempt B retries with a fresh read, sees the quota reached, denies
    let (data_b2, _) = store.get(key);
    assert_eq!(counter_from_bytes(&data_b2), 3);
    match plan_admit(&data_b2, cfg.limit) {
        AdmitStep::Deny => {}
        AdmitStep::Write(_) => panic!("a count at the quota must be denied"),
    }
    // no lost update: the final count is exactly the quota
    assert_eq!(store.get(key).0, Some(b"3".to_vec()));
}
