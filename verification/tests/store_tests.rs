use askai_limiter::store::MemStore;

#[test]
fn absent_key_reads_none_at_version_zero() {
    let s = MemStore::new();
    let (v, cas) = s.get(b"askai:total");
    assert_eq!(v, None);
    assert_eq!(cas, 0);
}

#[test]
fn create_succeeds_only_against_version_zero() {
    let mut s = MemStore::new();
    assert!(!s.set_cas(b"k", b"1", 7));
    assert!(s.set_cas(b"k", b"1", 0));
    let (v, cas) = s.get(b"k");
    assert_eq!(v, Some(b"1".to_vec()));
    assert_eq!(cas, 1);
}

#[test]
fn stale_version_loses_fresh_version_wins() {
    let mut s = MemStore::new();
    assert!(s.set_cas(b"k", b"1", 0));
    assert!(!s.set_cas(b"k", b"2", 0));
    let (v, cas) = s.get(b"k");
    assert_eq!(v, Some(b"1".to_vec()));
    assert!(s.set_cas(b"k", b"2", cas));
    assert_eq!(s.get(b"k").0, Some(b"2".to_vec()));
}

#[test]
fn writes_do_not_disturb_other_keys() {
    let mut s = MemStore::new();
    assert!(s.set_cas(b"a", b"1", 0));
    assert!(s.set_cas(b"b", b"9", 0));
    assert!(s.set_cas(b"a", b"2", 1));
    assert_eq!(s.get(b"b").0, Some(b"9".to_vec()));
    assert_eq!(s.get(b"a").0, Some(b"2".to_vec()));
    assert_eq!(s.get(b"c").0, None);
}
