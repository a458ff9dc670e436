use respkv::Keyspace;
use respkv::SetOutcome;
use respkv::reap;
use respkv::sample_expired;
use respkv::sweep;

fn k(s: &[u8]) -> Vec<u8> {
    s.to_vec()
}

fn plain_set(ks: &mut Keyspace, key: &[u8], value: &[u8], expiry: Option<u64>, now: u64) {
    let outcome = ks.set(&k(key), value.to_vec(), expiry, false, false, now);
    assert!(matches!(outcome, SetOutcome::Applied { .. }));
}

#[test]
fn set_then_get_returns_value() {
    let mut ks = Keyspace::new();
    plain_set(&mut ks, b"foo", b"bar", None, 10);
    assert_eq!(ks.get(&k(b"foo"), 11), Some(b"bar".to_vec()));
    assert_eq!(ks.get(&k(b"missing"), 11), None);
}

#[test]
fn set_replaces_value() {
    let mut ks = Keyspace::new();
    plain_set(&mut ks, b"key", b"v1", None, 0);
    plain_set(&mut ks, b"key", b"v2", None, 0);
    assert_eq!(ks.get(&k(b"key"), 0), Some(b"v2".to_vec()));
    assert_eq!(ks.num_entries(), 1);
}

#[test]
fn get_past_expiry_returns_nothing_and_evicts() {
    let mut ks = Keyspace::new();
    plain_set(&mut ks, b"foo", b"bar", Some(1100), 1000);
    assert_eq!(ks.get(&k(b"foo"), 1099), Some(b"bar".to_vec()));
    // At the expiry instant the value is already invisible.
    assert_eq!(ks.get(&k(b"foo"), 1100), None);
    assert_eq!(ks.num_entries(), 0);
    // And it stays gone, even for reads at earlier instants.
    assert_eq!(ks.get(&k(b"foo"), 1000), None);
}

#[test]
fn set_nx_applies_only_when_absent() {
    let mut ks = Keyspace::new();
    let first = ks.set(&k(b"k"), b"v1".to_vec(), None, true, false, 0);
    assert!(matches!(first, SetOutcome::Applied { .. }));
    let second = ks.set(&k(b"k"), b"v2".to_vec(), None, true, false, 0);
    assert!(matches!(second, SetOutcome::NotApplied));
    assert_eq!(ks.get(&k(b"k"), 0), Some(b"v1".to_vec()));
}

#[test]
fn set_xx_applies_only_when_present() {
    let mut ks = Keyspace::new();
    let miss = ks.set(&k(b"k"), b"v1".to_vec(), None, false, true, 0);
    assert!(matches!(miss, SetOutcome::NotApplied));
    assert_eq!(ks.get(&k(b"k"), 0), None);
    plain_set(&mut ks, b"k", b"v1", None, 0);
    let hit = ks.set(&k(b"k"), b"v2".to_vec(), None, false, true, 0);
    assert!(matches!(hit, SetOutcome::Applied { .. }));
    assert_eq!(ks.get(&k(b"k"), 0), Some(b"v2".to_vec()));
}

#[test]
fn set_nx_treats_expired_entry_as_absent() {
    let mut ks = Keyspace::new();
    plain_set(&mut ks, b"k", b"old", Some(50), 0);
    let outcome = ks.set(&k(b"k"), b"new".to_vec(), None, true, false, 60);
    assert!(matches!(outcome, SetOutcome::Applied { prev: None }));
    assert_eq!(ks.get(&k(b"k"), 60), Some(b"new".to_vec()));
}

#[test]
fn set_reports_previous_value() {
    let mut ks = Keyspace::new();
    plain_set(&mut ks, b"k", b"v1", None, 0);
    match ks.set(&k(b"k"), b"v2".to_vec(), None, false, false, 0) {
        SetOutcome::Applied { prev } => assert_eq!(prev, Some(b"v1".to_vec())),
        SetOutcome::NotApplied => panic!("unconditional set must apply"),
    }
}

#[test]
fn evict_removes_listed_keys() {
    let mut ks = Keyspace::new();
    plain_set(&mut ks, b"a", b"1", None, 0);
    plain_set(&mut ks, b"b", b"2", None, 0);
    plain_set(&mut ks, b"c", b"3", None, 0);
    ks.evict(&vec![k(b"a"), k(b"c"), k(b"zz")]);
    assert_eq!(ks.num_entries(), 1);
    assert_eq!(ks.get(&k(b"b"), 0), Some(b"2".to_vec()));
    assert_eq!(ks.get(&k(b"a"), 0), None);
}

#[test]
fn sample_expired_returns_only_expired_keys() {
    let mut ks = Keyspace::new();
    plain_set(&mut ks, b"live", b"x", Some(1000), 0);
    plain_set(&mut ks, b"gone", b"y", Some(10), 0);
    plain_set(&mut ks, b"forever", b"z", None, 0);
    let (expired, sampled) = sample_expired(&ks, 20, 500);
    assert!(sampled <= 20);
    assert_eq!(expired.len(), 1);
    assert_eq!(expired[0], k(b"gone"));
}

#[test]
fn sweep_never_removes_live_entries() {
    let mut ks = Keyspace::new();
    plain_set(&mut ks, b"live", b"x", Some(1000), 0);
    plain_set(&mut ks, b"forever", b"y", None, 0);
    plain_set(&mut ks, b"dead", b"z", Some(10), 0);
    sweep(&mut ks, 500);
    assert_eq!(ks.get(&k(b"live"), 500), Some(b"x".to_vec()));
    assert_eq!(ks.get(&k(b"forever"), 500), Some(b"y".to_vec()));
    assert_eq!(ks.get(&k(b"dead"), 500), None);
}

#[test]
fn reap_clears_all_expired_entries() {
    let mut ks = Keyspace::new();
    for i in 0..10u8 {
        let key = vec![b'k', i];
        ks.set(&key, b"v".to_vec(), Some(100 + i as u64), false, false, 0);
    }
    plain_set(&mut ks, b"keep", b"v", Some(10_000), 0);
    plain_set(&mut ks, b"stay", b"v", None, 0);
    reap(&mut ks, 5000);
    assert_eq!(ks.num_entries(), 2);
    assert_eq!(ks.get(&k(b"keep"), 5000), Some(b"v".to_vec()));
    assert_eq!(ks.get(&k(b"stay"), 5000), Some(b"v".to_vec()));
}

#[test]
fn reap_handles_bursts_larger_than_one_sample() {
    let mut ks = Keyspace::new();
    for i in 0..60u8 {
        let key = vec![b'e', i];
        ks.set(&key, b"v".to_vec(), Some(5), false, false, 0);
    }
    reap(&mut ks, 100);
    // Sampling is random, but with every expirable entry expired the
    // adaptive repeat keeps sweeping until nothing is left.
    assert_eq!(ks.num_entries(), 0);
}
