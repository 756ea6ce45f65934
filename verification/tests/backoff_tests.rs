use cityhall::replication::backoff::ExponentialBackoff;

#[test]
fn test_backoff_starts_at_minimum() {
    let backoff = ExponentialBackoff::new();
    assert_eq!(backoff.current(), 1000);
    assert_eq!(backoff.attempts(), 0);
}

#[test]
fn test_backoff_increases_exponentially() {
    let mut backoff = ExponentialBackoff::new();

    let first = backoff.next();
    assert!(first >= 750 && first <= 1250);
    assert_eq!(backoff.current(), 2000);
    assert_eq!(backoff.attempts(), 1);

    let second = backoff.next();
    assert!(second >= 1500 && second <= 2500);
    assert_eq!(backoff.current(), 4000);
    assert_eq!(backoff.attempts(), 2);

    let third = backoff.next();
    assert!(third >= 3000 && third <= 5000);
    assert_eq!(backoff.current(), 8000);
    assert_eq!(backoff.attempts(), 3);
}

#[test]
fn test_backoff_caps_at_maximum() {
    let mut backoff = ExponentialBackoff::with_params(1000, 10000, 2);

    for _ in 0..10 {
        backoff.next();
    }

    assert!(backoff.is_maxed());
    assert_eq!(backoff.current(), 10000);

    let next = backoff.next();
    assert!(next >= 7500 && next <= 12500);
    assert_eq!(backoff.current(), 10000);
}

#[test]
fn test_backoff_reset() {
    let mut backoff = ExponentialBackoff::new();

    backoff.next();
    backoff.next();
    backoff.next();

    assert_eq!(backoff.current(), 8000);
    assert_eq!(backoff.attempts(), 3);

    backoff.reset();

    assert_eq!(backoff.current(), 1000);
    assert_eq!(backoff.attempts(), 0);
    assert!(!backoff.is_maxed());
}

#[test]
fn test_jitter_varies() {
    let mut samples = Vec::new();
    for _ in 0..10 {
        let mut b = ExponentialBackoff::new();
        samples.push(b.next());
    }

    let min = *samples.iter().min().unwrap();
    let max = *samples.iter().max().unwrap();

    assert!(min >= 750, "min sample {} should be >= 750 ms", min);
    assert!(max <= 1250, "max sample {} should be <= 1250 ms", max);
    assert!(max > min, "jitter should create variation");
}

#[test]
fn test_custom_parameters() {
    let mut backoff = ExponentialBackoff::with_params(500, 5000, 3);

    assert_eq!(backoff.current(), 500);

    backoff.next();
    assert_eq!(backoff.current(), 1500);

    backoff.next();
    assert_eq!(backoff.current(), 4500);

    backoff.next();
    assert_eq!(backoff.current(), 5000);
}

#[test]
fn test_zero_attempts_initially() {
    let backoff = ExponentialBackoff::new();
    assert_eq!(backoff.attempts(), 0);
}

#[test]
fn test_attempts_increment() {
    let mut backoff = ExponentialBackoff::new();

    for i in 1..=5u64 {
        backoff.next();
        assert_eq!(backoff.attempts(), i);
    }
}

#[test]
fn test_attempts_reset() {
    let mut backoff = ExponentialBackoff::new();

    backoff.next();
    backoff.next();
    assert_eq!(backoff.attempts(), 2);

    backoff.reset();
    assert_eq!(backoff.attempts(), 0);
}

#[test]
fn test_realistic_scenario() {
    let mut backoff = ExponentialBackoff::new();

    let waits: Vec<u64> = (0..5).map(|_| backoff.next()).collect();

    assert!(waits[1] > waits[0]);
    assert!(waits[2] > waits[1]);
    assert!(waits[3] > waits[2]);
    assert!(waits[4] > waits[3]);

    backoff.reset();
    let first_after_reset = backoff.next();

    assert!(first_after_reset >= 750);
    assert!(first_after_reset <= 1250);
}
