use cityhall::metrics::{Counter, Gauge, Histogram, Metrics};

#[test]
fn test_counter() {
    let mut counter = Counter::new();
    assert_eq!(counter.get(), 0);

    counter.inc();
    assert_eq!(counter.get(), 1);

    counter.add(99);
    assert_eq!(counter.get(), 100);

    counter.reset();
    assert_eq!(counter.get(), 0);
}

#[test]
fn test_gauge() {
    let mut gauge = Gauge::new();
    assert_eq!(gauge.get(), 0);

    gauge.set(42);
    assert_eq!(gauge.get(), 42);

    gauge.inc();
    assert_eq!(gauge.get(), 43);

    gauge.dec();
    assert_eq!(gauge.get(), 42);

    gauge.add(10);
    assert_eq!(gauge.get(), 52);

    gauge.sub(2);
    assert_eq!(gauge.get(), 50);
}

#[test]
fn test_histogram() {
    let mut hist = Histogram::new();

    for i in 1..=100u64 {
        hist.observe(i);
    }

    assert_eq!(hist.count(), 100);

    let p50 = hist.percentile(500);
    let p99 = hist.percentile(990);

    assert!(p50 >= 45 && p50 <= 55);
    assert!(p99 >= 95 && p99 <= 100);
}

#[test]
fn test_computed_metrics() {
    let mut metrics = Metrics::new();

    metrics.reads_total.add(100);
    metrics.reads_hits.add(80);
    metrics.reads_misses.add(20);
    assert_eq!(metrics.read_hit_rate_percent(), 80);
    assert_eq!(metrics.read_miss_rate_percent(), 20);

    metrics.compaction_bytes_in.add(1000);
    metrics.compaction_bytes_out.add(300);
    assert_eq!(metrics.compaction_space_savings_percent(), 70);
}

#[test]
fn test_metrics_reset() {
    let mut metrics = Metrics::new();

    metrics.reset();

    metrics.writes_total.add(100);
    metrics.reads_total.add(50);

    assert_eq!(metrics.writes_total.get(), 100);

    metrics.reset();

    assert_eq!(metrics.writes_total.get(), 0);
    assert_eq!(metrics.reads_total.get(), 0);
}

#[test]
fn test_metrics_validation_test_computed_metrics() {
    let mut metrics = Metrics::new();

    metrics.reset();

    metrics.reads_total.add(100);
    metrics.reads_hits.add(75);
    metrics.reads_misses.add(25);

    assert_eq!(metrics.read_hit_rate_percent(), 75);
    assert_eq!(metrics.read_miss_rate_percent(), 25);

    metrics.compaction_bytes_in.add(1000);
    metrics.compaction_bytes_out.add(300);

    assert_eq!(metrics.compaction_space_savings_percent(), 70);
}

#[test]
fn test_histogram_reservoir_stays_bounded() {
    let mut hist = Histogram::with_capacity(16);
    for i in 0..1000u64 {
        hist.observe(i);
    }
    assert_eq!(hist.count(), 16);
    hist.reset();
    assert_eq!(hist.count(), 0);
    assert_eq!(hist.percentile(500), 0);
}

#[test]
fn test_write_amplification_percent() {
    let mut metrics = Metrics::new();
    assert_eq!(metrics.write_amplification_percent(), 100);
    metrics.writes_bytes.add(100);
    metrics.compaction_bytes_out.add(150);
    assert_eq!(metrics.write_amplification_percent(), 150);
    metrics.compaction_bytes_out.add(50);
    assert_eq!(metrics.write_amplification_percent(), 200);
}

#[test]
fn test_summary_renders_every_counter() {
    let mut metrics = Metrics::new();
    metrics.writes_total.add(2);
    metrics.writes_bytes.add(34);
    metrics.reads_total.add(3);
    metrics.reads_hits.add(2);
    metrics.reads_misses.add(1);
    metrics.flushes_total.add(1);
    metrics.compactions_total.add(1);
    metrics.compaction_bytes_in.add(500);
    metrics.compaction_bytes_out.add(400);
    metrics.memtable_size_bytes.set(64);
    metrics.memtable_entries.set(2);
    metrics.sstable_count.set(1);
    let text = metrics.summary();
    assert_eq!(
        text,
        "storage engine metrics\n\
         writes: 2 (34 bytes)\n\
         reads: 3 (hits 2, misses 1)\n\
         flushes: 1\n\
         compactions: 1 (in 500 bytes, out 400 bytes)\n\
         memtable: 64 bytes (2 entries)\n\
         sstables: 1\n"
    );
}
