//! Metrics of the storage engine: counters, gauges and reservoir-sampled
//! histograms.

use vstd::prelude::*;
use vstd::string::StringExecFns;
use crate::numfmt::{fmt_u64, spec_decimal};

verus! {

/// A monotonic counter.
#[derive(Debug)]
pub struct Counter {
    pub value: u64,
}

impl Counter {
    pub fn new() -> (c: Counter)
        ensures
            c.value == 0,
    {
        Counter { value: 0 }
    }

    /// Count one event; the counter saturates at `u64::MAX`.
    pub fn inc(&mut self)
        ensures
            final(self).value == if old(self).value < u64::MAX {
                old(self).value + 1
            } else {
                u64::MAX as int
            },
    {
        if self.value < u64::MAX {
            self.value = self.value + 1;
        }
    }

    /// Count `delta` events; the counter saturates at `u64::MAX`.
    pub fn add(&mut self, delta: u64)
        ensures
            final(self).value == if old(self).value + delta <= u64::MAX {
                old(self).value + delta
            } else {
                u64::MAX as int
            },
    {
        if self.value <= u64::MAX - delta {
            self.value = self.value + delta;
        } else {
            self.value = u64::MAX;
        }
    }

    pub fn get(&self) -> (r: u64)
        ensures
            r == self.value,
    {
        self.value
    }

    pub fn reset(&mut self)
        ensures
            final(self).value == 0,
    {
        self.value = 0;
    }
}

/// A gauge: a mutable level.
#[derive(Debug)]
pub struct Gauge {
    pub value: u64,
}

impl Gauge {
    pub fn new() -> (g: Gauge)
        ensures
            g.value == 0,
    {
        Gauge { value: 0 }
    }

    pub fn set(&mut self, value: u64)
        ensures
            final(self).value == value,
    {
        self.value = value;
    }

    /// Raise the level by one; saturates at `u64::MAX`.
    pub fn inc(&mut self)
        ensures
            final(self).value == if old(self).value < u64::MAX {
                old(self).value + 1
            } else {
                u64::MAX as int
            },
    {
        if self.value < u64::MAX {
            self.value = self.value + 1;
        }
    }

    /// Lower the level by one; saturates at zero.
    pub fn dec(&mut self)
        ensures
            final(self).value == if old(self).value > 0 {
                old(self).value - 1
            } else {
                0int
            },
    {
        if self.value > 0 {
            self.value = self.value - 1;
        }
    }

    /// Raise the level by `delta`; saturates at `u64::MAX`.
    pub fn add(&mut self, delta: u64)
        ensures
            final(self).value == if old(self).value + delta <= u64::MAX {
                old(self).value + delta
            } else {
                u64::MAX as int
            },
    {
        if self.value <= u64::MAX - delta {
            self.value = self.value + delta;
        } else {
            self.value = u64::MAX;
        }
    }

    /// Lower the level by `delta`; saturates at zero.
    pub fn sub(&mut self, delta: u64)
        ensures
            final(self).value == if old(self).value >= delta {
                old(self).value - delta
            } else {
                0int
            },
    {
        if self.value >= delta {
            self.value = self.value - delta;
        } else {
            self.value = 0;
        }
    }

    pub fn get(&self) -> (r: u64)
        ensures
            r == self.value,
    {
        self.value
    }
}

/// Relies on `fastrand::usize` over `0..bound`: a value below the bound.
#[verifier::external_body]
fn random_index(bound: usize) -> (r: usize)
    requires
        bound >= 1,
    ensures
        r < bound,
{
    fastrand::usize(..bound)
}

/// A reservoir-sampled histogram of microsecond latencies: a bounded
/// sample; once full, a uniformly chosen slot is replaced.
#[derive(Debug)]
pub struct Histogram {
    pub samples: Vec<u64>,
    pub max_samples: usize,
}

impl Histogram {
    pub open spec fn wf(self) -> bool {
        &&& self.samples@.len() <= self.max_samples
        &&& self.max_samples >= 1
    }

    /// The default reservoir: ten thousand samples.
    pub fn new() -> (h: Histogram)
        ensures
            h.wf(),
            h.samples@.len() == 0,
            h.max_samples == 10000,
    {
        Histogram::with_capacity(10000)
    }

    /// A reservoir of up to `max_samples` samples (at least one).
    pub fn with_capacity(max_samples: usize) -> (h: Histogram)
        ensures
            h.wf(),
            h.samples@.len() == 0,
            h.max_samples == if max_samples >= 1 {
                max_samples as int
            } else {
                1int
            },
    {
        let capped = if max_samples >= 1 {
            max_samples
        } else {
            1
        };
        Histogram { samples: Vec::new(), max_samples: capped }
    }

    /// Record one sample: appended while the reservoir has room, else it
    /// replaces a uniformly chosen slot.
    pub fn observe(&mut self, micros: u64)
        requires
            old(self).wf(),
        ensures
            final(self).wf(),
            final(self).max_samples == old(self).max_samples,
            old(self).samples@.len() < old(self).max_samples ==> final(self).samples@ == old(
                self,
            ).samples@.push(micros),
            old(self).samples@.len() >= old(self).max_samples ==> final(self).samples@.len()
                == old(self).samples@.len() && (exists|i: int|
                0 <= i < old(self).samples@.len() && final(self).samples@ == old(
                    self,
                ).samples@.update(i, micros)),
    {
        if self.samples.len() < self.max_samples {
            self.samples.push(micros);
        } else {
            let idx = random_index(self.samples.len());
            self.samples.set(idx, micros);
        }
    }

    /// The sample at the requested per-mille rank of the sorted reservoir
    /// (500 is the median, 990 the 99th percentile); zero when empty.
    pub fn percentile(&self, per_mille: u64) -> (r: u64)
        requires
            self.wf(),
        ensures
            self.samples@.len() == 0 ==> r == 0,
            self.samples@.len() > 0 ==> self.samples@.contains(r),
    {
        if self.samples.len() == 0 {
            return 0;
        }
        let sorted = sort_u64(&self.samples);
        let p = if per_mille > 1000 {
            1000u64
        } else {
            per_mille
        };
        let n = sorted.len();
        proof {
            assert(((n - 1) as u128) * (p as u128) <= 0xFFFF_FFFF_FFFF_FFFFu128 * 1000)
                by (nonlinear_arith)
                requires
                    1 <= n && n - 1 <= 0xFFFF_FFFF_FFFF_FFFFu128 && p <= 1000,
            ;
        }
        let wide = ((n - 1) as u128) * (p as u128) / 1000;
        proof {
            assert(wide <= (n - 1) as u128) by (nonlinear_arith)
                requires
                    p <= 1000 && n >= 1 && wide == ((n - 1) as u128) * (p as u128) / 1000,
            ;
        }
        let idx = wide as usize;
        sorted[idx]
    }

    /// Number of samples held.
    pub fn count(&self) -> (r: usize)
        ensures
            r == self.samples@.len(),
    {
        self.samples.len()
    }

    /// Drop every sample.
    pub fn reset(&mut self)
        requires
            old(self).wf(),
        ensures
            final(self).wf(),
            final(self).samples@.len() == 0,
            final(self).max_samples == old(self).max_samples,
    {
        self.samples.clear();
    }
}

/// A sorted copy of the samples: same values, ascending.
fn sort_u64(samples: &Vec<u64>) -> (r: Vec<u64>)
    ensures
        r@.len() == samples@.len(),
        forall|i: int, j: int| 0 <= i <= j < r@.len() ==> r@[i] <= r@[j],
        forall|i: int| 0 <= i < r@.len() ==> samples@.contains(#[trigger] r@[i]),
{
    let mut out: Vec<u64> = Vec::new();
    let n = samples.len();
    let mut i: usize = 0;
    while i < n
        invariant
            n == samples@.len(),
            i <= n,
            out@.len() == i,
            forall|p: int, q: int| 0 <= p <= q < out@.len() ==> out@[p] <= out@[q],
            forall|p: int| 0 <= p < out@.len() ==> samples@.contains(#[trigger] out@[p]),
        decreases n - i,
    {
        let v = samples[i];
        let mut j: usize = 0;
        while j < out.len() && out[j] <= v
            invariant
                j <= out@.len(),
                forall|p: int| 0 <= p < j ==> out@[p] <= v,
            decreases out@.len() - j,
        {
            j = j + 1;
        }
        let ghost pre = out@;
        out.insert(j, v);
        proof {
            pre.insert_ensures(j as int, v);
            assert forall|p: int, q: int|
                0 <= p <= q < out@.len() implies out@[p] <= out@[q] by {
                if p < j && q == j {
                } else if p == j && q > j {
                    assert(out@[q] == pre[q - 1]);
                    if j < pre.len() {
                        assert(pre[j as int] > v || pre[j as int] <= v);
                    }
                } else if p < j && q > j {
                    assert(out@[q] == pre[q - 1]);
                } else if p > j && q > j {
                    assert(out@[p] == pre[p - 1]);
                    assert(out@[q] == pre[q - 1]);
                } else if p < j && q < j {
                } else {
                }
            }
            assert forall|p: int|
                0 <= p < out@.len() implies samples@.contains(#[trigger] out@[p]) by {
                if p < j {
                    assert(out@[p] == pre[p]);
                } else if p == j {
                    assert(out@[p] == samples@[i as int]);
                } else {
                    assert(out@[p] == pre[p - 1]);
                }
            }
        }
        i = i + 1;
    }
    out
}

/// The engine's metric set.
#[derive(Debug)]
pub struct Metrics {
    pub writes_total: Counter,
    pub writes_bytes: Counter,
    pub reads_total: Counter,
    pub reads_hits: Counter,
    pub reads_misses: Counter,
    pub flushes_total: Counter,
    pub compactions_total: Counter,
    pub compaction_bytes_in: Counter,
    pub compaction_bytes_out: Counter,
    pub bloom_filter_hits: Counter,
    pub bloom_filter_misses: Counter,
    pub bloom_filter_false_positives: Counter,
    pub write_latency: Histogram,
    pub read_latency: Histogram,
    pub flush_duration: Histogram,
    pub compaction_duration: Histogram,
    pub memtable_size_bytes: Gauge,
    pub memtable_entries: Gauge,
    pub immutable_count: Gauge,
    pub sstable_count: Gauge,
    pub disk_usage_bytes: Gauge,
    pub wal_size_bytes: Gauge,
}

impl Metrics {
    pub open spec fn wf(self) -> bool {
        &&& self.write_latency.wf()
        &&& self.read_latency.wf()
        &&& self.flush_duration.wf()
        &&& self.compaction_duration.wf()
    }

    pub fn new() -> (m: Metrics)
        ensures
            m.wf(),
            m.writes_total.value == 0,
            m.reads_total.value == 0,
            m.reads_hits.value == 0,
            m.reads_misses.value == 0,
            m.compaction_bytes_in.value == 0,
            m.compaction_bytes_out.value == 0,
    {
        Metrics {
            writes_total: Counter::new(),
            writes_bytes: Counter::new(),
            reads_total: Counter::new(),
            reads_hits: Counter::new(),
            reads_misses: Counter::new(),
            flushes_total: Counter::new(),
            compactions_total: Counter::new(),
            compaction_bytes_in: Counter::new(),
            compaction_bytes_out: Counter::new(),
            bloom_filter_hits: Counter::new(),
            bloom_filter_misses: Counter::new(),
            bloom_filter_false_positives: Counter::new(),
            write_latency: Histogram::new(),
            read_latency: Histogram::new(),
            flush_duration: Histogram::new(),
            compaction_duration: Histogram::new(),
            memtable_size_bytes: Gauge::new(),
            memtable_entries: Gauge::new(),
            immutable_count: Gauge::new(),
            sstable_count: Gauge::new(),
            disk_usage_bytes: Gauge::new(),
            wal_size_bytes: Gauge::new(),
        }
    }

    /// Share of reads that found their key, in rounded percent; zero when
    /// no read has happened.
    pub fn read_hit_rate_percent(&self) -> (r: u64)
        ensures
            self.reads_total.value == 0 ==> r == 0,
            0 < self.reads_total.value && self.reads_hits.value <= self.reads_total.value ==> r
                == (self.reads_hits.value * 200 + self.reads_total.value) / (2
                * self.reads_total.value),
    {
        rate_percent(self.reads_hits.value, self.reads_total.value, 0)
    }

    /// Share of reads that missed, in rounded percent.
    pub fn read_miss_rate_percent(&self) -> (r: u64)
        ensures
            self.reads_total.value == 0 ==> r == 0,
            0 < self.reads_total.value && self.reads_misses.value <= self.reads_total.value ==> r
                == (self.reads_misses.value * 200 + self.reads_total.value) / (2
                * self.reads_total.value),
    {
        rate_percent(self.reads_misses.value, self.reads_total.value, 0)
    }

    /// Space saved by compaction so far, in rounded percent of the input
    /// bytes; zero before any compaction.
    pub fn compaction_space_savings_percent(&self) -> (r: u64)
        ensures
            self.compaction_bytes_in.value == 0 ==> r == 0,
            self.compaction_bytes_in.value > 0 && self.compaction_bytes_out.value
                <= self.compaction_bytes_in.value ==> r == ((self.compaction_bytes_in.value
                - self.compaction_bytes_out.value) * 200 + self.compaction_bytes_in.value) / (2
                * self.compaction_bytes_in.value),
    {
        let bytes_in = self.compaction_bytes_in.value;
        let bytes_out = self.compaction_bytes_out.value;
        if bytes_in == 0 || bytes_out > bytes_in {
            return 0;
        }
        rate_percent(bytes_in - bytes_out, bytes_in, 0)
    }

    /// Compaction output bytes per hundred logical bytes written, rounded;
    /// one hundred before any write.
    pub fn write_amplification_percent(&self) -> (r: u64)
        ensures
            self.writes_bytes.value == 0 ==> r == 100,
            self.writes_bytes.value > 0 ==> r == (if (self.compaction_bytes_out.value * 200
                + self.writes_bytes.value) / (2 * self.writes_bytes.value) <= u64::MAX {
                (self.compaction_bytes_out.value * 200 + self.writes_bytes.value) / (2
                    * self.writes_bytes.value)
            } else {
                u64::MAX as int
            }),
    {
        let w = self.writes_bytes.value;
        if w == 0 {
            return 100;
        }
        let q = ((self.compaction_bytes_out.value as u128) * 200 + w as u128) / (2 * w as u128);
        if q > u64::MAX as u128 {
            u64::MAX
        } else {
            q as u64
        }
    }

    /// The report's text: one line per counter group.
    pub open spec fn spec_summary(self) -> Seq<char> {
        "storage engine metrics\n"@ + "writes: "@ + spec_decimal(self.writes_total.value as int)
            + " ("@ + spec_decimal(self.writes_bytes.value as int) + " bytes)\n"@ + "reads: "@
            + spec_decimal(self.reads_total.value as int) + " (hits "@ + spec_decimal(
            self.reads_hits.value as int,
        ) + ", misses "@ + spec_decimal(self.reads_misses.value as int) + ")\n"@ + "flushes: "@
            + spec_decimal(self.flushes_total.value as int) + "\n"@ + "compactions: "@
            + spec_decimal(self.compactions_total.value as int) + " (in "@ + spec_decimal(
            self.compaction_bytes_in.value as int,
        ) + " bytes, out "@ + spec_decimal(self.compaction_bytes_out.value as int)
            + " bytes)\n"@ + "memtable: "@ + spec_decimal(self.memtable_size_bytes.value as int)
            + " bytes ("@ + spec_decimal(self.memtable_entries.value as int) + " entries)\n"@
            + "sstables: "@ + spec_decimal(self.sstable_count.value as int) + "\n"@
    }

    /// Render the report.
    pub fn summary(&self) -> (r: String)
        ensures
            r@ == self.spec_summary(),
    {
        let mut out = String::from_str("storage engine metrics\n");
        out.append("writes: ");
        out.append(fmt_u64(self.writes_total.value).as_str());
        out.append(" (");
        out.append(fmt_u64(self.writes_bytes.value).as_str());
        out.append(" bytes)\n");
        out.append("reads: ");
        out.append(fmt_u64(self.reads_total.value).as_str());
        out.append(" (hits ");
        out.append(fmt_u64(self.reads_hits.value).as_str());
        out.append(", misses ");
        out.append(fmt_u64(self.reads_misses.value).as_str());
        out.append(")\n");
        out.append("flushes: ");
        out.append(fmt_u64(self.flushes_total.value).as_str());
        out.append("\n");
        out.append("compactions: ");
        out.append(fmt_u64(self.compactions_total.value).as_str());
        out.append(" (in ");
        out.append(fmt_u64(self.compaction_bytes_in.value).as_str());
        out.append(" bytes, out ");
        out.append(fmt_u64(self.compaction_bytes_out.value).as_str());
        out.append(" bytes)\n");
        out.append("memtable: ");
        out.append(fmt_u64(self.memtable_size_bytes.value).as_str());
        out.append(" bytes (");
        out.append(fmt_u64(self.memtable_entries.value).as_str());
        out.append(" entries)\n");
        out.append("sstables: ");
        out.append(fmt_u64(self.sstable_count.value).as_str());
        out.append("\n");
        out
    }

    /// Reset every metric.
    pub fn reset(&mut self)
        requires
            old(self).wf(),
        ensures
            final(self).wf(),
            final(self).writes_total.value == 0,
            final(self).reads_total.value == 0,
            final(self).reads_hits.value == 0,
            final(self).reads_misses.value == 0,
            final(self).compaction_bytes_in.value == 0,
            final(self).compaction_bytes_out.value == 0,
            final(self).wal_size_bytes.value == 0,
    {
        self.writes_total.reset();
        self.writes_bytes.reset();
        self.reads_total.reset();
        self.reads_hits.reset();
        self.reads_misses.reset();
        self.flushes_total.reset();
        self.compactions_total.reset();
        self.compaction_bytes_in.reset();
        self.compaction_bytes_out.reset();
        self.bloom_filter_hits.reset();
        self.bloom_filter_misses.reset();
        self.bloom_filter_false_positives.reset();
        self.write_latency.reset();
        self.read_latency.reset();
        self.flush_duration.reset();
        self.compaction_duration.reset();
        self.memtable_size_bytes.set(0);
        self.memtable_entries.set(0);
        self.immutable_count.set(0);
        self.sstable_count.set(0);
        self.disk_usage_bytes.set(0);
        self.wal_size_bytes.set(0);
    }
}

/// `part` of `whole` in rounded percent; `empty` when `whole` is zero and
/// 100 when `part` exceeds `whole`.
pub fn rate_percent(part: u64, whole: u64, empty: u64) -> (r: u64)
    ensures
        whole == 0 ==> r == empty,
        whole > 0 && part <= whole ==> r == (part * 200 + whole) / (2 * whole),
        whole > 0 && part > whole ==> r == 100,
{
    if whole == 0 {
        return empty;
    }
    if part > whole {
        return 100;
    }
    let num = (part as u128) * 200 + (whole as u128);
    let den = 2 * (whole as u128);
    let q = num / den;
    proof {
        assert(q <= 100) by (nonlinear_arith)
            requires
                part <= whole && whole >= 1 && num == part * 200 + whole && den == 2 * whole && q
                    == num / den,
        ;
    }
    q as u64
}

} // verus!
