//! Sampled-delta engine: holds the two most recent samples of a
//! counter-bearing record together with their capture timestamps, and turns
//! the difference into rates and percentages.
//!
//! Counters are cumulative values read from the kernel and are assumed not to
//! reset between two consecutive samples; timestamps come from a monotonic
//! clock supplied by the caller, in milliseconds.  All derivations are exact
//! integer arithmetic; a window shorter than 100 ms yields a CPU usage of
//! zero rather than an unstable quotient.

use vstd::prelude::*;

verus! {

/// Cumulative CPU time of one process, in kernel ticks.
#[derive(Debug, Eq, PartialEq, Copy, Clone, Structural)]
pub struct CpuTicks {
    /// Ticks spent in user mode since the process started.
    pub utime: u64,
    /// Ticks spent in kernel mode since the process started.
    pub stime: u64,
}

/// Cumulative I/O counters of one process.
#[derive(Debug, Eq, PartialEq, Copy, Clone, Structural)]
pub struct IoCounters {
    /// Bytes read, through any channel.
    pub rchar: u64,
    /// Bytes written, through any channel.
    pub wchar: u64,
    /// Read system calls issued.
    pub syscr: u64,
    /// Write system calls issued.
    pub syscw: u64,
    /// Bytes fetched from the storage layer.
    pub read_bytes: u64,
    /// Bytes sent to the storage layer.
    pub write_bytes: u64,
}

/// The two most recent samples of a counter-bearing record, each with the
/// millisecond timestamp of its capture, plus the host's ticks-per-second
/// constant for converting CPU ticks to wall-clock time.
pub struct StatDelta<T> {
    tps: u64,
    previous_sample: T,
    previous_when_ms: u64,
    latest_sample: T,
    latest_when_ms: u64,
}

impl<T: Copy> StatDelta<T> {
    /// The ticks-per-second constant the delta was built with.
    pub closed spec fn tps_spec(self) -> u64 {
        self.tps
    }

    /// The older of the two samples.
    pub closed spec fn previous_spec(self) -> T {
        self.previous_sample
    }

    /// The newer of the two samples.
    pub closed spec fn latest_spec(self) -> T {
        self.latest_sample
    }

    /// Capture time of the older sample, in milliseconds.
    pub closed spec fn previous_when_spec(self) -> u64 {
        self.previous_when_ms
    }

    /// Capture time of the newer sample, in milliseconds.
    pub closed spec fn latest_when_spec(self) -> u64 {
        self.latest_when_ms
    }

    /// Internal consistency: the clock never runs backward between the two
    /// captures, and ticks-per-second is a positive constant.
    pub open spec fn wf(self) -> bool {
        &&& self.tps_spec() >= 1
        &&& self.previous_when_spec() <= self.latest_when_spec()
    }

    /// Width of the sampled window, in milliseconds.
    pub open spec fn duration_spec(self) -> int {
        self.latest_when_spec() - self.previous_when_spec()
    }

    /// Start with both slots holding the same sample taken now, so every
    /// derivation starts from an empty window.
    pub fn new(sample: T, now_ms: u64, tps: u64) -> (r: StatDelta<T>)
        requires
            tps >= 1,
        ensures
            r.wf(),
            r.tps_spec() == tps,
            r.previous_spec() == sample,
            r.latest_spec() == sample,
            r.previous_when_spec() == now_ms,
            r.latest_when_spec() == now_ms,
    {
        StatDelta {
            tps,
            previous_sample: sample,
            previous_when_ms: now_ms,
            latest_sample: sample,
            latest_when_ms: now_ms,
        }
    }

    /// Take a fresh sample: the latest sample and its timestamp slide into
    /// the previous slot, and the new sample is stored with its capture time.
    pub fn update(&mut self, sample: T, now_ms: u64)
        requires
            old(self).wf(),
            now_ms >= old(self).latest_when_spec(),
        ensures
            final(self).wf(),
            final(self).tps_spec() == old(self).tps_spec(),
            final(self).previous_spec() == old(self).latest_spec(),
            final(self).previous_when_spec() == old(self).latest_when_spec(),
            final(self).latest_spec() == sample,
            final(self).latest_when_spec() == now_ms,
    {
        self.previous_sample = self.latest_sample;
        self.previous_when_ms = self.latest_when_ms;
        self.latest_sample = sample;
        self.latest_when_ms = now_ms;
    }

    /// The newer sample.
    pub fn latest(&self) -> (r: &T)
        ensures
            *r == self.latest_spec(),
    {
        &self.latest_sample
    }

    /// The older sample.
    pub fn previous(&self) -> (r: &T)
        ensures
            *r == self.previous_spec(),
    {
        &self.previous_sample
    }

    /// Width of the sampled window, in milliseconds.
    pub fn duration_ms(&self) -> (r: u64)
        requires
            self.wf(),
        ensures
            r == self.duration_spec(),
    {
        self.latest_when_ms - self.previous_when_ms
    }

    /// The ticks-per-second constant the delta was built with.
    pub fn ticks_per_second(&self) -> (r: u64)
        ensures
            r == self.tps_spec(),
    {
        self.tps
    }
}

impl StatDelta<CpuTicks> {
    /// The engine's monotonic-counter assumption, for the CPU sample pair:
    /// neither tick counter ran backward between the two captures.
    pub open spec fn cpu_monotonic(self) -> bool {
        &&& self.previous_spec().utime <= self.latest_spec().utime
        &&& self.previous_spec().stime <= self.latest_spec().stime
    }

    /// CPU usage over the sampled window, in hundredths of a percent:
    /// zero when the window is shorter than 100 ms, otherwise the tick delta
    /// converted to wall-clock time, divided by the window, times 100,
    /// rounded down at the final division.
    pub open spec fn cpu_percentage_spec(self) -> int {
        let dur = self.duration_spec();
        if dur < 100 {
            0
        } else {
            let ticks = self.latest_spec().utime - self.previous_spec().utime
                + self.latest_spec().stime - self.previous_spec().stime;
            ticks * 10_000_000 / (self.tps_spec() * dur)
        }
    }

    /// CPU usage over the sampled window, in hundredths of a percent.
    /// A window shorter than 100 ms yields exactly zero, whatever the
    /// counters did.
    pub fn cpu_percentage_hundredths(&self) -> (r: u64)
        requires
            self.wf(),
            self.cpu_monotonic(),
            self.cpu_percentage_spec() <= u64::MAX,
        ensures
            r == self.cpu_percentage_spec(),
    {
        let dur: u64 = self.latest_when_ms - self.previous_when_ms;
        if dur < 100 {
            return 0;
        }
        let ticks: u128 = (self.latest_sample.utime - self.previous_sample.utime) as u128
            + (self.latest_sample.stime - self.previous_sample.stime) as u128;
        proof {
            let a = self.tps as int;
            let b = dur as int;
            assert(a * b <= 0xFFFF_FFFF_FFFF_FFFF * 0xFFFF_FFFF_FFFF_FFFF) by (nonlinear_arith)
                requires
                    0 <= a <= 0xFFFF_FFFF_FFFF_FFFF,
                    0 <= b <= 0xFFFF_FFFF_FFFF_FFFF,
            ;
            assert(a * b >= 100) by (nonlinear_arith)
                requires
                    a >= 1,
                    b >= 100,
            ;
        }
        let denom: u128 = (self.tps as u128) * (dur as u128);
        proof {
            assert(ticks * 10_000_000 <= u128::MAX) by (nonlinear_arith)
                requires
                    0 <= ticks <= 2 * 0xFFFF_FFFF_FFFF_FFFFu128,
            ;
        }
        let scaled: u128 = ticks * 10_000_000 / denom;
        proof {
            assert(scaled == self.cpu_percentage_spec());
        }
        scaled as u64
    }
}

/// Average per-second rate of a monotonic cumulative counter over a window:
/// the counter delta, scaled to whole seconds, rounded down.
pub open spec fn rate_spec(previous: u64, latest: u64, duration_ms: u64) -> int {
    (latest - previous) * 1000 / duration_ms as int
}

/// Average per-second rate of a monotonic cumulative counter over a window
/// of `duration_ms` milliseconds.  Callers confirm a non-empty window first;
/// the result is exact integer division.
pub fn rate_per_second(previous: u64, latest: u64, duration_ms: u64) -> (r: u64)
    requires
        previous <= latest,
        duration_ms >= 1,
        rate_spec(previous, latest, duration_ms) <= u64::MAX,
    ensures
        r == rate_spec(previous, latest, duration_ms),
{
    let delta: u128 = (latest - previous) as u128;
    proof {
        assert(delta * 1000 <= u128::MAX) by (nonlinear_arith)
            requires
                0 <= delta <= 0xFFFF_FFFF_FFFF_FFFFu128,
        ;
    }
    let scaled: u128 = delta * 1000 / (duration_ms as u128);
    proof {
        assert(scaled == rate_spec(previous, latest, duration_ms));
    }
    scaled as u64
}

} // verus!
