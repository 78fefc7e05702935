use procview::delta::{rate_per_second, CpuTicks, IoCounters, StatDelta};

#[test]
fn test_cpu_percentage_zero_window() {
    // a window under 100 ms yields exactly zero, whatever the counters did
    let mut d = StatDelta::new(CpuTicks { utime: 0, stime: 0 }, 1_000, 100);
    d.update(CpuTicks { utime: 900_000, stime: 800_000 }, 1_099);
    assert_eq!(d.duration_ms(), 99);
    assert_eq!(d.cpu_percentage_hundredths(), 0);
}

#[test]
fn test_cpu_percentage_exact() {
    // 50 ticks at 100 ticks/s over one second: half a second of CPU time
    // in a one-second window, i.e. exactly 50.00 percent
    let mut d = StatDelta::new(CpuTicks { utime: 10, stime: 5 }, 2_000, 100);
    d.update(CpuTicks { utime: 40, stime: 25 }, 3_000);
    assert_eq!(d.duration_ms(), 1_000);
    assert_eq!(d.cpu_percentage_hundredths(), 5_000);
}

#[test]
fn test_cpu_percentage_full_core() {
    // counters advancing as fast as the clock: a full core, 100.00 percent
    let mut d = StatDelta::new(CpuTicks { utime: 0, stime: 0 }, 0, 100);
    d.update(CpuTicks { utime: 200, stime: 0 }, 2_000);
    assert_eq!(d.cpu_percentage_hundredths(), 10_000);
}

#[test]
fn test_rate_monotonic_counter() {
    // 2000 units in two seconds is exactly 1000 units per second
    assert_eq!(rate_per_second(1_000, 3_000, 2_000), 1_000);
}

#[test]
fn test_rate_rounds_down() {
    assert_eq!(rate_per_second(0, 10, 3_000), 3);
}

#[test]
fn test_update_slides_latest_into_previous() {
    let first = IoCounters {
        rchar: 1,
        wchar: 2,
        syscr: 3,
        syscw: 4,
        read_bytes: 5,
        write_bytes: 6,
    };
    let second = IoCounters {
        rchar: 10,
        wchar: 20,
        syscr: 30,
        syscw: 40,
        read_bytes: 50,
        write_bytes: 60,
    };
    let mut d = StatDelta::new(first, 100, 250);
    assert_eq!(d.duration_ms(), 0);
    assert_eq!(*d.latest(), first);
    assert_eq!(*d.previous(), first);
    d.update(second, 1_600);
    assert_eq!(*d.previous(), first);
    assert_eq!(*d.latest(), second);
    assert_eq!(d.duration_ms(), 1_500);
    assert_eq!(d.ticks_per_second(), 250);
}
