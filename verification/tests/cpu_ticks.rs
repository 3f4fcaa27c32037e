use rmon::collect::{cpu_ticks, CpuTicks, CpuTimes};

#[test]
fn percent_from_deltas() {
    let prev = CpuTimes { busy: 100, idle: 900 };
    let curr = CpuTimes { busy: 150, idle: 950 };
    // 50 busy over 100 total ticks
    let t = cpu_ticks(prev, curr);
    assert_eq!(t, CpuTicks { busy: 50, total: 100 });
    assert_eq!(t.busy as u128 * 100 / t.total, 50);
}

#[test]
fn percent_zero_delta_is_zero() {
    let t = CpuTimes { busy: 100, idle: 900 };
    let d = cpu_ticks(t, t);
    assert_eq!(d.total, 0);
    assert_eq!(d.busy, 0);
}

#[test]
fn percent_survives_counter_wrap() {
    // per-core counters can be u32 and wrap; a wrapped reading
    // must clamp, not panic or go negative
    let prev = CpuTimes { busy: u32::MAX as u64, idle: 100 };
    let curr = CpuTimes { busy: 5, idle: 110 };
    let d = cpu_ticks(prev, curr);
    assert_eq!(d.busy, 0);
    assert!(d.busy as u128 <= d.total);
}
