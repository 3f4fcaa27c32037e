use rmon::collect::{
    hwmon_index, parse_cpuinfo_model, parse_diskstats, parse_meminfo, parse_mounts, parse_net_dev,
    parse_pid_io, parse_pid_stat, parse_proc_stat, parse_tid_stat, parse_uptime, unescape_mount,
    CollectError, CpuTimes,
};

const STAT: &str = "cpu  100 10 50 800 40 0 5 5 0 0\n\
cpu0 50 5 25 400 20 0 3 2 0 0\n\
cpu1 50 5 25 400 20 0 2 3 0 0\n\
intr 12345 0 0\n\
ctxt 67890\n\
btime 1700000000\n";

const MEMINFO: &str = "MemTotal:       16384000 kB\n\
MemFree:         1024000 kB\n\
MemAvailable:    8192000 kB\n\
Buffers:          512000 kB\n\
Cached:          4096000 kB\n\
SwapCached:            0 kB\n\
SwapTotal:       2097152 kB\n\
SwapFree:        1048576 kB\n";

const NET_DEV: &str = "Inter-|   Receive                                                |  Transmit\n \
face |bytes    packets errs drop fifo frame compressed multicast|bytes    packets errs drop fifo colls carrier compressed\n    \
lo:   90000     900    0    0    0     0          0         0    90000     900    0    0    0     0       0          0\n  \
eth0: 1000000    8000    0    0    0     0          0         0   500000    6000    0    0    0     0       0          0\n \
wlan0:  250000    2000    0    0    0     0          0         0   125000    1500    0    0    0     0       0          0\n";

const PID_STAT: &str = "12345 (tmux: server) S 1 12345 12345 0 -1 4194560 1000 0 0 0 1500 500 0 0 20 0 1 0 100 10000000 2560 18446744073709551615 1 1 0 0 0 0 0 0 0 0 0 0 17 3 0 0 0 0 0\n";

const DISKSTATS: &str = " 259       0 nvme0n1 5000 100 800000 4000 3000 200 400000 6000 0 7000 12000 0 0 0 0\n \
259       1 nvme0n1p1 4000 90 700000 3500 2500 150 350000 5000 0 6000 10000 0 0 0 0\n   \
8       0 sda 100 0 2000 50 10 0 80 20 0 60 70\n   \
7       0 loop0 10 0 20 1 0 0 0 0 0 1 1\n";

const PID_IO: &str = "rchar: 323932160\n\
wchar: 323932160\n\
syscr: 100\n\
syscw: 200\n\
read_bytes: 12288\n\
write_bytes: 323932160\n\
cancelled_write_bytes: 0\n";

const MOUNTS: &str = "/dev/nvme0n1p2 / ext4 rw,relatime 0 0\n\
proc /proc proc rw,nosuid,nodev,noexec,relatime 0 0\n\
tmpfs /run tmpfs rw,nosuid,nodev 0 0\n\
/dev/sdb1 /data xfs rw,relatime 0 0\n\
/dev/nvme0n1p1 /boot vfat rw,relatime 0 0\n";

#[test]
fn proc_stat_totals_and_cores() {
    let cpu = parse_proc_stat(STAT).unwrap();
    // busy = user+nice+system+irq+softirq+steal = 100+10+50+0+5+5
    assert_eq!(cpu.total, CpuTimes { busy: 170, idle: 840 });
    assert_eq!(cpu.per_core.len(), 2);
    // cpu0: 50+5+25+0+3+2 busy, 400+20 idle
    assert_eq!(cpu.per_core[0], CpuTimes { busy: 85, idle: 420 });
}

#[test]
fn proc_stat_rejects_garbage() {
    assert!(parse_proc_stat("cpu  1 2\n").is_err());
    assert!(parse_proc_stat("").is_err());
}

#[test]
fn meminfo_bytes() {
    let m = parse_meminfo(MEMINFO).unwrap();
    assert_eq!(m.total, 16_384_000 * 1024);
    assert_eq!(m.available, 8_192_000 * 1024);
    assert_eq!(m.used, m.total - m.available);
    assert_eq!(m.swap_total, 2_097_152 * 1024);
    assert_eq!(m.swap_used, (2_097_152 - 1_048_576) * 1024);
}

#[test]
fn meminfo_missing_total_is_error() {
    assert!(parse_meminfo("MemFree: 5 kB\n").is_err());
}

#[test]
fn uptime_first_field_in_seconds() {
    assert_eq!(parse_uptime("93784.21 501223.94\n"), Some(93_784));
    assert_eq!(parse_uptime("garbage"), None);
    assert_eq!(parse_uptime(""), None);
}

#[test]
fn net_dev_sums_interfaces_without_loopback() {
    let net = parse_net_dev(NET_DEV);
    assert_eq!(net.rx_bytes, 1_000_000 + 250_000);
    assert_eq!(net.tx_bytes, 500_000 + 125_000);
    // eth0 carries the most traffic in the fixture
    assert_eq!(net.iface.as_deref(), Some("eth0"));
}

#[test]
fn pid_stat_parses_comm_with_spaces() {
    // clk_tck 100 -> 1 tick = 10_000_000 ns; page 4096
    let p = parse_pid_stat(12345, PID_STAT, 100, 4096).unwrap();
    assert_eq!(p.pid, 12345);
    assert_eq!(p.name, "tmux: server");
    assert_eq!(p.cpu_ns, (1500 + 500) * 10_000_000);
    assert_eq!(p.rss, 2560 * 4096);
}

#[test]
fn pid_stat_rejects_garbage() {
    assert!(parse_pid_stat(1, "not a stat line", 100, 4096).is_none());
    assert!(parse_pid_stat(1, "1 (x) S 2 3", 100, 4096).is_none());
}

#[test]
fn tid_stat_parses_thread_name_and_cpu() {
    // comm holds the thread name, not the process name
    let line = "12347 (tokio-runtime-w) S 1 12345 12345 0 -1 4194368 100 0 0 0 42 8 0 0 20 0 9 0 12000 100000000 2560 18446744073709551615 1 1 0 0 0 0 0 0 0 0 0 0 17 3 0 0 0 0 0\n";
    let t = parse_tid_stat(12347, line, 100).unwrap();
    assert_eq!(t.tid, 12347);
    assert_eq!(t.name, "tokio-runtime-w");
    assert_eq!(t.cpu_ns, (42 + 8) * 10_000_000);
    // parens/spaces inside comm still split at the last ')'
    let weird = "9 (a) b) S 1 2 3 0 -1 0 0 0 0 0 7 3 0 0 20 0 1 0 0 0 0 0 0 0 0 0 0 0 0 0 0 0 0 0 0 0 0 0 0\n";
    let t = parse_tid_stat(9, weird, 100).unwrap();
    assert_eq!(t.name, "a) b");
    assert_eq!(t.cpu_ns, (7 + 3) * 10_000_000);
}

#[test]
fn tid_stat_rejects_garbage() {
    assert!(parse_tid_stat(1, "not a stat line", 100).is_none());
    assert!(parse_tid_stat(1, "1 (x) S 2 3", 100).is_none());
    assert!(parse_tid_stat(1, "", 100).is_none());
}

#[test]
fn diskstats_normalizes_units() {
    let disks = parse_diskstats(DISKSTATS);
    assert_eq!(disks.len(), 4); // parser keeps everything; the collector filters
    let d = &disks[0];
    assert_eq!(d.name, "nvme0n1");
    assert_eq!(d.read_bytes, 800_000 * 512);
    assert_eq!(d.written_bytes, 400_000 * 512);
    assert_eq!(d.read_ops, 5000);
    assert_eq!(d.write_ops, 3000);
    assert_eq!(d.busy_time_ns, Some(7_000 * 1_000_000));
    assert_eq!(d.io_time_ns, Some((4_000 + 6_000) * 1_000_000));
    assert_eq!(d.weighted_ns, Some(12_000 * 1_000_000));
}

#[test]
fn diskstats_skips_short_lines() {
    assert!(parse_diskstats("1 2 bad 3\n").is_empty());
}

#[test]
fn mounts_keep_real_filesystems_only() {
    let m = parse_mounts(MOUNTS);
    let points: Vec<&str> = m.iter().map(|(_, p, _)| p.as_str()).collect();
    assert_eq!(points, vec!["/", "/data", "/boot"]);
    assert_eq!(m[0].2, "ext4");
}

#[test]
fn mounts_unescape_octal_paths() {
    let m = parse_mounts("/dev/sdb1 /mnt/My\\040Disk vfat rw 0 0\n");
    assert_eq!(m[0].1, "/mnt/My Disk");
    // trailing backslash and short sequences pass through untouched
    assert_eq!(unescape_mount("a\\04"), "a\\04");
    assert_eq!(unescape_mount("tab\\011end"), "tab\tend");
}

#[test]
fn pid_io_reads_block_layer_bytes() {
    // read_bytes/write_bytes, not rchar/wchar: block layer, not syscalls
    assert_eq!(parse_pid_io(PID_IO), Some((12_288, 323_932_160)));
}

#[test]
fn pid_io_rejects_garbage() {
    assert_eq!(parse_pid_io(""), None);
    assert_eq!(parse_pid_io("rchar: 5\n"), None);
}

#[test]
fn cpuinfo_model_name() {
    let s = "processor\t: 0\nvendor_id\t: AuthenticAMD\nmodel name\t: AMD Ryzen 9 5950X 16-Core Processor\nflags\t: fpu vme\n";
    assert_eq!(parse_cpuinfo_model(s).as_deref(), Some("AMD Ryzen 9 5950X 16-Core Processor"));
}

#[test]
fn cpuinfo_without_model_is_none() {
    // arm SBCs often lack a model name line entirely
    assert_eq!(parse_cpuinfo_model("processor\t: 0\nBogoMIPS\t: 48.00\n"), None);
}

#[test]
fn proc_stat_without_cpu_line_names_the_problem() {
    match parse_proc_stat("intr 1 2 3\n") {
        Err(CollectError::Parse(msg)) => assert!(!msg.is_empty()),
        Ok(_) => panic!("a stat text without a cpu line must not parse"),
    }
}

#[test]
fn proc_stat_counters_wrap_instead_of_overflowing() {
    let line = format!("cpu  {} 1 0 0 0 0 0 0 0 0\n", u64::MAX);
    let cpu = parse_proc_stat(&line).unwrap();
    assert_eq!(cpu.total.busy, 0);
}

#[test]
fn uptime_truncates_and_saturates_like_a_float_cast() {
    assert_eq!(parse_uptime("12 34\n"), Some(12));
    assert_eq!(parse_uptime("0.99 1\n"), Some(0));
    assert_eq!(parse_uptime("-5.0 1\n"), Some(0));
    assert_eq!(parse_uptime("99999999999999999999999 1\n"), Some(u64::MAX));
}

#[test]
fn hwmon_index_reads_the_trailing_number() {
    assert_eq!(hwmon_index("hwmon12"), 12);
    assert_eq!(hwmon_index("hwmon"), u64::MAX);
}

#[test]
fn pid_stat_carries_the_parent_pid() {
    let p = parse_pid_stat(12345, PID_STAT, 100, 4096).unwrap();
    assert_eq!(p.ppid, 1);
    assert!(p.threads.is_empty());
}

#[test]
fn uptime_takes_every_float_form() {
    let cases = [
        "1e3", "1E3", "2.5e2", "+7", "12.", ".5", "5e-1", "15e-1", "123.456e1", "1e+2", "0e99999999999999999999999",
        "3e99999999999999999999999", "9e-99999999999999999999999", "inf", "Infinity", "-inf", "NaN", "-nan", "-1e3",
        "1e", "e5", ".", "1.2.3", "1ee2", "infinit", "0x10", "1_000",
    ];
    for c in cases {
        let want = c.parse::<f64>().ok().map(|v| v as u64);
        assert_eq!(parse_uptime(&format!("{c} 0\n")), want, "{c}");
    }
    assert_eq!(parse_uptime("1e3 0\n"), Some(1000));
    assert_eq!(parse_uptime("inf 0\n"), Some(u64::MAX));
    assert_eq!(parse_uptime("nan 0\n"), Some(0));
}
