use rmon::collect::{CpuSnapshot, CpuTimes, DiskStats, MemSnapshot, MountInfo, NetIface, NetSnapshot, ProcessInfo, ThreadInfo};
use rmon::deltas::{HISTORY, IDLE_HIDE_NS};
use rmon::state::{App, AppEvent, Key, KeyCode, Snapshot};

const BASE: u64 = 1_000_000_000_000;
const SEC: u64 = 1_000_000_000;

fn app() -> App {
    App::new("/tmp".to_string())
}

fn key(app: &mut App, code: KeyCode) {
    app.on_event(AppEvent::Key(Key { code, ctrl: false }));
}

fn snap(busy: u64, idle: u64) -> Snapshot {
    Snapshot {
        cpu: CpuSnapshot { total: CpuTimes { busy, idle }, per_core: vec![CpuTimes { busy, idle }] },
        mem: MemSnapshot::default(),
        net: NetSnapshot::default(),
        disks: Vec::new(),
        mounts: Vec::new(),
        procs: Vec::new(),
        cpu_name: None,
        gpu_name: None,
        uptime_secs: None,
        taken_ns: BASE,
    }
}

fn iface(name: &str, rx: u64, tx: u64) -> NetIface {
    NetIface { name: name.into(), rx_bytes: rx, tx_bytes: tx }
}

fn proc_info(pid: i32, name: &str, cpu_ns: u64, rss: u64, rd: Option<u64>, wr: Option<u64>) -> ProcessInfo {
    ProcessInfo { pid, ppid: 0, name: name.into(), cpu_ns, rss, disk_read: rd, disk_written: wr, threads: Vec::new() }
}

// two snapshots exactly 1s apart with controlled net/proc counters
fn pair() -> (Snapshot, Snapshot) {
    let mut a = snap(100, 900);
    a.net = NetSnapshot { rx_bytes: 1_000, tx_bytes: 500, iface: None, interfaces: vec![iface("eth0", 1_000, 500)] };
    a.procs = vec![proc_info(1, "alpha", 0, 100, Some(1 << 20), Some(0))];
    let mut b = snap(150, 950);
    b.taken_ns = BASE + SEC;
    b.net = NetSnapshot { rx_bytes: 101_000, tx_bytes: 50_500, iface: None, interfaces: vec![iface("eth0", 101_000, 50_500)] };
    b.procs = vec![
        proc_info(1, "alpha", 500_000_000, 100, Some(3 << 20), Some(1 << 20)),
        proc_info(2, "beta", 9_999, 9_000, None, None),
    ];
    (a, b)
}

fn feed(app: &mut App, a: Snapshot, b: Snapshot) {
    app.on_event(AppEvent::Snapshot(a));
    app.on_event(AppEvent::Snapshot(b));
}

fn disk(name: &str, rb: u64, wb: u64, ops: u64, busy_ns: Option<u64>) -> DiskStats {
    DiskStats {
        name: name.into(),
        read_bytes: rb,
        written_bytes: wb,
        read_ops: ops,
        write_ops: ops,
        busy_time_ns: busy_ns,
        io_time_ns: busy_ns,
        weighted_ns: busy_ns.map(|b| b * 2),
    }
}

fn pct(cpu_ns: u64, dt_ns: u64) -> f64 {
    cpu_ns as f64 * 100.0 / dt_ns as f64
}

fn names(app: &App) -> Vec<&str> {
    app.procs.iter().map(|p| p.name.as_str()).collect()
}

fn pids(app: &App) -> Vec<i32> {
    app.procs.iter().map(|p| p.pid).collect()
}

fn ids(app: &App) -> Vec<(i32, Option<u64>)> {
    app.procs.iter().map(|p| (p.pid, p.tid)).collect()
}

fn prefixes(app: &App) -> Vec<&str> {
    app.procs.iter().map(|p| p.prefix.as_str()).collect()
}

#[test]
fn first_snapshot_yields_no_history() {
    let mut app = app();
    app.on_event(AppEvent::Snapshot(snap(100, 900)));
    assert!(app.cpu_history.is_empty());
    assert!(app.net_rx.is_empty());
}

#[test]
fn second_snapshot_yields_percent() {
    let mut app = app();
    app.on_event(AppEvent::Snapshot(snap(100, 900)));
    app.on_event(AppEvent::Snapshot(snap(150, 950)));
    assert_eq!(app.cpu_history.len(), 1);
    let t = app.cpu_history[0];
    assert!((t.busy as f64 * 100.0 / t.total as f64 - 50.0).abs() < 1e-9);
    assert_eq!(app.core_ticks.len(), 1);
}

#[test]
fn history_is_capped() {
    let mut app = app();
    for i in 0..(HISTORY as u64 + 10) {
        let mut s = snap(i * 10, i * 10);
        s.taken_ns = BASE + i * SEC;
        app.on_event(AppEvent::Snapshot(s));
    }
    assert_eq!(app.cpu_history.len(), HISTORY);
}

#[test]
fn interval_is_at_least_a_millisecond() {
    let mut app = app();
    app.on_event(AppEvent::Snapshot(snap(1, 1)));
    app.on_event(AppEvent::Snapshot(snap(2, 2)));
    assert_eq!(app.dt_ns, 1_000_000);
}

#[test]
fn net_rates_from_deltas() {
    let mut app = app();
    let (a, b) = pair();
    feed(&mut app, a, b);
    // 100_000 rx and 50_000 tx bytes over 1s
    assert_eq!(app.net_rx[0].bytes, 100_000);
    assert_eq!(app.net_rx[0].dt_ns, SEC);
    assert_eq!(app.net_tx[0].bytes, 50_000);
    // the per-interface row mirrors the aggregate for the single iface
    assert_eq!(app.net_ifaces.len(), 1);
    assert_eq!(app.net_ifaces[0].name, "eth0");
    assert_eq!(app.net_ifaces[0].rx_bytes, 100_000);
    assert_eq!(app.net_ifaces[0].tx_bytes, 50_000);
    assert_eq!(app.net_rx_total, 101_000);
}

#[test]
fn idle_rows_hide_after_grace_and_h_reveals() {
    let mut app = app();
    let (a, mut b) = pair();
    app.on_event(AppEvent::Snapshot(a));
    b.net.interfaces = vec![
        iface("gif0", 0, 0),           // never active: born hidden
        iface("en0", 101_000, 50_500), // lifetime traffic
        iface("utun4", 7_000, 3_000),  // lifetime traffic, idle now
    ];
    app.on_event(AppEvent::Snapshot(b));
    // busiest lifetime first: en0, utun4, gif0
    let rows: Vec<&str> = app.net_ifaces.iter().map(|r| r.name.as_str()).collect();
    assert_eq!(rows, ["en0", "utun4", "gif0"]);
    let vis: Vec<&str> = app.visible_net().iter().map(|r| r.name.as_str()).collect();
    assert_eq!(vis, ["en0", "utun4"], "gif0 hidden from birth");

    // 6 quiet seconds later everything exceeds the grace period
    let mut c = snap(200, 1000);
    c.taken_ns = BASE + 7 * SEC;
    c.net = NetSnapshot {
        rx_bytes: 108_000,
        tx_bytes: 53_500,
        iface: None,
        interfaces: vec![iface("gif0", 0, 0), iface("en0", 101_000, 50_500), iface("utun4", 7_000, 3_000)],
    };
    app.on_event(AppEvent::Snapshot(c));
    let vis: Vec<&str> = app.visible_net().iter().map(|r| r.name.as_str()).collect();
    assert_eq!(vis, Vec::<&str>::new(), "everything idle past grace hides");
    assert!(app.net_ifaces.iter().all(|r| r.idle_ns > IDLE_HIDE_NS));

    // h shows them all again
    key(&mut app, KeyCode::Char('h'));
    assert!(app.show_idle);
    assert_eq!(app.visible_net().len(), 3);
    key(&mut app, KeyCode::Char('h'));
    assert!(!app.show_idle, "h toggles back; hiding is the default");
}

#[test]
fn net_iface_history_accumulates_and_prunes() {
    let mut app = app();
    let (a, b) = pair();
    feed(&mut app, a, b);
    let h = app.net_hist.iter().find(|h| h.name == "eth0").expect("history exists");
    assert_eq!(h.rx.len(), 1);
    assert_eq!(h.rx[0].bytes, 100_000);
    assert_eq!(h.tx[0].bytes, 50_000);

    // eth0 goes away, wlan0 appears -> old history is pruned
    let mut c = snap(200, 1000);
    c.taken_ns = BASE + 2 * SEC;
    c.net = NetSnapshot { rx_bytes: 102_000, tx_bytes: 51_000, iface: None, interfaces: vec![iface("wlan0", 1_000, 500)] };
    app.on_event(AppEvent::Snapshot(c));
    assert!(app.net_hist.iter().all(|h| h.name != "eth0"), "vanished iface pruned");
    assert!(app.net_hist.iter().any(|h| h.name == "wlan0"));
    assert!(app.net_last_active.iter().all(|(n, _)| n != "eth0"));
}

#[test]
fn proc_cpu_pct_and_default_sort() {
    let mut app = app();
    let (a, b) = pair();
    feed(&mut app, a, b);
    // alpha burned 0.5s cpu in 1s -> ~50%; new pid 2 has no prev -> 0
    assert_eq!(app.procs[0].name, "alpha");
    assert!((pct(app.procs[0].cpu_ns, app.dt_ns) - 50.0).abs() < 1.0);
    assert_eq!(app.procs[1].cpu_ns, 0);
}

#[test]
fn selection_follows_pid_across_resort() {
    let mut app = app();
    let (a, b) = pair();
    feed(&mut app, a, b);
    // cpu sort put alpha first; anchor the highlight on beta (pid 2)
    assert_eq!(app.procs[0].name, "alpha");
    key(&mut app, KeyCode::Down);
    assert_eq!((app.selected, app.selected_id), (1, Some((2, None))));

    // next tick beta burns cpu and alpha idles -> the order flips
    let mut c = snap(200, 1000);
    c.taken_ns = BASE + 2 * SEC;
    c.procs = vec![
        proc_info(1, "alpha", 500_000_000, 100, Some(3 << 20), Some(1 << 20)),
        proc_info(2, "beta", 800_009_999, 9_000, None, None),
    ];
    app.on_event(AppEvent::Snapshot(c));
    assert_eq!(app.procs[0].name, "beta");
    assert_eq!(app.selected, 0, "highlight chased beta to the top");
    assert_eq!(app.selected_id, Some((2, None)));

    // beta dies: keep the spot, adopt whoever sits there now
    let mut d = snap(250, 1050);
    d.taken_ns = BASE + 3 * SEC;
    d.procs = vec![proc_info(1, "alpha", 500_000_000, 100, Some(3 << 20), Some(1 << 20))];
    app.on_event(AppEvent::Snapshot(d));
    assert_eq!((app.selected, app.selected_id), (0, Some((1, None))));
}

#[test]
fn filter_narrows_live_and_survives_snapshots() {
    let mut app = app();
    let (a, b) = pair();
    feed(&mut app, a, b);
    assert_eq!(app.procs.len(), 2);

    // type a case-insensitive needle; the list narrows on every keystroke
    key(&mut app, KeyCode::Char('f'));
    assert!(app.filter_edit);
    for c in "BET".chars() {
        key(&mut app, KeyCode::Char(c));
    }
    assert_eq!(app.procs.len(), 1);
    assert_eq!(app.procs[0].name, "beta");
    assert_eq!(app.selected_id, Some((2, None)), "selection adopted the match");

    // enter commits; the next snapshot must not resurrect hidden rows
    key(&mut app, KeyCode::Enter);
    assert!(!app.filter_edit);
    let mut c = snap(200, 1000);
    c.taken_ns = BASE + 2 * SEC;
    c.procs = vec![
        proc_info(1, "alpha", 600_000_000, 100, Some(3 << 20), Some(1 << 20)),
        proc_info(2, "beta", 10_999, 9_000, None, None),
    ];
    app.on_event(AppEvent::Snapshot(c));
    assert_eq!(app.procs.len(), 1);
    assert_eq!(app.procs[0].name, "beta");
}

#[test]
fn disk_rates_from_deltas() {
    let mut app = app();
    let (mut a, mut b) = pair();
    a.disks = vec![disk("d0", 0, 0, 0, Some(0))];
    // +10 MiB read, +5 MiB written, +100+100 ops, +500ms busy over 1s
    b.disks = vec![disk("d0", 10 << 20, 5 << 20, 100, Some(500_000_000))];
    b.mounts = vec![MountInfo { mount_point: "/".into(), total: 100, available: 40 }];
    feed(&mut app, a, b);

    let d = &app.disks[0];
    let dt = app.dt_ns as f64;
    assert_eq!(d.read_bytes, 10 << 20);
    assert_eq!(d.written_bytes, 5 << 20);
    assert_eq!(d.ops, 200);
    assert!((d.busy_ns.unwrap() as f64 * 100.0 / dt - 50.0).abs() < 1.0);
    assert!((d.weighted_ns.unwrap() as f64 / dt - 1.0).abs() < 0.1); // weighted 1s over 1s
    assert!((d.io_ns.unwrap() as f64 / 1e6 / d.ops as f64 - 2.5).abs() < 0.1); // 500ms / 200 ops
    assert_eq!(app.disk_io[0].bytes, 15 << 20);
    assert_eq!(app.mounts[0].mount_point, "/");
}

#[test]
fn disk_missing_counters_stay_none() {
    let mut app = app();
    let (mut a, mut b) = pair();
    a.disks = vec![disk("d0", 0, 0, 0, None)];
    b.disks = vec![disk("d0", 1024, 0, 1, None)];
    feed(&mut app, a, b);
    let d = &app.disks[0];
    assert!(d.busy_ns.is_none() && d.io_ns.is_none());
    assert!(d.weighted_ns.is_none());
    // synthetic disks (no time counters) stay out of the aggregate graph
    assert_eq!(app.disk_io[0].bytes, 0);
}

#[test]
fn disk_seen_first_has_no_rates_yet() {
    let mut app = app();
    let (a, mut b) = pair();
    b.disks = vec![disk("new0", 4096, 0, 3, Some(7))];
    feed(&mut app, a, b);
    let d = &app.disks[0];
    assert_eq!((d.read_bytes, d.written_bytes, d.ops), (0, 0, 0));
    assert!(d.busy_ns.is_none());
    // it moved bytes in its lifetime: born visible
    assert_eq!(d.idle_ns, 0);
    assert_eq!(app.visible_disks().len(), 1);
}

#[test]
fn proc_io_rates_from_deltas() {
    let mut app = app();
    let (a, b) = pair();
    feed(&mut app, a, b);
    // alpha: (3MiB-1MiB) + (1MiB-0) = 3MiB over 1s
    let alpha = app.procs.iter().find(|p| p.pid == 1).unwrap();
    assert_eq!(alpha.io_bytes, Some(3 << 20));
    // beta had no counters -> None, not 0
    let beta = app.procs.iter().find(|p| p.pid == 2).unwrap();
    assert!(beta.io_bytes.is_none());
}

fn tproc(pid: i32, name: &str, cpu_ns: u64, rss: u64, threads: Vec<ThreadInfo>) -> ProcessInfo {
    ProcessInfo { pid, ppid: 0, name: name.into(), cpu_ns, rss, disk_read: None, disk_written: None, threads }
}

fn tinfo(tid: u64, name: &str, cpu_ns: u64) -> ThreadInfo {
    ThreadInfo { tid, name: name.into(), cpu_ns }
}

// two snapshots 1s apart: alpha at 50% with two threads (30% + 10%),
// beta at 10% with none. cpu sort -> [alpha, beta]
fn thread_pair() -> (Snapshot, Snapshot) {
    let mut a = snap(100, 900);
    a.procs = vec![
        tproc(1, "alpha", 0, 500, vec![tinfo(10, "worker", 0), tinfo(11, "", 0)]),
        tproc(2, "beta", 0, 100, vec![]),
    ];
    let mut b = snap(150, 950);
    b.taken_ns = BASE + SEC;
    b.procs = vec![
        tproc(1, "alpha", 500_000_000, 500, vec![tinfo(10, "worker", 300_000_000), tinfo(11, "", 100_000_000)]),
        tproc(2, "beta", 100_000_000, 100, vec![]),
    ];
    (a, b)
}

#[test]
fn t_flattens_threads_under_parent_and_collapses() {
    let mut app = app();
    let (a, b) = thread_pair();
    feed(&mut app, a, b);
    assert_eq!(app.procs.len(), 2, "threads hidden until toggled");

    key(&mut app, KeyCode::Char('t'));
    assert!(app.show_threads);
    // threads cpu-desc under alpha: worker (30%) before the unnamed one (10%)
    assert_eq!(ids(&app), [(1, None), (1, Some(10)), (1, Some(11)), (2, None)]);
    assert_eq!(app.procs[2].name, "tid 11", "unnamed thread gets a label");
    assert_eq!(prefixes(&app), ["", "├─ ", "└─ ", ""]);
    assert_eq!(app.procs[1].rss, 0);
    assert!(app.procs[1].io_bytes.is_none());

    // name sort flips the thread order: "tid 11" < "worker"
    key(&mut app, KeyCode::Char('n'));
    assert_eq!(names(&app), ["alpha", "tid 11", "worker", "beta"]);
    assert_eq!(app.procs[2].prefix, "└─ ");

    key(&mut app, KeyCode::Char('t'));
    assert_eq!(app.procs.len(), 2, "second t collapses");
    assert!(app.procs.iter().all(|p| p.tid.is_none()));
}

#[test]
fn thread_cpu_pct_from_tid_delta() {
    let mut app = app();
    key(&mut app, KeyCode::Char('t'));
    let (a, b) = thread_pair();
    feed(&mut app, a, b);
    // worker burned 300ms in 1s, the unnamed thread 100ms
    let worker = app.procs.iter().find(|p| p.tid == Some(10)).unwrap();
    assert!((pct(worker.cpu_ns, app.dt_ns) - 30.0).abs() < 1.0);
    let unnamed = app.procs.iter().find(|p| p.tid == Some(11)).unwrap();
    assert!((pct(unnamed.cpu_ns, app.dt_ns) - 10.0).abs() < 1.0);
}

#[test]
fn selection_follows_thread_across_resort_and_falls_back() {
    let mut app = app();
    key(&mut app, KeyCode::Char('t'));
    let (a, b) = thread_pair();
    feed(&mut app, a, b);
    // [alpha, worker, tid 11, beta]; anchor on worker
    key(&mut app, KeyCode::Down);
    assert_eq!(app.selected_id, Some((1, Some(10))));

    // beta takes off and alpha idles; only tid 11 keeps burning ->
    // [beta, alpha, tid 11, worker]
    let mut c = snap(200, 1000);
    c.taken_ns = BASE + 2 * SEC;
    c.procs = vec![
        tproc(1, "alpha", 500_000_000, 500, vec![tinfo(10, "worker", 300_000_000), tinfo(11, "", 150_000_000)]),
        tproc(2, "beta", 900_000_000, 100, vec![]),
    ];
    app.on_event(AppEvent::Snapshot(c));
    assert_eq!(app.procs[3].tid, Some(10));
    assert_eq!(app.selected, 3, "highlight chased the thread row");
    assert_eq!(app.selected_id, Some((1, Some(10))));

    // worker dies: keep the (clamped) spot, adopt whoever sits there
    let mut d = snap(250, 1050);
    d.taken_ns = BASE + 3 * SEC;
    d.procs = vec![
        tproc(1, "alpha", 500_000_000, 500, vec![tinfo(11, "", 200_000_000)]),
        tproc(2, "beta", 1_000_000_000, 100, vec![]),
    ];
    app.on_event(AppEvent::Snapshot(d));
    assert_eq!(app.procs.len(), 3);
    assert_eq!((app.selected, app.selected_id), (2, Some((1, Some(11)))));
}

#[test]
fn k_on_thread_row_targets_the_parent_process() {
    let mut app = app();
    key(&mut app, KeyCode::Char('t'));
    let (a, b) = thread_pair();
    feed(&mut app, a, b);
    // move onto worker (a thread of alpha) and hit k
    key(&mut app, KeyCode::Down);
    assert_eq!(app.procs[app.selected].tid, Some(10));
    key(&mut app, KeyCode::Char('k'));
    let kp = app.confirm_kill.as_ref().expect("prompt opens");
    assert_eq!((kp.pid, kp.name.as_str()), (1, "alpha"));
    key(&mut app, KeyCode::Esc);
}

#[test]
fn filter_hides_threads_with_their_parent() {
    let mut app = app();
    key(&mut app, KeyCode::Char('t'));
    let (a, b) = thread_pair();
    feed(&mut app, a, b);

    // alpha filtered out -> its threads go with it
    key(&mut app, KeyCode::Char('f'));
    for c in "beta".chars() {
        key(&mut app, KeyCode::Char(c));
    }
    assert_eq!(app.procs.len(), 1);
    assert_eq!(app.procs[0].name, "beta");

    // visible parent brings its threads back
    for _ in 0..4 {
        key(&mut app, KeyCode::Backspace);
    }
    for c in "alpha".chars() {
        key(&mut app, KeyCode::Char(c));
    }
    assert_eq!(ids(&app), [(1, None), (1, Some(10)), (1, Some(11))]);
}

fn pproc(pid: i32, ppid: i32, name: &str, cpu_ns: u64) -> ProcessInfo {
    ProcessInfo { pid, ppid, name: name.into(), cpu_ns, rss: 0, disk_read: None, disk_written: None, threads: Vec::new() }
}

// 1s apart; cpu desc: 1 (40%) > 3 (30%) > 2 (20%) > 4 (10%).
// hierarchy: 1 -> {2, 3}, 3 -> {4}
fn tree_pair() -> (Snapshot, Snapshot) {
    let mut a = snap(100, 900);
    a.procs = vec![pproc(1, 0, "one", 0), pproc(2, 1, "two", 0), pproc(3, 1, "three", 0), pproc(4, 3, "four", 0)];
    let mut b = snap(150, 950);
    b.taken_ns = BASE + SEC;
    b.procs = vec![
        pproc(1, 0, "one", 400_000_000),
        pproc(2, 1, "two", 200_000_000),
        pproc(3, 1, "three", 300_000_000),
        pproc(4, 3, "four", 100_000_000),
    ];
    (a, b)
}

#[test]
fn e_builds_the_ppid_tree_and_collapses() {
    let mut app = app();
    let (a, b) = tree_pair();
    feed(&mut app, a, b);
    assert_eq!(pids(&app), [1, 3, 2, 4], "flat cpu order first");

    key(&mut app, KeyCode::Char('e'));
    assert!(app.tree);
    // children of 1 sort by cpu: 3 before 2; 4 hangs off 3
    assert_eq!(pids(&app), [1, 3, 4, 2]);
    assert_eq!(prefixes(&app), ["", "├─ ", "│  └─ ", "└─ "]);

    key(&mut app, KeyCode::Char('e'));
    assert!(!app.tree);
    assert_eq!(pids(&app), [1, 3, 2, 4], "second e restores flat order");
    assert!(app.procs.iter().all(|p| p.prefix.is_empty()));
}

#[test]
fn orphan_and_self_parent_become_roots() {
    let mut app = app();
    let mut a = snap(100, 900);
    a.procs = vec![pproc(5, 99, "orphan", 0), pproc(7, 7, "selfie", 0)];
    let mut b = snap(150, 950);
    b.taken_ns = BASE + SEC;
    b.procs = vec![pproc(5, 99, "orphan", 200_000_000), pproc(7, 7, "selfie", 100_000_000)];
    feed(&mut app, a, b);
    key(&mut app, KeyCode::Char('e'));
    assert_eq!(pids(&app), [5, 7], "both are roots, neither loops");
    assert_eq!(prefixes(&app), ["", ""]);
}

#[test]
fn ppid_cycle_terminates_and_surfaces_every_pid() {
    let mut app = app();
    let mut a = snap(100, 900);
    a.procs = vec![pproc(1, 0, "root", 0), pproc(2, 3, "yin", 0), pproc(3, 2, "yang", 0)];
    let mut b = snap(150, 950);
    b.taken_ns = BASE + SEC;
    b.procs = vec![pproc(1, 0, "root", 500_000_000), pproc(2, 3, "yin", 300_000_000), pproc(3, 2, "yang", 200_000_000)];
    feed(&mut app, a, b);
    key(&mut app, KeyCode::Char('e'));
    // 2 <-> 3 never reach a root; the sweep adopts 2 (higher cpu) as one
    assert_eq!(pids(&app), [1, 2, 3]);
    assert_eq!(app.procs.iter().filter(|p| p.pid == 2).count(), 1);
    assert_eq!(app.procs.iter().filter(|p| p.pid == 3).count(), 1);
}

#[test]
fn filter_bypasses_the_tree_and_clearing_restores_it() {
    let mut app = app();
    let (a, b) = tree_pair();
    feed(&mut app, a, b);
    key(&mut app, KeyCode::Char('e'));
    assert_eq!(pids(&app), [1, 3, 4, 2]);

    // "t" matches two and three: flat filtered list, no rails
    key(&mut app, KeyCode::Char('f'));
    key(&mut app, KeyCode::Char('t'));
    assert_eq!(pids(&app), [3, 2], "flat cpu order within the matches");
    assert!(app.procs.iter().all(|p| p.prefix.is_empty()));
    assert!(app.tree, "the toggle survives the filter");

    // esc drops the filter; the tree comes back
    key(&mut app, KeyCode::Esc);
    assert_eq!(pids(&app), [1, 3, 4, 2]);
    assert_eq!(prefixes(&app), ["", "├─ ", "│  └─ ", "└─ "]);
}

#[test]
fn tree_threads_hang_under_their_proc_before_child_procs() {
    let mut app = app();
    key(&mut app, KeyCode::Char('t'));
    key(&mut app, KeyCode::Char('e'));
    // 1 -> {2, 3}, 2 -> {4}; 2 also owns two threads
    let mut two_a = pproc(2, 1, "two", 0);
    two_a.threads = vec![tinfo(20, "w", 0), tinfo(21, "x", 0)];
    let mut a = snap(100, 900);
    a.procs = vec![pproc(1, 0, "one", 0), two_a, pproc(3, 1, "three", 0), pproc(4, 2, "four", 0)];
    let mut two_b = pproc(2, 1, "two", 400_000_000);
    two_b.threads = vec![tinfo(20, "w", 300_000_000), tinfo(21, "x", 100_000_000)];
    let mut b = snap(150, 950);
    b.taken_ns = BASE + SEC;
    b.procs = vec![pproc(1, 0, "one", 500_000_000), two_b, pproc(3, 1, "three", 300_000_000), pproc(4, 2, "four", 200_000_000)];
    feed(&mut app, a, b);
    // threads of 2 come first (cpu desc), then its child proc 4
    assert_eq!(ids(&app), [(1, None), (2, None), (2, Some(20)), (2, Some(21)), (4, None), (3, None)]);
    // 2 has a sibling below (3), so its subtree keeps the │ rail
    assert_eq!(prefixes(&app), ["", "├─ ", "│  ├─ ", "│  ├─ ", "│  └─ ", "└─ "]);
}

#[test]
fn selection_on_a_deep_child_survives_e_toggles() {
    let mut app = app();
    let (a, b) = tree_pair();
    feed(&mut app, a, b);
    key(&mut app, KeyCode::Char('e'));
    // [1, 3, 4, 2]: land on 4, the grandchild
    key(&mut app, KeyCode::Down);
    key(&mut app, KeyCode::Down);
    assert_eq!(app.selected_id, Some((4, None)));

    key(&mut app, KeyCode::Char('e'));
    assert_eq!(app.selected_id, Some((4, None)));
    assert_eq!(app.selected, 3, "4 is last in flat cpu order");

    key(&mut app, KeyCode::Char('e'));
    assert_eq!(app.selected_id, Some((4, None)));
    assert_eq!(app.selected, 2, "back to its tree slot");
}

#[test]
fn tree_lists_every_process_once_even_with_duplicate_parents() {
    let mut app = app();
    let mut a = snap(1, 1);
    a.procs = vec![pproc(1, 0, "init", 0), pproc(2, 1, "a", 0), pproc(3, 2, "b", 0), pproc(4, 3, "c", 0), pproc(5, 4, "d", 0)];
    let mut b = snap(2, 2);
    b.taken_ns = BASE + SEC;
    b.procs = a.procs.clone();
    feed(&mut app, a, b);
    key(&mut app, KeyCode::Char('e'));
    let mut got = pids(&app);
    got.sort();
    assert_eq!(got, [1, 2, 3, 4, 5]);
    assert_eq!(prefixes(&app), ["", "└─ ", "   └─ ", "      └─ ", "         └─ "]);
}

#[test]
fn traffic_brings_a_hidden_interface_back() {
    let mut app = app();
    let at = |secs: u64, rx: u64| {
        let mut s = snap(100 + secs, 900 + secs);
        s.taken_ns = BASE + secs * SEC;
        s.net.interfaces = vec![iface("en0", rx, 1_000)];
        s
    };
    app.on_event(AppEvent::Snapshot(at(0, 1_000)));
    // first seen quiet: its clock starts now, so it shows
    app.on_event(AppEvent::Snapshot(at(1, 1_000)));
    assert_eq!(app.visible_net().len(), 1);
    // quiet past the grace period: hidden
    app.on_event(AppEvent::Snapshot(at(8, 1_000)));
    assert!(app.visible_net().is_empty());
    // one byte moves: the row is not idle at all and shows again
    app.on_event(AppEvent::Snapshot(at(9, 1_001)));
    assert_eq!(app.net_ifaces[0].idle_ns, 0);
    let vis: Vec<&str> = app.visible_net().iter().map(|r| r.name.as_str()).collect();
    assert_eq!(vis, ["en0"]);
}
