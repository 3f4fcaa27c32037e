use rmon::bench::TestKind;
use rmon::collect::{CpuSnapshot, CpuTimes, MemSnapshot, MountInfo, NetIface, NetSnapshot, ProcessInfo};
use rmon::monitor::{ProcRow, SortBy};
use rmon::smart::SmartInfo;
use rmon::state::{App, AppEvent, BenchState, BenchStep, Key, KeyCode, Snapshot};

const BASE: u64 = 1_000_000_000_000;
const SEC: u64 = 1_000_000_000;

fn app() -> App {
    App::new("/tmp".to_string())
}

fn key(app: &mut App, code: KeyCode) {
    app.on_event(AppEvent::Key(Key { code, ctrl: false }));
}

fn row(pid: i32, name: &str) -> ProcRow {
    ProcRow {
        pid,
        ppid: 0,
        name: name.into(),
        cpu_ns: 0,
        rss: 0,
        io_bytes: None,
        tid: None,
        prefix: String::new(),
    }
}

fn snap(busy: u64, idle: u64) -> Snapshot {
    Snapshot {
        cpu: CpuSnapshot { total: CpuTimes { busy, idle }, per_core: vec![CpuTimes { busy, idle }] },
        mem: MemSnapshot::default(),
        net: NetSnapshot::default(),
        disks: Vec::new(),
        mounts: Vec::new(),
        procs: Vec::new(),
        cpu_name: None,
        gpu_name: None,
        uptime_secs: None,
        taken_ns: BASE,
    }
}

fn proc_info(pid: i32, name: &str, cpu_ns: u64, rss: u64, rd: Option<u64>, wr: Option<u64>) -> ProcessInfo {
    ProcessInfo { pid, ppid: 0, name: name.into(), cpu_ns, rss, disk_read: rd, disk_written: wr, threads: Vec::new() }
}

// two snapshots exactly 1s apart with controlled net/proc counters
fn pair() -> (Snapshot, Snapshot) {
    let mut a = snap(100, 900);
    a.net = NetSnapshot {
        rx_bytes: 1_000,
        tx_bytes: 500,
        iface: Some("eth0".into()),
        interfaces: vec![NetIface { name: "eth0".into(), rx_bytes: 1_000, tx_bytes: 500 }],
    };
    a.procs = vec![proc_info(1, "alpha", 0, 100, Some(1 << 20), Some(0))];
    let mut b = snap(150, 950);
    b.taken_ns = BASE + SEC;
    b.net = NetSnapshot {
        rx_bytes: 101_000,
        tx_bytes: 50_500,
        iface: Some("eth0".into()),
        interfaces: vec![NetIface { name: "eth0".into(), rx_bytes: 101_000, tx_bytes: 50_500 }],
    };
    b.procs = vec![
        proc_info(1, "alpha", 500_000_000, 100, Some(3 << 20), Some(1 << 20)),
        proc_info(2, "beta", 9_999, 9_000, None, None),
    ];
    (a, b)
}

fn loaded() -> App {
    let mut app = app();
    let (a, b) = pair();
    app.on_event(AppEvent::Snapshot(a));
    app.on_event(AppEvent::Snapshot(b));
    app
}

fn filter_text(app: &App) -> String {
    app.filter.iter().collect()
}

#[test]
fn q_quits() {
    let mut app = app();
    key(&mut app, KeyCode::Char('q'));
    assert!(app.quit);
}

#[test]
fn k_opens_kill_prompt_and_any_other_key_backs_out() {
    let mut app = app();
    // no procs -> no prompt
    key(&mut app, KeyCode::Char('k'));
    assert!(app.confirm_kill.is_none());

    app.procs = vec![row(11, "alpha"), row(22, "beta")];
    app.selected = 1;
    key(&mut app, KeyCode::Char('k'));
    let kp = app.confirm_kill.as_ref().expect("prompt opens");
    assert_eq!((kp.pid, kp.name.as_str()), (22, "beta"));

    // esc backs out without quitting; the prompt swallows the key
    key(&mut app, KeyCode::Esc);
    assert!(app.confirm_kill.is_none());
    assert!(!app.quit, "esc closes the prompt, not the app");

    // any non-confirm key backs out too, and does not reach the sort keys
    key(&mut app, KeyCode::Char('k'));
    key(&mut app, KeyCode::Char('m'));
    assert!(app.confirm_kill.is_none());
    assert_eq!(app.sort, SortBy::Cpu, "swallowed key must not sort");
}

#[test]
fn kill_confirm_hands_out_the_process_to_signal() {
    let mut app = app();
    app.procs = vec![row(4242, "sleep")];
    key(&mut app, KeyCode::Char('k'));
    let kp = app.on_event(AppEvent::Key(Key { code: KeyCode::Char('y'), ctrl: false })).expect("confirmed");
    assert!(app.confirm_kill.is_none());
    assert_eq!((kp.pid, kp.name.as_str()), (4242, "sleep"));
    assert!(app.status.is_none(), "success is silent");
}

#[test]
fn kill_failure_sets_status() {
    let mut app = app();
    app.procs = vec![row(i32::MAX, "ghost")];
    key(&mut app, KeyCode::Char('k'));
    let kp = app.on_event(AppEvent::Key(Key { code: KeyCode::Enter, ctrl: false })).expect("confirmed");
    app.kill_failed(&kp, "No such process (os error 3)");
    let st = app.status.as_ref().expect("failure surfaces");
    assert!(st.contains("ghost") && st.contains("failed"), "{st}");
    assert_eq!(st, "kill ghost (2147483647) failed: No such process (os error 3)");
}

#[test]
fn sort_by_mem_and_selection_clamps() {
    let mut app = loaded();
    key(&mut app, KeyCode::Char('m'));
    assert_eq!(app.procs[0].name, "beta"); // 9_000 rss beats 100
    key(&mut app, KeyCode::Down);
    key(&mut app, KeyCode::Down);
    key(&mut app, KeyCode::Down);
    assert_eq!(app.selected, 1); // clamped to last row
    key(&mut app, KeyCode::Up);
    key(&mut app, KeyCode::Up);
    assert_eq!(app.selected, 0);
}

#[test]
fn filter_edit_swallows_keys_and_esc_peels() {
    let mut app = loaded();

    // q and k are text while editing, not quit / kill
    key(&mut app, KeyCode::Char('f'));
    key(&mut app, KeyCode::Char('q'));
    key(&mut app, KeyCode::Char('k'));
    assert!(!app.quit);
    assert!(app.confirm_kill.is_none());
    assert_eq!(filter_text(&app), "qk");
    assert!(app.procs.is_empty(), "no proc matches qk");

    // backspace repairs the needle; pid digits match too
    key(&mut app, KeyCode::Backspace);
    key(&mut app, KeyCode::Backspace);
    key(&mut app, KeyCode::Char('2'));
    assert_eq!(app.procs.len(), 1);
    assert_eq!(app.procs[0].pid, 2);

    // esc while editing drops the filter entirely
    key(&mut app, KeyCode::Esc);
    assert!(!app.filter_edit && app.filter.is_empty());
    assert_eq!(app.procs.len(), 2);

    // committed filter: first esc peels it, second esc quits
    key(&mut app, KeyCode::Char('/'));
    key(&mut app, KeyCode::Char('a'));
    key(&mut app, KeyCode::Enter);
    key(&mut app, KeyCode::Esc);
    assert!(!app.quit);
    assert!(app.filter.is_empty());
    key(&mut app, KeyCode::Esc);
    assert!(app.quit);
}

#[test]
fn sort_key_keeps_the_selected_row() {
    let mut app = loaded();
    // cpu sort: [alpha, beta]; select alpha, then sort by mem flips the order
    key(&mut app, KeyCode::Up);
    assert_eq!(app.selected_id, Some((1, None)));
    key(&mut app, KeyCode::Char('m'));
    assert_eq!(app.procs[0].name, "beta");
    assert_eq!(app.selected, 1, "alpha stays highlighted after the resort");
    assert_eq!(app.selected_id, Some((1, None)));
}

#[test]
fn sort_by_io_puts_none_last() {
    let mut app = loaded();
    key(&mut app, KeyCode::Char('i'));
    assert_eq!(app.sort, SortBy::Io);
    assert_eq!(app.procs[0].pid, 1);
    assert_eq!(app.procs[1].pid, 2);
}

#[test]
fn sort_by_name_is_case_insensitive_ascending() {
    let mut app = app();
    app.procs = vec![row(1, "Zed"), row(2, "alpha"), row(3, "Beta")];
    app.selected_id = Some((1, None));
    key(&mut app, KeyCode::Char('n'));
    assert_eq!(app.sort, SortBy::Name);
    let names: Vec<&str> = app.procs.iter().map(|p| p.name.as_str()).collect();
    assert_eq!(names, ["alpha", "Beta", "Zed"]);
    assert_eq!(app.selected, 2, "highlight followed Zed to the bottom");
}

fn mount(point: &str, available: u64) -> MountInfo {
    MountInfo { mount_point: point.into(), total: available * 2, available }
}

#[test]
fn b_opens_picker_sorted_by_free_space() {
    let mut app = app();
    app.mounts = vec![mount("/small", 10), mount("/big", 1000)];
    key(&mut app, KeyCode::Char('b'));
    let p = app.picker.as_ref().expect("picker opens");
    assert_eq!(p.entries[0].path, "/big");
    assert_eq!(p.entries[1].path, "/small");
    // temp dir is always the last resort entry
    assert_eq!(p.entries.last().unwrap().path, "/tmp");
    assert_eq!(p.entries.last().unwrap().available, None);
    assert_eq!(p.selected, 0);
    assert!(app.bench_target.is_none(), "prompt, do not start");
}

#[test]
fn picker_keeps_mount_order_among_equal_free_space() {
    let mut app = app();
    app.mounts = vec![mount("/a", 5), mount("/b", 7), mount("/c", 5)];
    key(&mut app, KeyCode::Char('b'));
    let paths: Vec<&str> = app.picker.as_ref().unwrap().entries.iter().map(|e| e.path.as_str()).collect();
    assert_eq!(paths, ["/b", "/a", "/c", "/tmp"]);
}

#[test]
fn picker_enter_starts_bench_at_selection() {
    let mut app = app();
    app.mounts = vec![mount("/big", 1000)];
    key(&mut app, KeyCode::Char('b'));
    key(&mut app, KeyCode::Down);
    key(&mut app, KeyCode::Enter);
    assert!(app.picker.is_none());
    assert_eq!(app.bench_target.as_deref(), Some("/tmp"));
    assert!(app.bench.is_some(), "bench state resets on start");
}

#[test]
fn picker_selection_clamps() {
    let mut app = app();
    app.mounts = vec![mount("/a", 1)];
    key(&mut app, KeyCode::Char('b'));
    key(&mut app, KeyCode::Up);
    assert_eq!(app.picker.as_ref().unwrap().selected, 0);
    for _ in 0..9 {
        key(&mut app, KeyCode::Down);
    }
    assert_eq!(app.picker.as_ref().unwrap().selected, 1); // 2 entries
}

#[test]
fn picker_escape_closes_without_bench_and_q_does_not_quit() {
    let mut app = app();
    key(&mut app, KeyCode::Char('b'));
    assert!(app.picker.is_some());
    key(&mut app, KeyCode::Char('q'));
    assert!(app.picker.is_none());
    assert!(!app.quit, "q closes the picker, not the app");
    assert!(app.bench_target.is_none());
    // esc works the same way
    key(&mut app, KeyCode::Char('b'));
    key(&mut app, KeyCode::Esc);
    assert!(app.picker.is_none() && !app.quit);
}

#[test]
fn b_ignored_while_bench_runs() {
    let mut app = app();
    app.bench = Some(BenchState { running: None, results: Vec::new(), error: None, direct: None }); // running
    key(&mut app, KeyCode::Char('b'));
    assert!(app.picker.is_none(), "no picker while a bench runs");
}

#[test]
fn b_reopens_after_the_bench_finished_or_failed() {
    let mut app = app();
    app.bench = Some(BenchState {
        running: None,
        results: vec![TestKind::SeqWrite, TestKind::SeqRead, TestKind::RandRead, TestKind::RandWrite],
        error: None,
        direct: Some(true),
    });
    key(&mut app, KeyCode::Char('b'));
    assert!(app.picker.is_some());
    let mut app = self::app();
    app.bench = Some(BenchState { running: None, results: Vec::new(), error: Some("disk full".into()), direct: None });
    key(&mut app, KeyCode::Char('b'));
    assert!(app.picker.is_some());
}

#[test]
fn quit_event_exits_even_mid_picker() {
    let mut app = app();
    key(&mut app, KeyCode::Char('b'));
    app.on_event(AppEvent::Quit);
    assert!(app.quit, "tty loss must exit despite the modal picker");
}

#[test]
fn ctrl_c_quits_even_mid_picker() {
    let mut app = app();
    key(&mut app, KeyCode::Char('b'));
    assert!(app.picker.is_some());
    app.on_event(AppEvent::Key(Key { code: KeyCode::Char('c'), ctrl: true }));
    assert!(app.quit);
    // plain c still sorts, does not quit
    let mut app2 = self::app();
    key(&mut app2, KeyCode::Char('c'));
    assert!(!app2.quit);
    assert_eq!(app2.sort, SortBy::Cpu);
}

#[test]
fn bench_events_update_state() {
    let mut app = app();
    app.bench = Some(BenchState { running: None, results: Vec::new(), error: None, direct: None });
    app.on_event(AppEvent::Bench(BenchStep::Progress(TestKind::SeqWrite)));
    let st = app.bench.as_ref().unwrap();
    assert_eq!(st.running, Some(TestKind::SeqWrite));

    app.on_event(AppEvent::Bench(BenchStep::TestDone(TestKind::SeqWrite)));
    assert_eq!(app.bench.as_ref().unwrap().results.len(), 1);

    app.on_event(AppEvent::Bench(BenchStep::Finished(true)));
    let st = app.bench.as_ref().unwrap();
    assert!(st.running.is_none(), "finished clears the running marker");
    assert_eq!(st.direct, Some(true));
}

#[test]
fn bench_error_stops_the_run() {
    let mut app = app();
    app.on_event(AppEvent::Bench(BenchStep::Progress(TestKind::RandRead)));
    app.on_event(AppEvent::Bench(BenchStep::Error("no space left".into())));
    let st = app.bench.as_ref().unwrap();
    assert!(st.running.is_none());
    assert_eq!(st.error.as_deref(), Some("no space left"));
}

#[test]
fn smart_event_replaces_list() {
    let info = |device: &str| SmartInfo {
        device: device.into(),
        model: None,
        healthy: Some(true),
        temp_c: None,
        wear_pct: None,
        power_on_hours: None,
    };
    let mut app = app();
    app.on_event(AppEvent::Smart(vec![info("disk0")]));
    assert_eq!(app.smart.len(), 1);
    assert_eq!(app.smart[0].device, "disk0");

    app.on_event(AppEvent::Smart(vec![info("disk1"), info("disk2")]));
    assert_eq!(app.smart.len(), 2, "second event replaces, not appends");
    assert_eq!(app.smart[0].device, "disk1");
}

#[test]
fn collect_error_shows_until_the_next_snapshot() {
    let mut app = app();
    app.on_event(AppEvent::CollectError("parse: no cpu line".into()));
    assert_eq!(app.status.as_deref(), Some("parse: no cpu line"));
    app.on_event(AppEvent::Snapshot(snap(1, 1)));
    assert!(app.status.is_none());
}

#[test]
fn t_while_filter_editing_is_text_not_a_toggle() {
    let mut app = app();
    key(&mut app, KeyCode::Char('f'));
    key(&mut app, KeyCode::Char('t'));
    assert!(!app.show_threads);
    assert_eq!(filter_text(&app), "t");
}

#[test]
fn e_while_filter_editing_is_text_not_a_toggle() {
    let mut app = app();
    key(&mut app, KeyCode::Char('f'));
    key(&mut app, KeyCode::Char('e'));
    assert!(!app.tree);
    assert_eq!(filter_text(&app), "e");
}

#[test]
fn viewport_follows_selection_only_off_window() {
    let mut app = app();
    app.procs = (0..100).map(|i| row(i, "p")).collect();
    // selection inside the window: the view stays put
    app.view_offset = 10;
    app.selected = 15;
    assert_eq!(app.scroll_viewport(20), 10);
    // below the window: scroll just enough to show it
    app.selected = 40;
    assert_eq!(app.scroll_viewport(20), 21);
    // above the window: snap to it
    app.selected = 5;
    assert_eq!(app.scroll_viewport(20), 5);
    // list shrank under the offset: clamp
    app.procs.truncate(3);
    app.selected = 2;
    assert_eq!(app.scroll_viewport(20), 2);
}

#[test]
fn anchored_row_stays_on_its_screen_line_across_resorts() {
    let mut app = app();
    app.procs = (0..50).map(|i| row(i, "p")).collect();
    // user scrolled to a window starting at 10 and picked row 15:
    // screen line = 15 - 10 = 5
    app.view_offset = 10;
    app.select(15);
    // a resort pushes pid 15 down to index 30
    app.procs.swap(15, 30);
    app.reanchor();
    assert_eq!(app.selected, 30);
    assert_eq!(app.view_offset, 25, "same screen line: 30 - 25 == 5");
    assert_eq!(app.scroll_viewport(20), 25, "no extra follow-scroll");
    // and back up, clamped at the top of the list
    app.procs.swap(30, 2);
    app.reanchor();
    assert_eq!(app.selected, 2);
    assert_eq!(app.view_offset, 0, "cannot scroll above the first row");
}

#[test]
fn drag_in_flight_wins_over_the_anchor() {
    let mut app = app();
    app.procs = (0..10).map(|i| row(i, "p")).collect();
    app.select(3);
    app.drag_scroll = true;
    app.procs.swap(3, 7);
    app.reanchor();
    assert_eq!(app.selected, 3);
    assert_eq!(app.selected_id, Some((7, None)));
}

#[test]
fn s_toggles_the_system_popup_and_esc_closes_it_first() {
    let mut app = app();
    assert!(!app.show_sys);
    key(&mut app, KeyCode::Char('s'));
    assert!(app.show_sys);
    key(&mut app, KeyCode::Char('s'));
    assert!(!app.show_sys);
    key(&mut app, KeyCode::Char('s'));
    key(&mut app, KeyCode::Esc);
    assert!(!app.show_sys, "esc closes the popup");
    assert!(!app.quit, "and does not quit while it was open");
    key(&mut app, KeyCode::Esc);
    assert!(app.quit);
}

#[test]
fn plus_and_minus_walk_the_refresh_ladder_within_bounds() {
    let mut app = app();
    assert_eq!(app.refresh_ms, 1000);
    key(&mut app, KeyCode::Char('+'));
    assert_eq!(app.refresh_ms, 500);
    key(&mut app, KeyCode::Char('+'));
    key(&mut app, KeyCode::Char('+'));
    assert_eq!(app.refresh_ms, 100);
    key(&mut app, KeyCode::Char('+'));
    assert_eq!(app.refresh_ms, 100, "shortest step holds");
    key(&mut app, KeyCode::Char('-'));
    assert_eq!(app.refresh_ms, 250);
    for _ in 0..10 {
        key(&mut app, KeyCode::Char('-'));
    }
    assert_eq!(app.refresh_ms, 5000, "longest step holds");
    key(&mut app, KeyCode::Char('+'));
    assert_eq!(app.refresh_ms, 2000);
}

#[test]
fn s_and_plus_while_filter_editing_are_text() {
    let mut app = app();
    key(&mut app, KeyCode::Char('f'));
    key(&mut app, KeyCode::Char('s'));
    key(&mut app, KeyCode::Char('+'));
    assert!(!app.show_sys);
    assert_eq!(app.refresh_ms, 1000);
    assert_eq!(app.filter, vec!['s', '+']);
}
