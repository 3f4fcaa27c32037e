//! The monitor's whole state and its transitions: a key press, a new
//! snapshot, a benchmark step, SMART data. Each transition is a function of
//! the state (and the event) stated over the state's model; the terminal
//! loop around it performs the actions it returns.

use vstd::prelude::*;
use std::collections::VecDeque;
use crate::bench::TestKind;
use crate::collect::{
    CpuTimes, CpuSnapshot, CpuTicks, DiskStats, MemSnapshot, MountInfo, NetSnapshot, ProcessInfo, cpu_ticks,
    opt_view, sat_sub, ticks_between,
};
use crate::deltas::{
    DiskRow, DiskRowModel, HISTORY, IDLE_HIDE_NS, IfaceHistory, NetRow, NetRowModel, RateSample,
    capped, law_capped_history, disk_result, names_unique, pids_unique, lemma_net_result_unique,
    lemma_disk_result_unique, lemma_thread_table_unique, disk_rows, disk_rows_view, disks_view, hists_view, ifaces_view, last_view,
    net_result, net_rows, net_rows_view, proc_rows, proc_rows_spec, push_capped, thread_table,
    thread_table_exec,
};
use crate::monitor::{
    ProcRow, RowModel, SortBy, TreeCtx, all_procs_rows, build_tree, find_row, index_of_id,
    lemma_index_of_id_bounds, row_id, rows_view, sort_rows, sort_rows_exec, tb_threads_only, tb_view,
    tree_spec, visible_rows, visible_rows_exec, weave, weave_exec, insert_row, row_before,
    filter_rows, lemma_filter_rows_match, lemma_index_of_id_found, lemma_sort_rows_perm,
    lemma_weave_procs, lowercase, row_matches,
};
use crate::smart::{SmartInfo, SmartModel};
use crate::text::{concat_chars, string_from_chars, to_chars};
use crate::monitor::{i32_decimal, i32_decimal_exec};

verus! {

/// Everything one collection pass read. Sensor readings that are floating
/// point (temperatures, gpu load, load averages) travel beside it.
pub struct Snapshot {
    pub cpu: CpuSnapshot,
    pub mem: MemSnapshot,
    pub net: NetSnapshot,
    pub disks: Vec<DiskStats>,
    pub mounts: Vec<MountInfo>,
    pub procs: Vec<ProcessInfo>,
    pub cpu_name: Option<String>,
    pub gpu_name: Option<String>,
    pub uptime_secs: Option<u64>,
    /// monotonic clock reading when the snapshot was taken, in ns
    pub taken_ns: u64,
}

/// The keys the monitor tells apart.
#[derive(Debug, Clone, Copy, PartialEq, Eq, Structural)]
pub enum KeyCode {
    Char(char),
    Up,
    Down,
    Enter,
    Esc,
    Backspace,
    Other,
}

/// A key press; `ctrl` when Control was held.
#[derive(Debug, Clone, Copy, PartialEq, Eq, Structural)]
pub struct Key {
    pub code: KeyCode,
    pub ctrl: bool,
}

/// One step of a running disk benchmark.
pub enum BenchStep {
    /// a test is under way
    Progress(TestKind),
    /// a test finished with a result
    TestDone(TestKind),
    /// the run ended; whether direct io bypassed the page cache
    Finished(bool),
    Error(String),
}

/// The benchmark panel's state.
pub struct BenchState {
    /// the test under way
    pub running: Option<TestKind>,
    /// the tests finished so far, in order
    pub results: Vec<TestKind>,
    pub error: Option<String>,
    /// the Finished report's direct-io flag; false means the page cache was in play
    pub direct: Option<bool>,
}

pub struct BenchModel {
    pub running: Option<TestKind>,
    pub results: Seq<TestKind>,
    pub error: Option<Seq<char>>,
    pub direct: Option<bool>,
}

impl View for BenchState {
    type V = BenchModel;

    open spec fn view(&self) -> BenchModel {
        BenchModel {
            running: self.running,
            results: self.results@,
            error: opt_view(self.error),
            direct: self.direct,
        }
    }
}

/// One row in the bench target prompt.
pub struct BenchTarget {
    pub path: String,
    /// free bytes for mount rows; None for the temp dir entry
    pub available: Option<u64>,
}

impl View for BenchTarget {
    type V = (Seq<char>, Option<u64>);

    open spec fn view(&self) -> (Seq<char>, Option<u64>) {
        (self.path@, self.available)
    }
}

/// The modal prompt opened by `b`: which filesystem to benchmark.
pub struct BenchPicker {
    pub entries: Vec<BenchTarget>,
    pub selected: usize,
}

pub struct PickerModel {
    pub entries: Seq<(Seq<char>, Option<u64>)>,
    pub selected: usize,
}

impl View for BenchPicker {
    type V = PickerModel;

    open spec fn view(&self) -> PickerModel {
        PickerModel { entries: self.entries@.map_values(|e: BenchTarget| e@), selected: self.selected }
    }
}

/// The modal prompt opened by `k`: confirm before the signal goes out.
/// pid and name are captured when it opens; the list resorts underneath.
pub struct KillPrompt {
    pub pid: i32,
    pub name: String,
}

impl View for KillPrompt {
    type V = (i32, Seq<char>);

    open spec fn view(&self) -> (i32, Seq<char>) {
        (self.pid, self.name@)
    }
}

/// The monitor state.
pub struct App {
    pub quit: bool,
    /// busy and total cpu ticks per interval, HISTORY-capped
    pub cpu_history: VecDeque<CpuTicks>,
    /// per-core ticks of the last interval
    pub core_ticks: Vec<CpuTicks>,
    pub mem: MemSnapshot,
    /// bytes received / sent per interval, HISTORY-capped
    pub net_rx: VecDeque<RateSample>,
    pub net_tx: VecDeque<RateSample>,
    /// what the process panel shows: procs_all narrowed by the filter,
    /// sorted, with threads or as a tree
    pub procs: Vec<ProcRow>,
    /// every process of the last snapshot
    pub procs_all: Vec<ProcRow>,
    /// bytes moved per interval by disks with service-time counters
    pub disk_io: VecDeque<RateSample>,
    pub disks: Vec<DiskRow>,
    pub mounts: Vec<MountInfo>,
    pub selected: usize,
    /// (pid, tid) under the highlight; the list resorts every snapshot, so
    /// the index alone would make the selection wander
    pub selected_id: Option<(i32, Option<u64>)>,
    /// first row the process panel shows
    pub view_offset: usize,
    /// true while the mouse drags the process scrollbar thumb
    pub drag_scroll: bool,
    /// `h` flips this: false hides net/dsk rows idle past the grace period
    pub show_idle: bool,
    /// `s` flips this: the system-info popup is open
    pub show_sys: bool,
    /// the collection cadence in ms; `+` shortens it, `-` lengthens it
    pub refresh_ms: u64,
    /// net and dsk row viewports and the row counts last drawn
    pub net_offset: usize,
    pub dsk_offset: usize,
    pub net_rows_cap: usize,
    pub dsk_rows_cap: usize,
    pub drag_net: bool,
    pub drag_dsk: bool,
    pub sort: SortBy,
    pub status: Option<String>,
    pub bench: Option<BenchState>,
    /// set by the picker; the terminal loop takes it and starts the bench
    pub bench_target: Option<String>,
    pub picker: Option<BenchPicker>,
    pub confirm_kill: Option<KillPrompt>,
    /// live substring filter for the process list; empty = off
    pub filter: Vec<char>,
    /// true while `f` captures keystrokes into the filter
    pub filter_edit: bool,
    /// `t`: interleave thread rows under their processes
    pub show_threads: bool,
    /// `e`: arrange processes as a ppid tree
    pub tree: bool,
    /// thread rows keyed by owning pid, rebuilt every snapshot
    pub threads_by_pid: Vec<(i32, Vec<ProcRow>)>,
    pub smart: Vec<SmartInfo>,
    pub cpu_name: Option<String>,
    pub gpu_name: Option<String>,
    pub uptime_secs: Option<u64>,
    pub net_ifaces: Vec<NetRow>,
    /// per-interface rate histories; vanished interfaces are pruned
    pub net_hist: Vec<IfaceHistory>,
    /// when each interface / disk last moved a byte, in ns
    pub net_last_active: Vec<(String, u64)>,
    pub disk_last_active: Vec<(String, u64)>,
    pub net_rx_total: u64,
    pub net_tx_total: u64,
    /// length of the last interval in ns (at least 1 ms)
    pub dt_ns: u64,
    /// the bench prompt's fallback entry
    pub temp_dir: String,
    pub prev: Option<Snapshot>,
}

pub struct AppModel {
    pub quit: bool,
    pub cpu_history: Seq<CpuTicks>,
    pub core_ticks: Seq<CpuTicks>,
    pub mem: MemSnapshot,
    pub net_rx: Seq<RateSample>,
    pub net_tx: Seq<RateSample>,
    pub procs: Seq<RowModel>,
    pub procs_all: Seq<RowModel>,
    pub disk_io: Seq<RateSample>,
    pub disks: Seq<DiskRowModel>,
    pub mounts: Seq<(Seq<char>, u64, u64)>,
    pub selected: usize,
    pub selected_id: Option<(i32, Option<u64>)>,
    pub view_offset: usize,
    pub drag_scroll: bool,
    pub show_idle: bool,
    pub show_sys: bool,
    pub refresh_ms: u64,
    pub net_offset: usize,
    pub dsk_offset: usize,
    pub net_rows_cap: usize,
    pub dsk_rows_cap: usize,
    pub drag_net: bool,
    pub drag_dsk: bool,
    pub sort: SortBy,
    pub status: Option<Seq<char>>,
    pub bench: Option<BenchModel>,
    pub bench_target: Option<Seq<char>>,
    pub picker: Option<PickerModel>,
    pub confirm_kill: Option<(i32, Seq<char>)>,
    pub filter: Seq<char>,
    pub filter_edit: bool,
    pub show_threads: bool,
    pub tree: bool,
    pub threads_by_pid: Seq<(i32, Seq<RowModel>)>,
    pub smart: Seq<SmartModel>,
    pub cpu_name: Option<Seq<char>>,
    pub gpu_name: Option<Seq<char>>,
    pub uptime_secs: Option<u64>,
    pub net_ifaces: Seq<NetRowModel>,
    pub net_hist: Seq<(Seq<char>, (Seq<RateSample>, Seq<RateSample>))>,
    pub net_last_active: Seq<(Seq<char>, u64)>,
    pub disk_last_active: Seq<(Seq<char>, u64)>,
    pub net_rx_total: u64,
    pub net_tx_total: u64,
    pub dt_ns: u64,
    pub temp_dir: Seq<char>,
    pub prev: Option<Snapshot>,
}

pub open spec fn mounts_view(v: Seq<MountInfo>) -> Seq<(Seq<char>, u64, u64)> {
    v.map_values(|m: MountInfo| m@)
}

pub open spec fn bench_view(b: Option<BenchState>) -> Option<BenchModel> {
    match b {
        Some(b) => Some(b@),
        None => None,
    }
}

pub open spec fn picker_view(p: Option<BenchPicker>) -> Option<PickerModel> {
    match p {
        Some(p) => Some(p@),
        None => None,
    }
}

pub open spec fn prompt_view(p: Option<KillPrompt>) -> Option<(i32, Seq<char>)> {
    match p {
        Some(p) => Some(p@),
        None => None,
    }
}

pub open spec fn smart_view_all(v: Seq<SmartInfo>) -> Seq<SmartModel> {
    v.map_values(|s: SmartInfo| s@)
}

impl View for App {
    type V = AppModel;

    open spec fn view(&self) -> AppModel {
        AppModel {
            quit: self.quit,
            cpu_history: self.cpu_history@,
            core_ticks: self.core_ticks@,
            mem: self.mem,
            net_rx: self.net_rx@,
            net_tx: self.net_tx@,
            procs: rows_view(self.procs@),
            procs_all: rows_view(self.procs_all@),
            disk_io: self.disk_io@,
            disks: disk_rows_view(self.disks@),
            mounts: mounts_view(self.mounts@),
            selected: self.selected,
            selected_id: self.selected_id,
            view_offset: self.view_offset,
            drag_scroll: self.drag_scroll,
            show_idle: self.show_idle,
            show_sys: self.show_sys,
            refresh_ms: self.refresh_ms,
            net_offset: self.net_offset,
            dsk_offset: self.dsk_offset,
            net_rows_cap: self.net_rows_cap,
            dsk_rows_cap: self.dsk_rows_cap,
            drag_net: self.drag_net,
            drag_dsk: self.drag_dsk,
            sort: self.sort,
            status: opt_view(self.status),
            bench: bench_view(self.bench),
            bench_target: opt_view(self.bench_target),
            picker: picker_view(self.picker),
            confirm_kill: prompt_view(self.confirm_kill),
            filter: self.filter@,
            filter_edit: self.filter_edit,
            show_threads: self.show_threads,
            tree: self.tree,
            threads_by_pid: tb_view(self.threads_by_pid@),
            smart: smart_view_all(self.smart@),
            cpu_name: opt_view(self.cpu_name),
            gpu_name: opt_view(self.gpu_name),
            uptime_secs: self.uptime_secs,
            net_ifaces: net_rows_view(self.net_ifaces@),
            net_hist: hists_view(self.net_hist@),
            net_last_active: last_view(self.net_last_active@),
            disk_last_active: last_view(self.disk_last_active@),
            net_rx_total: self.net_rx_total,
            net_tx_total: self.net_tx_total,
            dt_ns: self.dt_ns,
            temp_dir: self.temp_dir@,
            prev: self.prev,
        }
    }
}

/// The monitor before anything reached it: nothing collected, sorted by
/// cpu, no prompt, filter or popup, idle rows hidden, flat list, a 1 s
/// cadence, and `temp_dir` as the bench prompt's fallback entry.
pub open spec fn initial_m(temp_dir: Seq<char>) -> AppModel {
    AppModel {
        quit: false,
        cpu_history: seq![],
        core_ticks: seq![],
        mem: MemSnapshot { total: 0, used: 0, available: 0, swap_total: 0, swap_used: 0 },
        net_rx: seq![],
        net_tx: seq![],
        procs: seq![],
        procs_all: seq![],
        disk_io: seq![],
        disks: seq![],
        mounts: seq![],
        selected: 0,
        selected_id: None,
        view_offset: 0,
        drag_scroll: false,
        show_idle: false,
        show_sys: false,
        refresh_ms: REFRESH_DEFAULT_MS,
        net_offset: 0,
        dsk_offset: 0,
        net_rows_cap: 0,
        dsk_rows_cap: 0,
        drag_net: false,
        drag_dsk: false,
        sort: SortBy::Cpu,
        status: None,
        bench: None,
        bench_target: None,
        picker: None,
        confirm_kill: None,
        filter: seq![],
        filter_edit: false,
        show_threads: false,
        tree: false,
        threads_by_pid: seq![],
        smart: seq![],
        cpu_name: None,
        gpu_name: None,
        uptime_secs: None,
        net_ifaces: seq![],
        net_hist: seq![],
        net_last_active: seq![],
        disk_last_active: seq![],
        net_rx_total: 0,
        net_tx_total: 0,
        dt_ns: 0,
        temp_dir,
        prev: None,
    }
}

/// One thread-table entry per pid; one history and one idle clock per name.
#[verifier::opaque]
pub open spec fn keys_unique(
    tb: Seq<(i32, Seq<RowModel>)>,
    hist: Seq<(Seq<char>, (Seq<RateSample>, Seq<RateSample>))>,
    net_last: Seq<(Seq<char>, u64)>,
    disk_last: Seq<(Seq<char>, u64)>,
) -> bool {
    &&& pids_unique(tb)
    &&& names_unique(hist)
    &&& names_unique(net_last)
    &&& names_unique(disk_last)
}

/// What the monitor keeps true between events: thread tables hold thread
/// rows only and one entry per pid, the interface histories and the idle
/// clocks one entry per name, an open picker's selection is one of its
/// entries, and every history holds at most HISTORY samples.
pub open spec fn wf_m(m: AppModel) -> bool {
    &&& tb_threads_only(m.threads_by_pid)
    &&& keys_unique(m.threads_by_pid, m.net_hist, m.net_last_active, m.disk_last_active)
    &&& (m.picker matches Some(p) ==> p.selected < p.entries.len())
    &&& m.cpu_history.len() <= HISTORY
    &&& m.net_rx.len() <= HISTORY
    &&& m.net_tx.len() <= HISTORY
    &&& m.disk_io.len() <= HISTORY
}

/// The process rows of a list, in order (thread rows dropped).
pub open spec fn procs_only(s: Seq<RowModel>) -> Seq<RowModel>
    decreases s.len(),
{
    if s.len() == 0 {
        seq![]
    } else if s.last().tid is None {
        procs_only(s.drop_last()).push(s.last())
    } else {
        procs_only(s.drop_last())
    }
}

/// The process list laid out: process rows sorted; as a ppid tree when the
/// tree view is on and no filter punches holes in the hierarchy; else flat,
/// with each process's sorted threads under it when threads are shown.
pub open spec fn arrange(
    procs: Seq<RowModel>,
    filter: Seq<char>,
    sort: SortBy,
    tree: bool,
    show_threads: bool,
    tb: Seq<(i32, Seq<RowModel>)>,
) -> Seq<RowModel> {
    let parents = sort_rows(sort, false, procs_only(procs));
    if tree && filter.len() == 0 {
        tree_spec(TreeCtx { procs: parents, tb, show_threads, sort })
    } else if !show_threads {
        parents
    } else {
        weave(sort, parents, tb)
    }
}

/// `i` kept within the list (0 for an empty one).
pub open spec fn clamp_last(i: usize, len: nat) -> usize {
    if len == 0 {
        0
    } else if i >= len {
        (len - 1) as usize
    } else {
        i
    }
}

/// The identity of row `i`, if there is one.
pub open spec fn id_at(rows: Seq<RowModel>, i: int) -> Option<(i32, Option<u64>)> {
    if 0 <= i < rows.len() {
        Some(row_id(rows[i]))
    } else {
        None
    }
}

/// The viewport moved by as many rows as the anchored row moved, not above
/// the first row.
pub open spec fn shift_offset(off: usize, idx: int, sel: usize) -> usize {
    let v = off + idx - sel;
    if v < 0 {
        0
    } else if v > usize::MAX {
        usize::MAX
    } else {
        v as usize
    }
}

/// After the list changed: the highlight chases its (pid, tid) to the new
/// index and the viewport moves with it, so the row stays on its screen
/// line; a row that is gone leaves the highlight on its (clamped) index,
/// which adopts whatever row sits there now. A scrollbar drag in flight
/// wins over the anchor.
pub open spec fn reanchor_m(m: AppModel) -> AppModel {
    let idx = match m.selected_id {
        Some(id) => index_of_id(m.procs, id),
        None => -1,
    };
    if !m.drag_scroll && idx >= 0 {
        AppModel { view_offset: shift_offset(m.view_offset, idx, m.selected), selected: idx as usize, ..m }
    } else {
        let s = clamp_last(m.selected, m.procs.len());
        AppModel { selected: s, selected_id: id_at(m.procs, s as int), ..m }
    }
}

/// The list re-sorted in place under the current settings.
pub open spec fn sort_procs_m(m: AppModel) -> AppModel {
    AppModel {
        procs: arrange(m.procs, m.filter, m.sort, m.tree, m.show_threads, m.threads_by_pid),
        ..m
    }
}

/// The list re-derived from every process through the filter, then laid
/// out and re-anchored. The filter matches a case-insensitive substring of
/// the name, or of the pid's digits.
pub open spec fn refilter_m(m: AppModel) -> AppModel {
    reanchor_m(
        AppModel {
            procs: arrange(
                visible_rows(m.procs_all, m.filter),
                m.filter,
                m.sort,
                m.tree,
                m.show_threads,
                m.threads_by_pid,
            ),
            ..m
        },
    )
}

/// Moves the highlight to `idx` and anchors it to the row there.
pub open spec fn select_m(m: AppModel, idx: usize) -> AppModel {
    AppModel { selected: idx, selected_id: id_at(m.procs, idx as int), ..m }
}

proof fn lemma_procs_only(s: Seq<RowModel>)
    ensures
        all_procs_rows(procs_only(s)),
    decreases s.len(),
{
    if s.len() > 0 {
        lemma_procs_only(s.drop_last());
    }
}

proof fn lemma_insert_row_procs(sort: SortBy, th: bool, s: Seq<RowModel>, x: RowModel)
    requires
        all_procs_rows(s),
        x.tid is None,
    ensures
        all_procs_rows(insert_row(sort, th, s, x)),
    decreases s.len(),
{
    if s.len() > 0 && !row_before(sort, th, x, s[0]) {
        assert forall|i: int| 0 <= i < s.drop_first().len() implies (#[trigger] s.drop_first()[
            i
        ]).tid is None by {
            assert(s.drop_first()[i] == s[i + 1]);
        }
        lemma_insert_row_procs(sort, th, s.drop_first(), x);
        let r = insert_row(sort, th, s.drop_first(), x);
        assert forall|i: int| 0 <= i < (seq![s[0]] + r).len() implies (#[trigger] (seq![s[0]]
            + r)[i]).tid is None by {
            if i > 0 {
                assert((seq![s[0]] + r)[i] == r[i - 1]);
            }
        }
    } else if s.len() > 0 {
        assert forall|i: int| 0 <= i < (seq![x] + s).len() implies (#[trigger] (seq![x]
            + s)[i]).tid is None by {
            if i > 0 {
                assert((seq![x] + s)[i] == s[i - 1]);
            }
        }
    }
}

proof fn lemma_sort_rows_procs(sort: SortBy, th: bool, s: Seq<RowModel>)
    requires
        all_procs_rows(s),
    ensures
        all_procs_rows(sort_rows(sort, th, s)),
    decreases s.len(),
{
    if s.len() > 0 {
        assert forall|i: int| 0 <= i < s.drop_last().len() implies (#[trigger] s.drop_last()[
            i
        ]).tid is None by {
            assert(s.drop_last()[i] == s[i]);
        }
        lemma_sort_rows_procs(sort, th, s.drop_last());
        lemma_insert_row_procs(sort, th, sort_rows(sort, th, s.drop_last()), s.last());
    }
}

fn procs_only_exec(v: &Vec<ProcRow>) -> (r: Vec<ProcRow>)
    ensures
        rows_view(r@) == procs_only(rows_view(v@)),
{
    let ghost vv = rows_view(v@);
    let mut out: Vec<ProcRow> = Vec::new();
    let mut i: usize = 0;
    while i < v.len()
        invariant
            i <= v@.len(),
            vv == rows_view(v@),
            rows_view(out@) == procs_only(vv.take(i as int)),
        decreases v@.len() - i,
    {
        assert(vv.take(i + 1).drop_last() == vv.take(i as int));
        assert(vv.take(i + 1).last() == v@[i as int]@);
        if v[i].tid.is_none() {
            let ghost o = out@;
            let row = v[i].dup();
            out.push(row);
            assert(rows_view(out@) =~= rows_view(o).push(v@[i as int]@));
        }
        i += 1;
    }
    assert(vv.take(v@.len() as int) == vv);
    out
}

/// Lays a process list out under the given settings (see `arrange`).
pub fn arrange_exec(
    procs: &Vec<ProcRow>,
    filter_empty: bool,
    sort: SortBy,
    tree: bool,
    show_threads: bool,
    tb: &Vec<(i32, Vec<ProcRow>)>,
    Ghost(filter): Ghost<Seq<char>>,
) -> (r: Vec<ProcRow>)
    requires
        tb_threads_only(tb_view(tb@)),
        filter_empty == (filter.len() == 0),
    ensures
        rows_view(r@) == arrange(rows_view(procs@), filter, sort, tree, show_threads, tb_view(tb@)),
{
    let only = procs_only_exec(procs);
    let parents = sort_rows_exec(sort, false, &only);
    proof {
        lemma_procs_only(rows_view(procs@));
        lemma_sort_rows_procs(sort, false, rows_view(only@));
    }
    if tree && filter_empty {
        build_tree(&parents, tb, show_threads, sort)
    } else if !show_threads {
        parents
    } else {
        weave_exec(sort, &parents, tb)
    }
}


/// A mount's row in the bench prompt.
pub open spec fn mount_entry(m: (Seq<char>, u64, u64)) -> (Seq<char>, Option<u64>) {
    (m.0, Some(m.2))
}

/// The order key of a prompt row: its free bytes, below any count when unknown.
pub open spec fn free_key(e: (Seq<char>, Option<u64>)) -> int {
    match e.1 {
        Some(a) => a as int,
        None => -1,
    }
}

pub open spec fn insert_by_free(s: Seq<(Seq<char>, Option<u64>)>, x: (Seq<char>, Option<u64>)) -> Seq<
    (Seq<char>, Option<u64>),
>
    decreases s.len(),
{
    if s.len() == 0 {
        seq![x]
    } else if free_key(x) > free_key(s[0]) {
        seq![x] + s
    } else {
        seq![s[0]] + insert_by_free(s.drop_first(), x)
    }
}

/// Rows by free space, biggest first, ties in mount order (a stable sort).
pub open spec fn sort_by_free(s: Seq<(Seq<char>, Option<u64>)>) -> Seq<(Seq<char>, Option<u64>)>
    decreases s.len(),
{
    if s.len() == 0 {
        seq![]
    } else {
        insert_by_free(sort_by_free(s.drop_last()), s.last())
    }
}

/// The bench prompt: mounts by free space, biggest first, with the temp dir
/// as the last resort; the first row highlighted.
pub open spec fn open_picker_m(m: AppModel) -> AppModel {
    AppModel {
        picker: Some(
            PickerModel {
                entries: sort_by_free(m.mounts.map_values(|x: (Seq<char>, u64, u64)| mount_entry(x))).push(
                    (m.temp_dir, None),
                ),
                selected: 0,
            },
        ),
        ..m
    }
}

/// A benchmark is under way: started, not failed, not all four tests done.
pub open spec fn bench_running(b: Option<BenchModel>) -> bool {
    b matches Some(s) && s.error is None && s.results.len() < 4
}

pub open spec fn fresh_bench() -> BenchModel {
    BenchModel { running: None, results: seq![], error: None, direct: None }
}

/// The name of the first process row with this pid.
pub open spec fn first_proc_name(all: Seq<RowModel>, pid: i32) -> Option<Seq<char>>
    decreases all.len(),
{
    if all.len() == 0 {
        None
    } else if all[0].pid == pid {
        Some(all[0].name)
    } else {
        first_proc_name(all.drop_first(), pid)
    }
}

/// Whom `k` on a row would signal: a thread row targets its process, named
/// as the process list names it.
pub open spec fn kill_name(all: Seq<RowModel>, p: RowModel) -> Seq<char> {
    if p.tid is Some {
        match first_proc_name(all, p.pid) {
            Some(n) => n,
            None => p.name,
        }
    } else {
        p.name
    }
}

/// The collection cadence at start, in ms.
pub const REFRESH_DEFAULT_MS: u64 = 1000;

/// The shortest and the longest cadence the keys reach, in ms.
pub const REFRESH_MIN_MS: u64 = 100;
pub const REFRESH_MAX_MS: u64 = 5000;

/// `+`: the next shorter step of the cadence ladder (100, 250, 500, 1000,
/// 2000, 5000 ms), stopping at the shortest.
pub open spec fn faster_ms(ms: u64) -> u64 {
    if ms > 5000 {
        5000
    } else if ms > 2000 {
        2000
    } else if ms > 1000 {
        1000
    } else if ms > 500 {
        500
    } else if ms > 250 {
        250
    } else {
        100
    }
}

/// `-`: the next longer step of the cadence ladder, stopping at the longest.
pub open spec fn slower_ms(ms: u64) -> u64 {
    if ms < 100 {
        100
    } else if ms < 250 {
        250
    } else if ms < 500 {
        500
    } else if ms < 1000 {
        1000
    } else if ms < 2000 {
        2000
    } else {
        5000
    }
}

fn faster(ms: u64) -> (r: u64)
    ensures
        r == faster_ms(ms),
{
    if ms > 5000 {
        5000
    } else if ms > 2000 {
        2000
    } else if ms > 1000 {
        1000
    } else if ms > 500 {
        500
    } else if ms > 250 {
        250
    } else {
        100
    }
}

fn slower(ms: u64) -> (r: u64)
    ensures
        r == slower_ms(ms),
{
    if ms < 100 {
        100
    } else if ms < 250 {
        250
    } else if ms < 500 {
        500
    } else if ms < 1000 {
        1000
    } else if ms < 2000 {
        2000
    } else {
        5000
    }
}

/// One row up, stopping at the first.
pub open spec fn step_up(sel: usize) -> usize {
    if sel > 0 {
        (sel - 1) as usize
    } else {
        0
    }
}

/// One row down, stopping at the last.
pub open spec fn step_down(sel: usize, len: nat) -> usize {
    if sel + 1 < len {
        (sel + 1) as usize
    } else {
        clamp_last(sel, len)
    }
}

/// A key while the bench prompt is open: it swallows every key.
pub open spec fn picker_key_m(m: AppModel, p: PickerModel, code: KeyCode) -> AppModel {
    match code {
        KeyCode::Up => AppModel { picker: Some(PickerModel { selected: step_up(p.selected), ..p }), ..m },
        KeyCode::Down => AppModel {
            picker: Some(PickerModel { selected: step_down(p.selected, p.entries.len()), ..p }),
            ..m
        },
        KeyCode::Enter => AppModel {
            picker: None,
            bench: Some(fresh_bench()),
            bench_target: Some(p.entries[p.selected as int].0),
            ..m
        },
        KeyCode::Esc => AppModel { picker: None, ..m },
        KeyCode::Char(c) => if c == 'q' || c == 'b' {
            AppModel { picker: None, ..m }
        } else {
            m
        },
        _ => m,
    }
}

/// A key while the filter is being typed: text goes into the filter, enter
/// keeps it, esc drops it.
pub open spec fn filter_key_m(m: AppModel, code: KeyCode) -> AppModel {
    match code {
        KeyCode::Enter => AppModel { filter_edit: false, ..m },
        KeyCode::Esc => refilter_m(AppModel { filter_edit: false, filter: seq![], ..m }),
        KeyCode::Backspace => refilter_m(
            AppModel {
                filter: if m.filter.len() > 0 {
                    m.filter.drop_last()
                } else {
                    m.filter
                },
                ..m
            },
        ),
        KeyCode::Char(c) => refilter_m(AppModel { filter: m.filter.push(c), ..m }),
        _ => m,
    }
}

/// A sort key: the new order, the highlight kept on its row.
pub open spec fn sort_key_m(m: AppModel, sort: SortBy) -> AppModel {
    reanchor_m(sort_procs_m(AppModel { sort, ..m }))
}

/// A letter key with no prompt open.
pub open spec fn char_key_m(m: AppModel, c: char) -> (AppModel, Option<(i32, Seq<char>)>) {
    if c == 'q' {
        (AppModel { quit: true, ..m }, None)
    } else if c == 'f' || c == '/' {
        (AppModel { filter_edit: true, ..m }, None)
    } else if c == 'c' {
        (sort_key_m(m, SortBy::Cpu), None)
    } else if c == 'm' {
        (sort_key_m(m, SortBy::Mem), None)
    } else if c == 'i' {
        (sort_key_m(m, SortBy::Io), None)
    } else if c == 'n' {
        (sort_key_m(m, SortBy::Name), None)
    } else if c == 't' {
        (refilter_m(AppModel { show_threads: !m.show_threads, ..m }), None)
    } else if c == 'e' {
        (refilter_m(AppModel { tree: !m.tree, ..m }), None)
    } else if c == 'h' {
        (AppModel { show_idle: !m.show_idle, ..m }, None)
    } else if c == 's' {
        (AppModel { show_sys: !m.show_sys, ..m }, None)
    } else if c == '+' {
        (AppModel { refresh_ms: faster_ms(m.refresh_ms), ..m }, None)
    } else if c == '-' {
        (AppModel { refresh_ms: slower_ms(m.refresh_ms), ..m }, None)
    } else if c == 'b' {
        (bench_key_m(m), None)
    } else if c == 'k' {
        (kill_key_m(m), None)
    } else {
        (m, None)
    }
}

/// `b`: the bench prompt opens unless a benchmark is under way.
pub open spec fn bench_key_m(m: AppModel) -> AppModel {
    if bench_running(m.bench) {
        m
    } else {
        open_picker_m(m)
    }
}

/// `k`: the kill prompt opens on the highlighted row's process.
pub open spec fn kill_key_m(m: AppModel) -> AppModel {
    if m.selected < m.procs.len() {
        let p = m.procs[m.selected as int];
        AppModel { confirm_kill: Some((p.pid, kill_name(m.procs_all, p))), ..m }
    } else {
        m
    }
}

/// A key with no prompt open.
pub open spec fn main_key_m(m: AppModel, code: KeyCode) -> (AppModel, Option<(i32, Seq<char>)>) {
    match code {
        KeyCode::Char(c) => char_key_m(m, c),
        KeyCode::Esc => if m.show_sys {
            (AppModel { show_sys: false, ..m }, None)
        } else if m.filter.len() == 0 {
            (AppModel { quit: true, ..m }, None)
        } else {
            (refilter_m(AppModel { filter: seq![], ..m }), None)
        },
        KeyCode::Up => (select_m(m, step_up(m.selected)), None),
        KeyCode::Down => (select_m(m, step_down(m.selected, m.procs.len())), None),
        _ => (m, None),
    }
}

/// A key press: the new state, and the process to signal when the kill
/// prompt was confirmed. Ctrl+C quits from anywhere; an open prompt takes
/// the key first (the bench prompt, then the kill prompt, which any key but
/// enter or `y` backs out of), then the filter being typed.
pub open spec fn key_m(m: AppModel, k: Key) -> (AppModel, Option<(i32, Seq<char>)>) {
    if k.ctrl && k.code == KeyCode::Char('c') {
        (AppModel { quit: true, ..m }, None)
    } else if m.picker is Some {
        (picker_key_m(m, m.picker->0, k.code), None)
    } else if m.confirm_kill is Some {
        if k.code == KeyCode::Enter || k.code == KeyCode::Char('y') {
            (AppModel { confirm_kill: None, ..m }, m.confirm_kill)
        } else {
            (AppModel { confirm_kill: None, ..m }, None)
        }
    } else if m.filter_edit {
        (filter_key_m(m, k.code), None)
    } else {
        main_key_m(m, k.code)
    }
}

/// A benchmark step folded into the panel state (created fresh when absent).
pub open spec fn bench_m(b: Option<BenchModel>, step: BenchStep) -> BenchModel {
    let st = match b {
        Some(s) => s,
        None => fresh_bench(),
    };
    match step {
        BenchStep::Progress(k) => BenchModel { running: Some(k), ..st },
        BenchStep::TestDone(k) => BenchModel { results: st.results.push(k), ..st },
        BenchStep::Finished(d) => BenchModel { running: None, direct: Some(d), ..st },
        BenchStep::Error(e) => BenchModel { running: None, error: Some(e@), ..st },
    }
}

/// Rows the `h` toggle lets through.
pub open spec fn shown(show_idle: bool, idle_ns: u64) -> bool {
    show_idle || idle_ns <= IDLE_HIDE_NS
}

pub open spec fn shown_nets(rows: Seq<NetRowModel>, show_idle: bool) -> Seq<NetRowModel>
    decreases rows.len(),
{
    if rows.len() == 0 {
        seq![]
    } else if shown(show_idle, rows.last().idle_ns) {
        shown_nets(rows.drop_last(), show_idle).push(rows.last())
    } else {
        shown_nets(rows.drop_last(), show_idle)
    }
}

pub open spec fn shown_disks(rows: Seq<DiskRowModel>, show_idle: bool) -> Seq<DiskRowModel>
    decreases rows.len(),
{
    if rows.len() == 0 {
        seq![]
    } else if shown(show_idle, rows.last().idle_ns) {
        shown_disks(rows.drop_last(), show_idle).push(rows.last())
    } else {
        shown_disks(rows.drop_last(), show_idle)
    }
}

/// The status line a failed signal leaves.
pub open spec fn kill_failed_msg(name: Seq<char>, pid: i32, err: Seq<char>) -> Seq<char> {
    seq!['k', 'i', 'l', 'l', ' '] + name + seq![' ', '('] + i32_decimal(pid) + seq![
        ')',
        ' ',
        'f',
        'a',
        'i',
        'l',
        'e',
        'd',
        ':',
        ' ',
    ] + err
}

proof fn lemma_insert_free_at(s: Seq<(Seq<char>, Option<u64>)>, x: (Seq<char>, Option<u64>), k: int)
    requires
        0 <= k <= s.len(),
        forall|j: int| 0 <= j < k ==> !(free_key(x) > free_key(#[trigger] s[j])),
        k < s.len() ==> free_key(x) > free_key(s[k]),
    ensures
        insert_by_free(s, x) == s.take(k) + seq![x] + s.skip(k),
    decreases k,
{
    if s.len() == 0 {
        assert(s.take(k) + seq![x] + s.skip(k) =~= seq![x]);
    } else if k == 0 {
        assert(s.take(0) + seq![x] + s.skip(0) =~= seq![x] + s);
    } else {
        assert forall|j: int| 0 <= j < k - 1 implies !(free_key(x) > free_key(
            #[trigger] s.drop_first()[j],
        )) by {
            assert(s.drop_first()[j] == s[j + 1]);
        }
        lemma_insert_free_at(s.drop_first(), x, k - 1);
        assert(seq![s[0]] + (s.drop_first().take(k - 1) + seq![x] + s.drop_first().skip(k - 1))
            =~= s.take(k) + seq![x] + s.skip(k));
    }
}

fn frees_more(a: u64, e: &BenchTarget) -> (r: bool)
    ensures
        r == (a as int > free_key(e@)),
{
    match e.available {
        Some(b) => a > b,
        None => true,
    }
}

fn picker_entries(mounts: &Vec<MountInfo>, temp_dir: &String) -> (r: Vec<BenchTarget>)
    ensures
        r@.map_values(|e: BenchTarget| e@) == sort_by_free(
            mounts_view(mounts@).map_values(|x: (Seq<char>, u64, u64)| mount_entry(x)),
        ).push((temp_dir@, None)),
{
    let ghost input = mounts_view(mounts@).map_values(|x: (Seq<char>, u64, u64)| mount_entry(x));
    let mut out: Vec<BenchTarget> = Vec::new();
    let mut i: usize = 0;
    while i < mounts.len()
        invariant
            i <= mounts@.len(),
            input == mounts_view(mounts@).map_values(|x: (Seq<char>, u64, u64)| mount_entry(x)),
            out@.map_values(|e: BenchTarget| e@) == sort_by_free(input.take(i as int)),
            forall|j: int| 0 <= j < out@.len() ==> (#[trigger] out@[j]).available is Some,
        decreases mounts@.len() - i,
    {
        let x = BenchTarget { path: mounts[i].mount_point.clone(), available: Some(mounts[i].available) };
        assert(input.take(i + 1).drop_last() == input.take(i as int));
        assert(input[i as int] == x@);
        let ghost s = out@.map_values(|e: BenchTarget| e@);
        let a = mounts[i].available;
        let mut k: usize = 0;
        while k < out.len() && !frees_more(a, &out[k])
            invariant
                k <= out@.len(),
                s == out@.map_values(|e: BenchTarget| e@),
                x@.1 == Some(a),
                forall|j: int| 0 <= j < out@.len() ==> (#[trigger] out@[j]).available is Some,
                forall|j: int| 0 <= j < k ==> !(free_key(x@) > free_key(#[trigger] s[j])),
            decreases out@.len() - k,
        {
            assert(s[k as int] == out@[k as int]@);
            k += 1;
        }
        proof {
            if k < out@.len() {
                assert(s[k as int] == out@[k as int]@);
            }
            lemma_insert_free_at(s, x@, k as int);
        }
        let ghost xv = x@;
        out.insert(k, x);
        assert(out@.map_values(|e: BenchTarget| e@) =~= s.take(k as int) + seq![xv] + s.skip(k as int));
        i += 1;
    }
    assert(input.take(mounts@.len() as int) == input);
    let ghost o = out@;
    out.push(BenchTarget { path: temp_dir.clone(), available: None });
    assert(out@.map_values(|e: BenchTarget| e@) =~= o.map_values(|e: BenchTarget| e@).push((temp_dir@, None)));
    out
}

fn first_proc_name_exec(all: &Vec<ProcRow>, pid: i32) -> (r: Option<String>)
    ensures
        opt_view(r) == first_proc_name(rows_view(all@), pid),
{
    let ghost av = rows_view(all@);
    let mut i: usize = 0;
    assert(av.skip(0) =~= av);
    while i < all.len()
        invariant
            i <= all@.len(),
            av == rows_view(all@),
            first_proc_name(av, pid) == first_proc_name(av.skip(i as int), pid),
        decreases all@.len() - i,
    {
        assert(av.skip(i as int)[0] == all@[i as int]@);
        assert(av.skip(i as int).drop_first() == av.skip(i + 1));
        if all[i].pid == pid {
            return Some(all[i].name.clone());
        }
        i += 1;
    }
    None
}


/// The interval between two snapshots in ns, at least 1 ms.
pub open spec fn interval_ns(prev: Snapshot, s: Snapshot) -> u64 {
    let d = sat_sub(s.taken_ns, prev.taken_ns);
    if d < 1000000 {
        1000000
    } else {
        d
    }
}

/// Per-core ticks of the interval, cores paired in order.
pub open spec fn core_ticks_m(cur: Seq<CpuTimes>, prev: Seq<CpuTimes>) -> Seq<CpuTicks> {
    Seq::new(
        if cur.len() < prev.len() {
            cur.len()
        } else {
            prev.len()
        },
        |i: int| ticks_between(prev[i], cur[i]),
    )
}

/// What a snapshot yields against the previous one: a cpu sample, per-core
/// ticks, net totals and per-interface rows, process and thread rows, disk
/// rows and the disk total, each history capped.
pub open spec fn deltas_m(m: AppModel, prev: Snapshot, s: Snapshot) -> AppModel {
    let dt = interval_ns(prev, s);
    let net = net_result(
        ifaces_view(s.net.interfaces@),
        ifaces_view(prev.net.interfaces@),
        m.net_hist,
        m.net_last_active,
        s.taken_ns,
        dt,
    );
    let dr = disk_result(disks_view(s.disks@), disks_view(prev.disks@), m.disk_last_active, s.taken_ns);
    AppModel {
        cpu_history: capped(m.cpu_history, ticks_between(prev.cpu.total, s.cpu.total)),
        core_ticks: core_ticks_m(s.cpu.per_core@, prev.cpu.per_core@),
        net_rx: capped(
            m.net_rx,
            RateSample { bytes: sat_sub(s.net.rx_bytes, prev.net.rx_bytes) as u128, dt_ns: dt },
        ),
        net_tx: capped(
            m.net_tx,
            RateSample { bytes: sat_sub(s.net.tx_bytes, prev.net.tx_bytes) as u128, dt_ns: dt },
        ),
        net_ifaces: net.rows,
        net_hist: net.hist,
        net_last_active: net.last,
        procs_all: proc_rows_spec(s.procs@, prev.procs@),
        threads_by_pid: thread_table(s.procs@, prev.procs@),
        disks: dr.rows,
        disk_last_active: dr.last,
        disk_io: capped(m.disk_io, RateSample { bytes: dr.total, dt_ns: dt }),
        dt_ns: dt,
        ..m
    }
}

/// A new snapshot: against the previous one (none the first time) it yields
/// the deltas and a re-derived process list; then the point-in-time figures
/// are taken over, the status line clears and the snapshot becomes the
/// previous one.
pub open spec fn apply_m(m: AppModel, s: Snapshot) -> AppModel {
    let m1 = match m.prev {
        Some(prev) => refilter_m(deltas_m(m, prev, s)),
        None => m,
    };
    AppModel {
        mem: s.mem,
        mounts: mounts_view(s.mounts@),
        cpu_name: opt_view(s.cpu_name),
        gpu_name: opt_view(s.gpu_name),
        uptime_secs: s.uptime_secs,
        net_rx_total: s.net.rx_bytes,
        net_tx_total: s.net.tx_bytes,
        status: None,
        prev: Some(s),
        ..m1
    }
}

/// What reaches the monitor.
pub enum AppEvent {
    Snapshot(Snapshot),
    Key(Key),
    CollectError(String),
    Bench(BenchStep),
    Smart(Vec<SmartInfo>),
    /// the input side lost the terminal: exit rather than run headless
    Quit,
}

/// An event: the new state, and the process to signal when a key confirmed
/// the kill prompt.
pub open spec fn event_m(m: AppModel, ev: AppEvent) -> (AppModel, Option<(i32, Seq<char>)>) {
    match ev {
        AppEvent::Snapshot(s) => (apply_m(m, s), None),
        AppEvent::Key(k) => key_m(m, k),
        AppEvent::CollectError(e) => (AppModel { status: Some(e@), ..m }, None),
        AppEvent::Bench(step) => (AppModel { bench: Some(bench_m(m.bench, step)), ..m }, None),
        AppEvent::Smart(v) => (AppModel { smart: smart_view_all(v@), ..m }, None),
        AppEvent::Quit => (AppModel { quit: true, ..m }, None),
    }
}

fn copy_name(o: &Option<String>) -> (r: Option<String>)
    ensures
        opt_view(r) == opt_view(*o),
{
    match o {
        Some(x) => Some(x.clone()),
        None => None,
    }
}

fn copy_mounts(v: &Vec<MountInfo>) -> (r: Vec<MountInfo>)
    ensures
        mounts_view(r@) == mounts_view(v@),
{
    let mut out: Vec<MountInfo> = Vec::new();
    let mut i: usize = 0;
    while i < v.len()
        invariant
            i <= v@.len(),
            out@.len() == i,
            forall|j: int| 0 <= j < i ==> (#[trigger] out@[j])@ == v@[j]@,
        decreases v@.len() - i,
    {
        out.push(v[i].dup());
        i += 1;
    }
    assert(mounts_view(out@) =~= mounts_view(v@));
    out
}

fn core_ticks_exec(cur: &Vec<CpuTimes>, prev: &Vec<CpuTimes>) -> (r: Vec<CpuTicks>)
    ensures
        r@ == core_ticks_m(cur@, prev@),
{
    let n = if cur.len() < prev.len() { cur.len() } else { prev.len() };
    let mut out: Vec<CpuTicks> = Vec::new();
    let mut i: usize = 0;
    while i < n
        invariant
            i <= n,
            n == (if cur@.len() < prev@.len() { cur@.len() } else { prev@.len() }),
            out@.len() == i,
            forall|j: int| 0 <= j < i ==> (#[trigger] out@[j]) == ticks_between(prev@[j], cur@[j]),
        decreases n - i,
    {
        out.push(cpu_ticks(prev[i], cur[i]));
        i += 1;
    }
    assert(out@ =~= core_ticks_m(cur@, prev@));
    out
}

impl App {
    /// The well-formedness the transitions keep.
    pub open spec fn wf(&self) -> bool {
        wf_m(self@)
    }

    /// A monitor that has seen nothing yet; `temp_dir` is the bench
    /// prompt's fallback entry.
    pub fn new(temp_dir: String) -> (r: App)
        ensures
            r.wf(),
            r@ == initial_m(temp_dir@),
    {
        proof {
            reveal(keys_unique);
        }
        let r = App {
            quit: false,
            cpu_history: VecDeque::new(),
            core_ticks: Vec::new(),
            mem: MemSnapshot { total: 0, used: 0, available: 0, swap_total: 0, swap_used: 0 },
            net_rx: VecDeque::new(),
            net_tx: VecDeque::new(),
            procs: Vec::new(),
            procs_all: Vec::new(),
            disk_io: VecDeque::new(),
            disks: Vec::new(),
            mounts: Vec::new(),
            selected: 0,
            selected_id: None,
            view_offset: 0,
            drag_scroll: false,
            show_idle: false,
            show_sys: false,
            refresh_ms: REFRESH_DEFAULT_MS,
            net_offset: 0,
            dsk_offset: 0,
            net_rows_cap: 0,
            dsk_rows_cap: 0,
            drag_net: false,
            drag_dsk: false,
            sort: SortBy::Cpu,
            status: None,
            bench: None,
            bench_target: None,
            picker: None,
            confirm_kill: None,
            filter: Vec::new(),
            filter_edit: false,
            show_threads: false,
            tree: false,
            threads_by_pid: Vec::new(),
            smart: Vec::new(),
            cpu_name: None,
            gpu_name: None,
            uptime_secs: None,
            net_ifaces: Vec::new(),
            net_hist: Vec::new(),
            net_last_active: Vec::new(),
            disk_last_active: Vec::new(),
            net_rx_total: 0,
            net_tx_total: 0,
            dt_ns: 0,
            temp_dir,
            prev: None,
        };
        assert(r@.cpu_history =~= seq![] && r@.net_rx =~= seq![] && r@.net_tx =~= seq![] && r@.disk_io =~= seq![]);
        assert(r@.core_ticks =~= seq![] && r@.procs =~= seq![] && r@.procs_all =~= seq![] && r@.disks =~= seq![]);
        assert(r@.mounts =~= seq![] && r@.filter =~= seq![] && r@.threads_by_pid =~= seq![] && r@.smart =~= seq![]);
        assert(r@.net_ifaces =~= seq![] && r@.net_hist =~= seq![] && r@.net_last_active =~= seq![]);
        assert(r@.disk_last_active =~= seq![]);
        r
    }

    /// Moves the highlight and remembers which row sits under it.
    pub fn select(&mut self, idx: usize)
        ensures
            final(self)@ == select_m(old(self)@, idx),
    {
        self.selected = idx;
        self.selected_id = if idx < self.procs.len() {
            Some((self.procs[idx].pid, self.procs[idx].tid))
        } else {
            None
        };
    }

    /// The first row the process panel shows for `visible` rows: clamped
    /// into the list, and moved only when the selection walks off the window.
    pub fn scroll_viewport(&mut self, visible: usize) -> (r: usize)
        ensures
            r == final(self).view_offset,
            final(self)@ == (AppModel { view_offset: r, ..old(self)@ }),
            ({
                let o = clamp_last(old(self).view_offset, old(self).procs@.len());
                r == (if old(self).selected < o {
                    old(self).selected
                } else if visible > 0 && old(self).selected >= o + visible {
                    (old(self).selected + 1 - visible) as usize
                } else {
                    o
                })
            }),
            visible > 0 ==> r <= old(self).selected < r + visible,
    {
        let n = self.procs.len();
        let last = if n == 0 { 0 } else { n - 1 };
        let mut off = if self.view_offset > last { last } else { self.view_offset };
        if self.selected < off {
            off = self.selected;
        } else if visible > 0 && self.selected - off >= visible {
            off = self.selected - (visible - 1);
        }
        self.view_offset = off;
        self.view_offset
    }

    /// After the list changed: keeps the highlight on its row (see `reanchor_m`).
    #[verifier::rlimit(40)]
    pub fn reanchor(&mut self)
        ensures
            final(self)@ == reanchor_m(old(self)@),
    {
        let n = self.procs.len();
        let found = if self.drag_scroll {
            None
        } else {
            match self.selected_id {
                Some(id) => find_row(&self.procs, id),
                None => None,
            }
        };
        proof {
            if let Some(id) = self.selected_id {
                lemma_index_of_id_bounds(rows_view(self.procs@), id);
            }
        }
        match found {
            Some(idx) => {
                let sel = self.selected;
                let off = self.view_offset;
                self.view_offset = if idx >= sel {
                    off.saturating_add(idx - sel)
                } else if off >= sel - idx {
                    off - (sel - idx)
                } else {
                    0
                };
                self.selected = idx;
            },
            None => {
                let s = if n == 0 {
                    0
                } else if self.selected >= n {
                    n - 1
                } else {
                    self.selected
                };
                self.selected = s;
                self.selected_id = if s < n {
                    Some((self.procs[s].pid, self.procs[s].tid))
                } else {
                    None
                };
            },
        }
    }

    fn sort_procs(&mut self)
        requires
            old(self).wf(),
        ensures
            final(self)@ == sort_procs_m(old(self)@),
    {
        let laid = arrange_exec(
            &self.procs,
            self.filter.len() == 0,
            self.sort,
            self.tree,
            self.show_threads,
            &self.threads_by_pid,
            Ghost(self.filter@),
        );
        self.procs = laid;
    }

    /// Re-sorts the list under the current settings, keeping the highlight
    /// on its row.
    pub fn resort(&mut self)
        requires
            old(self).wf(),
        ensures
            final(self)@ == reanchor_m(sort_procs_m(old(self)@)),
            final(self).wf(),
    {
        self.sort_procs();
        self.reanchor();
    }

    /// Re-derives the list from every process through the filter, lays it
    /// out and keeps the highlight on its row.
    #[verifier::rlimit(40)]
    pub fn refilter(&mut self)
        requires
            old(self).wf(),
        ensures
            final(self)@ == refilter_m(old(self)@),
            final(self).wf(),
    {
        let vis = visible_rows_exec(&self.procs_all, &self.filter);
        let laid = arrange_exec(
            &vis,
            self.filter.len() == 0,
            self.sort,
            self.tree,
            self.show_threads,
            &self.threads_by_pid,
            Ghost(self.filter@),
        );
        self.procs = laid;
        self.reanchor();
    }

    /// The bench prompt over the current mounts.
    fn open_bench_picker(&mut self)
        ensures
            final(self)@ == open_picker_m(old(self)@),
    {
        let entries = picker_entries(&self.mounts, &self.temp_dir);
        self.picker = Some(BenchPicker { entries, selected: 0 });
    }

    #[verifier::rlimit(40)]
    fn picker_key(&mut self, code: KeyCode)
        requires
            old(self).wf(),
            old(self).picker is Some,
        ensures
            final(self)@ == picker_key_m(old(self)@, old(self)@.picker->0, code),
            final(self).wf(),
    {
        let n = match &self.picker {
            Some(p) => p.entries.len(),
            None => 0,
        };
        let sel = match &self.picker {
            Some(p) => p.selected,
            None => 0,
        };
        match code {
            KeyCode::Up => {
                let mut p = self.picker.take().unwrap();
                p.selected = if sel > 0 { sel - 1 } else { 0 };
                self.picker = Some(p);
            },
            KeyCode::Down => {
                let mut p = self.picker.take().unwrap();
                p.selected = if n > 0 && sel < n - 1 {
                    sel + 1
                } else if n == 0 {
                    0
                } else if sel >= n {
                    n - 1
                } else {
                    sel
                };
                self.picker = Some(p);
            },
            KeyCode::Enter => {
                let p = self.picker.take().unwrap();
                let target = p.entries[sel].path.clone();
                self.bench = Some(BenchState { running: None, results: Vec::new(), error: None, direct: None });
                self.bench_target = Some(target);
            },
            KeyCode::Esc => {
                self.picker = None;
            },
            KeyCode::Char(c) => {
                if c == 'q' || c == 'b' {
                    self.picker = None;
                }
            },
            _ => {},
        }
    }

    #[verifier::rlimit(40)]
    fn filter_key(&mut self, code: KeyCode)
        requires
            old(self).wf(),
        ensures
            final(self)@ == filter_key_m(old(self)@, code),
            final(self).wf(),
    {
        match code {
            KeyCode::Enter => {
                self.filter_edit = false;
            },
            KeyCode::Esc => {
                self.filter_edit = false;
                self.filter = Vec::new();
                self.refilter();
            },
            KeyCode::Backspace => {
                let _ = self.filter.pop();
                self.refilter();
            },
            KeyCode::Char(c) => {
                self.filter.push(c);
                self.refilter();
            },
            _ => {},
        }
    }

    fn sort_key(&mut self, sort: SortBy)
        requires
            old(self).wf(),
        ensures
            final(self)@ == sort_key_m(old(self)@, sort),
            final(self).wf(),
    {
        self.sort = sort;
        self.resort();
    }

    fn bench_key(&mut self)
        ensures
            final(self)@ == bench_key_m(old(self)@),
    {
        let running = match &self.bench {
            Some(b) => b.error.is_none() && b.results.len() < 4,
            None => false,
        };
        if !running {
            self.open_bench_picker();
        }
    }

    fn kill_key(&mut self)
        ensures
            final(self)@ == kill_key_m(old(self)@),
    {
        if self.selected < self.procs.len() {
            let pid = self.procs[self.selected].pid;
            let name = if self.procs[self.selected].tid.is_some() {
                match first_proc_name_exec(&self.procs_all, pid) {
                    Some(n) => n,
                    None => self.procs[self.selected].name.clone(),
                }
            } else {
                self.procs[self.selected].name.clone()
            };
            self.confirm_kill = Some(KillPrompt { pid, name });
        }
    }

    fn toggle_threads(&mut self)
        requires
            old(self).wf(),
        ensures
            final(self)@ == refilter_m(AppModel { show_threads: !old(self)@.show_threads, ..old(self)@ }),
            final(self).wf(),
    {
        self.show_threads = !self.show_threads;
        self.refilter();
    }

    fn toggle_tree(&mut self)
        requires
            old(self).wf(),
        ensures
            final(self)@ == refilter_m(AppModel { tree: !old(self)@.tree, ..old(self)@ }),
            final(self).wf(),
    {
        self.tree = !self.tree;
        self.refilter();
    }

    #[verifier::rlimit(40)]
    fn char_key(&mut self, c: char)
        requires
            old(self).wf(),
        ensures
            final(self)@ == char_key_m(old(self)@, c).0,
            char_key_m(old(self)@, c).1 is None,
            final(self).wf(),
    {
        if c == 'q' {
            self.quit = true;
        } else if c == 'f' || c == '/' {
            self.filter_edit = true;
        } else if c == 'c' {
            self.sort_key(SortBy::Cpu);
        } else if c == 'm' {
            self.sort_key(SortBy::Mem);
        } else if c == 'i' {
            self.sort_key(SortBy::Io);
        } else if c == 'n' {
            self.sort_key(SortBy::Name);
        } else if c == 't' {
            self.toggle_threads();
        } else if c == 'e' {
            self.toggle_tree();
        } else if c == 'h' {
            self.show_idle = !self.show_idle;
        } else if c == 's' {
            self.show_sys = !self.show_sys;
        } else if c == '+' {
            self.refresh_ms = faster(self.refresh_ms);
        } else if c == '-' {
            self.refresh_ms = slower(self.refresh_ms);
        } else if c == 'b' {
            self.bench_key();
        } else if c == 'k' {
            self.kill_key();
        }
    }

    #[verifier::rlimit(40)]
    fn main_key(&mut self, code: KeyCode) -> (r: Option<KillPrompt>)
        requires
            old(self).wf(),
        ensures
            (final(self)@, prompt_view(r)) == main_key_m(old(self)@, code),
            final(self).wf(),
    {
        match code {
            KeyCode::Char(c) => {
                self.char_key(c);
                None
            },
            KeyCode::Esc => {
                if self.show_sys {
                    self.show_sys = false;
                } else if self.filter.len() == 0 {
                    self.quit = true;
                } else {
                    self.filter = Vec::new();
                    self.refilter();
                }
                None
            },
            KeyCode::Up => {
                let s = if self.selected > 0 { self.selected - 1 } else { 0 };
                self.select(s);
                None
            },
            KeyCode::Down => {
                let n = self.procs.len();
                let sel = self.selected;
                let s = if n > 0 && sel < n - 1 {
                    sel + 1
                } else if n == 0 {
                    0
                } else if sel >= n {
                    n - 1
                } else {
                    sel
                };
                self.select(s);
                None
            },
            _ => None,
        }
    }

    /// A key press (see `key_m`); returns the process to signal when the
    /// kill prompt was confirmed.
    #[verifier::rlimit(40)]
    pub fn on_key(&mut self, k: Key) -> (r: Option<KillPrompt>)
        requires
            old(self).wf(),
        ensures
            (final(self)@, prompt_view(r)) == key_m(old(self)@, k),
            final(self).wf(),
    {
        if k.ctrl && k.code == KeyCode::Char('c') {
            self.quit = true;
            return None;
        }
        if self.picker.is_some() {
            self.picker_key(k.code);
            return None;
        }
        if self.confirm_kill.is_some() {
            let kp = self.confirm_kill.take();
            if k.code == KeyCode::Enter || k.code == KeyCode::Char('y') {
                return kp;
            }
            return None;
        }
        if self.filter_edit {
            self.filter_key(k.code);
            return None;
        }
        self.main_key(k.code)
    }

    /// A failed signal surfaces on the status line.
    pub fn kill_failed(&mut self, kp: &KillPrompt, err: &str)
        ensures
            final(self)@ == (AppModel {
                status: Some(kill_failed_msg(kp.name@, kp.pid, err@)),
                ..old(self)@
            }),
    {
        let msg = concat_chars(
            &concat_chars(
                &concat_chars(
                    &concat_chars(&concat_chars(&vec!['k', 'i', 'l', 'l', ' '], &to_chars(kp.name.as_str())), &vec![' ', '(']),
                    &i32_decimal_exec(kp.pid),
                ),
                &vec![')', ' ', 'f', 'a', 'i', 'l', 'e', 'd', ':', ' '],
            ),
            &to_chars(err),
        );
        self.status = Some(string_from_chars(&msg));
    }

    /// A benchmark step.
    pub fn on_bench(&mut self, step: BenchStep)
        ensures
            final(self)@ == (AppModel { bench: Some(bench_m(old(self)@.bench, step)), ..old(self)@ }),
    {
        let mut st = match self.bench.take() {
            Some(b) => b,
            None => BenchState { running: None, results: Vec::new(), error: None, direct: None },
        };
        match step {
            BenchStep::Progress(k) => {
                st.running = Some(k);
            },
            BenchStep::TestDone(k) => {
                st.results.push(k);
            },
            BenchStep::Finished(d) => {
                st.running = None;
                st.direct = Some(d);
            },
            BenchStep::Error(e) => {
                st.running = None;
                st.error = Some(e);
            },
        }
        self.bench = Some(st);
    }

    /// A fresh SMART reading replaces the last one.
    pub fn on_smart(&mut self, v: Vec<SmartInfo>)
        ensures
            final(self)@ == (AppModel { smart: smart_view_all(v@), ..old(self)@ }),
    {
        self.smart = v;
    }

    /// A collection pass failed: its message goes on the status line.
    pub fn on_collect_error(&mut self, e: String)
        ensures
            final(self)@ == (AppModel { status: Some(e@), ..old(self)@ }),
    {
        self.status = Some(e);
    }

    /// The interface rows the `h` toggle lets through, in panel order.
    pub fn visible_net(&self) -> (r: Vec<&NetRow>)
        ensures
            r@.map_values(|x: &NetRow| x@) == shown_nets(self@.net_ifaces, self.show_idle),
    {
        let ghost rv = self@.net_ifaces;
        let mut out: Vec<&NetRow> = Vec::new();
        let mut i: usize = 0;
        while i < self.net_ifaces.len()
            invariant
                i <= self.net_ifaces@.len(),
                rv == net_rows_view(self.net_ifaces@),
                out@.map_values(|x: &NetRow| x@) == shown_nets(rv.take(i as int), self.show_idle),
            decreases self.net_ifaces@.len() - i,
        {
            assert(rv.take(i + 1).drop_last() == rv.take(i as int));
            assert(rv.take(i + 1).last() == self.net_ifaces@[i as int]@);
            let r = &self.net_ifaces[i];
            if self.show_idle || r.idle_ns <= IDLE_HIDE_NS {
                let ghost o = out@;
                out.push(r);
                assert(out@.map_values(|x: &NetRow| x@) =~= o.map_values(|x: &NetRow| x@).push(r@));
            }
            i += 1;
        }
        assert(rv.take(self.net_ifaces@.len() as int) == rv);
        out
    }

    /// The disk rows the `h` toggle lets through, in panel order.
    pub fn visible_disks(&self) -> (r: Vec<&DiskRow>)
        ensures
            r@.map_values(|x: &DiskRow| x@) == shown_disks(self@.disks, self.show_idle),
    {
        let ghost rv = self@.disks;
        let mut out: Vec<&DiskRow> = Vec::new();
        let mut i: usize = 0;
        while i < self.disks.len()
            invariant
                i <= self.disks@.len(),
                rv == disk_rows_view(self.disks@),
                out@.map_values(|x: &DiskRow| x@) == shown_disks(rv.take(i as int), self.show_idle),
            decreases self.disks@.len() - i,
        {
            assert(rv.take(i + 1).drop_last() == rv.take(i as int));
            assert(rv.take(i + 1).last() == self.disks@[i as int]@);
            let r = &self.disks[i];
            if self.show_idle || r.idle_ns <= IDLE_HIDE_NS {
                let ghost o = out@;
                out.push(r);
                assert(out@.map_values(|x: &DiskRow| x@) =~= o.map_values(|x: &DiskRow| x@).push(r@));
            }
            i += 1;
        }
        assert(rv.take(self.disks@.len() as int) == rv);
        out
    }

    #[verifier::rlimit(60)]
    fn apply_deltas(&mut self, s: &Snapshot)
        requires
            old(self).wf(),
            old(self).prev is Some,
        ensures
            final(self)@ == refilter_m(deltas_m(old(self)@, old(self).prev->0, *s)),
            final(self).wf(),
    {
        let ghost m0 = self@;
        proof {
            reveal(keys_unique);
        }
        let prev = self.prev.take().unwrap();
        let d = s.taken_ns.saturating_sub(prev.taken_ns);
        let dt: u64 = if d < 1000000 { 1000000 } else { d };
        proof {
            lemma_net_result_unique(
                ifaces_view(s.net.interfaces@),
                ifaces_view(prev.net.interfaces@),
                m0.net_hist,
                m0.net_last_active,
                s.taken_ns,
                dt,
            );
            lemma_disk_result_unique(disks_view(s.disks@), disks_view(prev.disks@), m0.disk_last_active, s.taken_ns);
            lemma_thread_table_unique(s.procs@, prev.procs@);
        }
        push_capped(&mut self.cpu_history, cpu_ticks(prev.cpu.total, s.cpu.total));
        self.core_ticks = core_ticks_exec(&s.cpu.per_core, &prev.cpu.per_core);
        push_capped(
            &mut self.net_rx,
            RateSample { bytes: s.net.rx_bytes.saturating_sub(prev.net.rx_bytes) as u128, dt_ns: dt },
        );
        push_capped(
            &mut self.net_tx,
            RateSample { bytes: s.net.tx_bytes.saturating_sub(prev.net.tx_bytes) as u128, dt_ns: dt },
        );
        self.net_ifaces = net_rows(
            &s.net.interfaces,
            &prev.net.interfaces,
            &mut self.net_hist,
            &mut self.net_last_active,
            s.taken_ns,
            dt,
        );
        self.procs_all = proc_rows(&s.procs, &prev.procs);
        self.threads_by_pid = thread_table_exec(&s.procs, &prev.procs);
        let (rows, total) = disk_rows(&s.disks, &prev.disks, &mut self.disk_last_active, s.taken_ns);
        self.disks = rows;
        push_capped(&mut self.disk_io, RateSample { bytes: total, dt_ns: dt });
        self.dt_ns = dt;
        self.prev = Some(prev);
        self.refilter();
    }

    fn take_over(&mut self, s: Snapshot)
        ensures
            final(self)@ == (AppModel {
                mem: s.mem,
                mounts: mounts_view(s.mounts@),
                cpu_name: opt_view(s.cpu_name),
                gpu_name: opt_view(s.gpu_name),
                uptime_secs: s.uptime_secs,
                net_rx_total: s.net.rx_bytes,
                net_tx_total: s.net.tx_bytes,
                status: None,
                prev: Some(s),
                ..old(self)@
            }),
    {
        self.mem = s.mem;
        self.mounts = copy_mounts(&s.mounts);
        self.cpu_name = copy_name(&s.cpu_name);
        self.gpu_name = copy_name(&s.gpu_name);
        self.uptime_secs = s.uptime_secs;
        self.net_rx_total = s.net.rx_bytes;
        self.net_tx_total = s.net.tx_bytes;
        self.status = None;
        self.prev = Some(s);
    }

    /// A new snapshot (see `apply_m`).
    #[verifier::rlimit(40)]
    pub fn apply(&mut self, s: Snapshot)
        requires
            old(self).wf(),
        ensures
            final(self)@ == apply_m(old(self)@, s),
            final(self).wf(),
    {
        if self.prev.is_some() {
            self.apply_deltas(&s);
        }
        self.take_over(s);
    }

    /// An event (see `event_m`); returns the process to signal when a key
    /// confirmed the kill prompt.
    #[verifier::rlimit(40)]
    pub fn on_event(&mut self, ev: AppEvent) -> (r: Option<KillPrompt>)
        requires
            old(self).wf(),
        ensures
            (final(self)@, prompt_view(r)) == event_m(old(self)@, ev),
            final(self).wf(),
    {
        match ev {
            AppEvent::Snapshot(s) => {
                self.apply(s);
                None
            },
            AppEvent::Key(k) => self.on_key(k),
            AppEvent::CollectError(e) => {
                self.on_collect_error(e);
                None
            },
            AppEvent::Bench(step) => {
                self.on_bench(step);
                None
            },
            AppEvent::Smart(v) => {
                self.on_smart(v);
                None
            },
            AppEvent::Quit => {
                self.quit = true;
                None
            },
        }
    }
}


proof fn lemma_procs_only_sub(s: Seq<RowModel>)
    ensures
        forall|i: int| 0 <= i < procs_only(s).len() ==> s.contains(#[trigger] procs_only(s)[i]),
    decreases s.len(),
{
    if s.len() > 0 {
        lemma_procs_only_sub(s.drop_last());
        let r = procs_only(s.drop_last());
        let f = procs_only(s);
        assert forall|i: int| 0 <= i < f.len() implies s.contains(#[trigger] f[i]) by {
            if i < r.len() {
                assert(f[i] == r[i]);
                let j = choose|j: int| 0 <= j < s.drop_last().len() && s.drop_last()[j] == r[i];
                assert(s[j] == r[i]);
            } else {
                assert(f[i] == s.last());
                assert(s[s.len() - 1] == s.last());
            }
        }
    }
}

proof fn lemma_procs_only_len(s: Seq<RowModel>)
    ensures
        procs_only(s).len() <= s.len(),
    decreases s.len(),
{
    if s.len() > 0 {
        lemma_procs_only_len(s.drop_last());
    }
}

proof fn lemma_procs_only_has(s: Seq<RowModel>, i: int)
    requires
        0 <= i < s.len(),
        s[i].tid is None,
    ensures
        procs_only(s).contains(s[i]),
    decreases s.len(),
{
    if i < s.len() - 1 {
        assert(s.drop_last()[i] == s[i]);
        lemma_procs_only_has(s.drop_last(), i);
        let r = procs_only(s.drop_last());
        let j = choose|j: int| 0 <= j < r.len() && r[j] == s[i];
        if s.last().tid is None {
            assert(procs_only(s)[j] == r[j]);
        }
    } else {
        assert(procs_only(s)[procs_only(s).len() - 1] == s[i]);
    }
}

proof fn lemma_sorted_contains(sort: SortBy, s: Seq<RowModel>, x: RowModel)
    ensures
        sort_rows(sort, false, s).contains(x) <==> s.contains(x),
{
    broadcast use vstd::seq_lib::group_to_multiset_ensures;

    lemma_sort_rows_perm(sort, false, s);
    assert(sort_rows(sort, false, s).to_multiset().count(x) == s.to_multiset().count(x));
}

/// With a filter typed, every process row the list shows matches it: its
/// lowercased name or its pid's digits contain the lowercased filter.
/// (Thread rows only appear under a shown process.)
pub proof fn law_filter_shows_only_matches(m: AppModel)
    requires
        wf_m(m),
        m.filter.len() > 0,
    ensures
        forall|i: int|
            0 <= i < refilter_m(m).procs.len() && (#[trigger] refilter_m(m).procs[i]).tid is None
                ==> row_matches(refilter_m(m).procs[i], lowercase(m.filter)),
{
    let needle = lowercase(m.filter);
    let fr = filter_rows(m.procs_all, needle);
    let parents = sort_rows(m.sort, false, procs_only(fr));
    let out = refilter_m(m).procs;
    lemma_filter_rows_match(m.procs_all, needle);
    lemma_procs_only_sub(fr);
    assert(visible_rows(m.procs_all, m.filter) == fr);
    assert forall|i: int| 0 <= i < out.len() && (#[trigger] out[i]).tid is None implies row_matches(
        out[i],
        needle,
    ) by {
        let x = out[i];
        if m.show_threads {
            lemma_weave_procs(m.sort, parents, m.threads_by_pid);
            assert(out == weave(m.sort, parents, m.threads_by_pid));
        } else {
            assert(out == parents);
            assert(parents.contains(x));
        }
        assert(parents.contains(x));
        lemma_sorted_contains(m.sort, procs_only(fr), x);
        let j = choose|j: int| 0 <= j < procs_only(fr).len() && procs_only(fr)[j] == x;
        assert(fr.contains(procs_only(fr)[j]));
        let k = choose|k: int| 0 <= k < fr.len() && fr[k] == x;
        assert(row_matches(fr[k], needle));
    }
}

/// When the list changes under the highlight and its row is still listed,
/// the highlight stays on that row, and on the same screen line whenever
/// the viewport can follow (it cannot start above the first row).
pub proof fn law_highlight_follows_row(m: AppModel, id: (i32, Option<u64>), i: int)
    requires
        !m.drag_scroll,
        m.selected_id == Some(id),
        0 <= i < m.procs.len(),
        row_id(m.procs[i]) == id,
        m.procs.len() <= usize::MAX,
    ensures
        reanchor_m(m).selected < m.procs.len(),
        row_id(m.procs[reanchor_m(m).selected as int]) == id,
        reanchor_m(m).selected_id == Some(id),
        reanchor_m(m).procs == m.procs,
        0 <= m.view_offset + reanchor_m(m).selected - m.selected <= usize::MAX ==> reanchor_m(
            m,
        ).selected - reanchor_m(m).view_offset == m.selected - m.view_offset,
{
    lemma_index_of_id_found(m.procs, id, i);
    lemma_index_of_id_bounds(m.procs, id);
}

/// A sort key on the flat list keeps the highlight on the process it was on.
pub proof fn law_sort_keeps_highlight(m: AppModel, sort: SortBy, pid: i32, i: int)
    requires
        !m.drag_scroll,
        !m.tree,
        !m.show_threads,
        m.selected_id == Some((pid, None::<u64>)),
        0 <= i < m.procs.len(),
        row_id(m.procs[i]) == (pid, None::<u64>),
        m.procs.len() <= usize::MAX,
    ensures
        ({
            let r = sort_key_m(m, sort);
            &&& r.selected < r.procs.len()
            &&& row_id(r.procs[r.selected as int]) == (pid, None::<u64>)
            &&& r.sort == sort
        }),
{
    let m1 = AppModel { sort, ..m };
    let s = sort_procs_m(m1);
    lemma_procs_only_has(m.procs, i);
    lemma_sorted_contains(sort, procs_only(m.procs), m.procs[i]);
    assert(s.procs == sort_rows(sort, false, procs_only(m.procs)));
    let j = choose|j: int| 0 <= j < s.procs.len() && s.procs[j] == m.procs[i];
    assert(s.procs.len() <= usize::MAX) by {
        broadcast use vstd::seq_lib::group_to_multiset_ensures;

        lemma_sort_rows_perm(sort, false, procs_only(m.procs));
        lemma_procs_only_len(m.procs);
        assert(s.procs.to_multiset().len() == procs_only(m.procs).to_multiset().len());
    }
    law_highlight_follows_row(s, (pid, None::<u64>), j);
}

/// A row idle no longer than the grace period.
pub open spec fn not_idle(idle_ns: u64) -> bool {
    idle_ns <= IDLE_HIDE_NS
}

proof fn lemma_shown_nets(nets: Seq<NetRowModel>)
    ensures
        shown_nets(nets, false) == nets.filter(|r: NetRowModel| not_idle(r.idle_ns)),
        shown_nets(nets, true) == nets,
    decreases nets.len(),
{
    reveal(Seq::filter);
    if nets.len() > 0 {
        lemma_shown_nets(nets.drop_last());
        assert(nets.drop_last().push(nets.last()) == nets);
    }
}

proof fn lemma_shown_disks(disks: Seq<DiskRowModel>)
    ensures
        shown_disks(disks, false) == disks.filter(|r: DiskRowModel| not_idle(r.idle_ns)),
        shown_disks(disks, true) == disks,
    decreases disks.len(),
{
    reveal(Seq::filter);
    if disks.len() > 0 {
        lemma_shown_disks(disks.drop_last());
        assert(disks.drop_last().push(disks.last()) == disks);
    }
}

/// Interface and disk rows hide once idle past the grace period and show
/// while they see traffic: with idle rows hidden, exactly the rows idle no
/// longer than `IDLE_HIDE_NS` show, in their order; `h` shows every row.
pub proof fn law_idle_rows_hide_and_h_reveals(nets: Seq<NetRowModel>, disks: Seq<DiskRowModel>)
    ensures
        shown_nets(nets, false) == nets.filter(|r: NetRowModel| not_idle(r.idle_ns)),
        shown_nets(nets, true) == nets,
        shown_disks(disks, false) == disks.filter(|r: DiskRowModel| not_idle(r.idle_ns)),
        shown_disks(disks, true) == disks,
{
    lemma_shown_nets(nets);
    lemma_shown_disks(disks);
}

/// The highlight sits on a row of the list, or on the first place when
/// the list is empty.
pub open spec fn on_list(m: AppModel) -> bool {
    if m.procs.len() == 0 {
        m.selected == 0
    } else {
        m.selected < m.procs.len()
    }
}

proof fn lemma_reanchor_on_list(m: AppModel)
    ensures
        on_list(reanchor_m(m)),
{
    match m.selected_id {
        Some(id) => lemma_index_of_id_bounds(m.procs, id),
        None => {},
    }
}

proof fn lemma_refilter_on_list(x: AppModel)
    ensures
        on_list(refilter_m(x)),
{
    lemma_reanchor_on_list(
        AppModel {
            procs: arrange(
                visible_rows(x.procs_all, x.filter),
                x.filter,
                x.sort,
                x.tree,
                x.show_threads,
                x.threads_by_pid,
            ),
            ..x
        },
    );
}

proof fn lemma_apply_on_list(m: AppModel, s: Snapshot)
    requires
        on_list(m),
    ensures
        on_list(apply_m(m, s)),
{
    if let Some(prev) = m.prev {
        lemma_refilter_on_list(deltas_m(m, prev, s));
    }
}

proof fn lemma_filter_key_on_list(m: AppModel, code: KeyCode)
    requires
        on_list(m),
    ensures
        on_list(filter_key_m(m, code)),
{
    match code {
        KeyCode::Esc => lemma_refilter_on_list(AppModel { filter_edit: false, filter: seq![], ..m }),
        KeyCode::Backspace => lemma_refilter_on_list(
            AppModel {
                filter: if m.filter.len() > 0 {
                    m.filter.drop_last()
                } else {
                    m.filter
                },
                ..m
            },
        ),
        KeyCode::Char(c) => lemma_refilter_on_list(AppModel { filter: m.filter.push(c), ..m }),
        _ => {},
    }
}

proof fn lemma_char_key_on_list(m: AppModel, c: char)
    requires
        on_list(m),
    ensures
        on_list(char_key_m(m, c).0),
{
    if c == 'c' {
        lemma_reanchor_on_list(sort_procs_m(AppModel { sort: SortBy::Cpu, ..m }));
    } else if c == 'm' {
        lemma_reanchor_on_list(sort_procs_m(AppModel { sort: SortBy::Mem, ..m }));
    } else if c == 'i' {
        lemma_reanchor_on_list(sort_procs_m(AppModel { sort: SortBy::Io, ..m }));
    } else if c == 'n' {
        lemma_reanchor_on_list(sort_procs_m(AppModel { sort: SortBy::Name, ..m }));
    } else if c == 't' {
        lemma_refilter_on_list(AppModel { show_threads: !m.show_threads, ..m });
    } else if c == 'e' {
        lemma_refilter_on_list(AppModel { tree: !m.tree, ..m });
    }
}

proof fn lemma_key_on_list(m: AppModel, k: Key)
    requires
        on_list(m),
    ensures
        on_list(key_m(m, k).0),
{
    if !(k.ctrl && k.code == KeyCode::Char('c')) && m.picker is None && m.confirm_kill is None {
        if m.filter_edit {
            lemma_filter_key_on_list(m, k.code);
        } else {
            match k.code {
                KeyCode::Char(c) => lemma_char_key_on_list(m, c),
                KeyCode::Esc => lemma_refilter_on_list(AppModel { filter: seq![], ..m }),
                _ => {},
            }
        }
    }
}

/// Whatever reaches the monitor, the highlight stays on the list: every
/// transition that changes the list re-anchors or clamps the highlight,
/// and the arrow keys stop at the ends.
pub proof fn law_highlight_stays_on_the_list(m: AppModel, ev: AppEvent)
    requires
        on_list(m),
    ensures
        on_list(event_m(m, ev).0),
{
    match ev {
        AppEvent::Snapshot(s) => lemma_apply_on_list(m, s),
        AppEvent::Key(k) => lemma_key_on_list(m, k),
        _ => {},
    }
}

/// The four histories' sample counts.
pub open spec fn hist_lens(m: AppModel) -> (nat, nat, nat, nat) {
    (m.cpu_history.len(), m.net_rx.len(), m.net_tx.len(), m.disk_io.len())
}

/// One more sample in a history of `n` capped at HISTORY.
pub open spec fn grown(n: nat, k: nat) -> nat {
    if n + k > HISTORY { HISTORY as nat } else { n + k }
}

/// Each snapshot applied against the one before it gives every history one
/// sample on the back, the oldest leaving the front exactly when the
/// history was full; the first snapshot only becomes the previous one.
pub proof fn law_apply_caps_histories(m: AppModel, s: Snapshot)
    requires
        m.cpu_history.len() <= HISTORY,
        m.net_rx.len() <= HISTORY,
        m.net_tx.len() <= HISTORY,
        m.disk_io.len() <= HISTORY,
    ensures
        apply_m(m, s).prev == Some(s),
        match m.prev {
            Some(prev) => {
                let dt = interval_ns(prev, s);
                &&& apply_m(m, s).cpu_history == capped(m.cpu_history, ticks_between(prev.cpu.total, s.cpu.total))
                &&& apply_m(m, s).net_rx == capped(
                    m.net_rx,
                    RateSample { bytes: sat_sub(s.net.rx_bytes, prev.net.rx_bytes) as u128, dt_ns: dt },
                )
                &&& apply_m(m, s).net_tx == capped(
                    m.net_tx,
                    RateSample { bytes: sat_sub(s.net.tx_bytes, prev.net.tx_bytes) as u128, dt_ns: dt },
                )
                &&& apply_m(m, s).disk_io == capped(
                    m.disk_io,
                    RateSample {
                        bytes: disk_result(disks_view(s.disks@), disks_view(prev.disks@), m.disk_last_active, s.taken_ns).total,
                        dt_ns: dt,
                    },
                )
            },
            None => hist_lens(apply_m(m, s)) == hist_lens(m) && apply_m(m, s).cpu_history == m.cpu_history,
        },
        hist_lens(apply_m(m, s)) == (match m.prev {
            Some(_) => (
                grown(m.cpu_history.len(), 1),
                grown(m.net_rx.len(), 1),
                grown(m.net_tx.len(), 1),
                grown(m.disk_io.len(), 1),
            ),
            None => hist_lens(m),
        }),
{
    if let Some(prev) = m.prev {
        let d = deltas_m(m, prev, s);
        let r = refilter_m(d);
        assert(r.cpu_history == d.cpu_history && r.net_rx == d.net_rx && r.net_tx == d.net_tx && r.disk_io
            == d.disk_io);
        law_capped_history(m.cpu_history, ticks_between(prev.cpu.total, s.cpu.total));
        law_capped_history(m.net_rx, d.net_rx.last());
        law_capped_history(m.net_tx, d.net_tx.last());
        law_capped_history(m.disk_io, d.disk_io.last());
    }
}

/// Snapshots applied one after another.
pub open spec fn apply_all(m: AppModel, ss: Seq<Snapshot>) -> AppModel
    decreases ss.len(),
{
    if ss.len() == 0 {
        m
    } else {
        apply_m(apply_all(m, ss.drop_last()), ss.last())
    }
}

/// However many snapshots arrive, no history holds more than HISTORY
/// samples: each grows by one per snapshot that had one before it, up to
/// HISTORY (so 730 snapshots into a fresh monitor leave 720 samples).
pub proof fn law_histories_stay_capped(m: AppModel, ss: Seq<Snapshot>)
    requires
        m.cpu_history.len() <= HISTORY,
        m.net_rx.len() <= HISTORY,
        m.net_tx.len() <= HISTORY,
        m.disk_io.len() <= HISTORY,
    ensures
        ({
            let k: nat = if m.prev is Some { ss.len() } else if ss.len() > 0 { (ss.len() - 1) as nat } else { 0 };
            hist_lens(apply_all(m, ss)) == (
                grown(m.cpu_history.len(), k),
                grown(m.net_rx.len(), k),
                grown(m.net_tx.len(), k),
                grown(m.disk_io.len(), k),
            )
        }),
        ss.len() > 0 ==> apply_all(m, ss).prev is Some,
    decreases ss.len(),
{
    if ss.len() > 0 {
        law_histories_stay_capped(m, ss.drop_last());
        law_apply_caps_histories(apply_all(m, ss.drop_last()), ss.last());
    }
}

/// With no prompt open and no filter being typed, `c`, `m`, `i` and `n`
/// sort the list by cpu, memory, io and name, `q` quits, and none of them
/// signals a process or touches the filter.
#[verifier::spinoff_prover]
#[verifier::rlimit(100)]
pub proof fn law_letter_keys(m: AppModel)
    requires
        m.picker is None,
        m.confirm_kill is None,
        !m.filter_edit,
    ensures
        key_m(m, Key { code: KeyCode::Char('c'), ctrl: false }).0.sort == SortBy::Cpu,
        key_m(m, Key { code: KeyCode::Char('m'), ctrl: false }).0.sort == SortBy::Mem,
        key_m(m, Key { code: KeyCode::Char('i'), ctrl: false }).0.sort == SortBy::Io,
        key_m(m, Key { code: KeyCode::Char('n'), ctrl: false }).0.sort == SortBy::Name,
        key_m(m, Key { code: KeyCode::Char('q'), ctrl: false }).0.quit,
        forall|c: char|
            c == 'c' || c == 'm' || c == 'i' || c == 'n' || c == 'q' ==> (#[trigger] key_m(
                m,
                Key { code: KeyCode::Char(c), ctrl: false },
            )).1 is None && key_m(m, Key { code: KeyCode::Char(c), ctrl: false }).0.filter == m.filter,
{
    let kc = Key { code: KeyCode::Char('c'), ctrl: false };
    let km = Key { code: KeyCode::Char('m'), ctrl: false };
    let ki = Key { code: KeyCode::Char('i'), ctrl: false };
    let kn = Key { code: KeyCode::Char('n'), ctrl: false };
    let kq = Key { code: KeyCode::Char('q'), ctrl: false };
    assert(key_m(m, kc) == char_key_m(m, 'c'));
    assert(key_m(m, km) == char_key_m(m, 'm'));
    assert(key_m(m, ki) == char_key_m(m, 'i'));
    assert(key_m(m, kn) == char_key_m(m, 'n'));
    assert(key_m(m, kq) == char_key_m(m, 'q'));
    lemma_sort_key_sets(m, SortBy::Cpu);
    lemma_sort_key_sets(m, SortBy::Mem);
    lemma_sort_key_sets(m, SortBy::Io);
    lemma_sort_key_sets(m, SortBy::Name);
}

/// A sort key sets the order and leaves the filter as it was.
proof fn lemma_sort_key_sets(m: AppModel, sort: SortBy)
    ensures
        sort_key_m(m, sort).sort == sort,
        sort_key_m(m, sort).filter == m.filter,
{
    let n = sort_procs_m(AppModel { sort, ..m });
    assert(n.sort == sort && n.filter == m.filter);
}

/// A key signals a process only when it confirms the open kill prompt (enter
/// or `y`), and then it signals exactly the prompt's process; any other key
/// but Ctrl+C backs out of the prompt without a signal. Ctrl+C quits from
/// anywhere and never signals.
#[verifier::spinoff_prover]
#[verifier::rlimit(100)]
pub proof fn law_only_a_confirmed_kill_signals(m: AppModel, k: Key)
    ensures
        key_m(m, k).1 is Some ==> m.confirm_kill is Some && key_m(m, k).1 == m.confirm_kill && (
        k.code == KeyCode::Enter || k.code == KeyCode::Char('y')),
        m.picker is None && m.confirm_kill is Some && !(k.ctrl && k.code == KeyCode::Char('c')) ==> {
            &&& key_m(m, k).0.confirm_kill is None
            &&& (k.code == KeyCode::Enter || k.code == KeyCode::Char('y') <==> key_m(m, k).1 is Some)
        },
        k.ctrl && k.code == KeyCode::Char('c') ==> key_m(m, k).0.quit && key_m(m, k).1 is None,
{
    if k.ctrl && k.code == KeyCode::Char('c') {
    } else if m.picker is Some {
        assert(key_m(m, k).1 is None);
    } else if m.confirm_kill is Some {
    } else if m.filter_edit {
        assert(key_m(m, k).1 is None);
    } else {
        lemma_main_key_no_signal(m, k.code);
        assert(key_m(m, k) == main_key_m(m, k.code));
    }
}

/// Outside the prompts no key signals a process.
proof fn lemma_main_key_no_signal(m: AppModel, code: KeyCode)
    ensures
        main_key_m(m, code).1 is None,
{
    match code {
        KeyCode::Char(c) => {
            assert(char_key_m(m, c).1 is None);
        },
        _ => {},
    }
}

} // verus!
