//! What a new snapshot yields against the previous one: per-process and
//! per-thread cpu and io deltas, per-interface and per-disk byte deltas,
//! capped histories, and the idle clocks behind the `h` toggle.

use vstd::prelude::*;
use std::collections::VecDeque;
use crate::collect::{DiskStats, DiskStatsModel, NetIface, ProcessInfo, ThreadInfo, sat_sub, wadd};
use crate::monitor::{ProcRow, RowModel, rows_view, tb_view, tb_threads_only, all_thread_rows};
use crate::text::{concat_chars, decimal, string_from_chars, u64_decimal};

verus! {

/// Samples a history keeps; braille packs two per column, so 720 fill a
/// 360-column terminal.
pub const HISTORY: usize = 720;

/// A net/dsk row idle longer than this (5 s) stops rendering unless `h` shows it.
pub const IDLE_HIDE_NS: u64 = 5000000000;

/// How far back a never-active device is born (6 s), so that it starts hidden.
pub const BORN_IDLE_NS: u64 = 6000000000;

/// `q` with `v` appended, the oldest sample dropped once it holds more than
/// HISTORY.
pub open spec fn capped<T>(q: Seq<T>, v: T) -> Seq<T> {
    if q.len() + 1 > HISTORY {
        q.push(v).drop_first()
    } else {
        q.push(v)
    }
}

/// Appends a sample, dropping the oldest past HISTORY.
pub fn push_capped<T>(hist: &mut VecDeque<T>, v: T)
    ensures
        final(hist)@ == capped(old(hist)@, v),
        old(hist)@.len() <= HISTORY ==> final(hist)@.len() <= HISTORY,
        final(hist)@.last() == v,
{
    hist.push_back(v);
    if hist.len() > HISTORY {
        let _ = hist.pop_front();
    }
}

/// Bytes moved over an interval of `dt_ns` nanoseconds; the rate is their
/// quotient.
#[derive(Debug, Clone, Copy, PartialEq, Eq, Structural)]
pub struct RateSample {
    pub bytes: u128,
    pub dt_ns: u64,
}

/// The last process of `prev` with this pid (later entries win).
pub open spec fn last_proc(prev: Seq<ProcessInfo>, pid: i32) -> Option<ProcessInfo>
    decreases prev.len(),
{
    if prev.len() == 0 {
        None
    } else if prev.last().pid == pid {
        Some(prev.last())
    } else {
        last_proc(prev.drop_last(), pid)
    }
}

fn last_proc_exec(prev: &Vec<ProcessInfo>, pid: i32) -> (r: Option<usize>)
    ensures
        match r {
            Some(k) => k < prev@.len() && last_proc(prev@, pid) == Some(prev@[k as int]),
            None => last_proc(prev@, pid) is None,
        },
{
    let mut i: usize = prev.len();
    assert(prev@.take(prev@.len() as int) == prev@);
    while i > 0
        invariant
            i <= prev@.len(),
            last_proc(prev@, pid) == last_proc(prev@.take(i as int), pid),
        decreases i,
    {
        assert(prev@.take(i as int).last() == prev@[i - 1]);
        assert(prev@.take(i as int).drop_last() == prev@.take(i - 1));
        if prev[i - 1].pid == pid {
            return Some(i - 1);
        }
        i -= 1;
    }
    None
}

/// Block-layer bytes read plus written between two readings of a process,
/// when all four counters are known.
pub open spec fn io_delta(p: ProcessInfo, q: ProcessInfo) -> Option<u64> {
    match (p.disk_read, q.disk_read, p.disk_written, q.disk_written) {
        (Some(cr), Some(pr), Some(cw), Some(pw)) => Some(wadd(sat_sub(cr, pr), sat_sub(cw, pw))),
        _ => None,
    }
}

fn io_delta_exec(p: &ProcessInfo, q: &ProcessInfo) -> (r: Option<u64>)
    ensures
        r == io_delta(*p, *q),
{
    match (p.disk_read, q.disk_read, p.disk_written, q.disk_written) {
        (Some(cr), Some(pr), Some(cw), Some(pw)) => Some(
            cr.saturating_sub(pr).wrapping_add(cw.saturating_sub(pw)),
        ),
        _ => None,
    }
}

/// The list row of a process: its cpu time and io since the previous
/// reading of the same pid; a pid unseen last time gets 0 cpu and no io.
pub open spec fn proc_row(p: ProcessInfo, prev: Seq<ProcessInfo>) -> RowModel {
    let q = last_proc(prev, p.pid);
    RowModel {
        pid: p.pid,
        ppid: p.ppid,
        name: p.name@,
        cpu_ns: match q {
            Some(q) => sat_sub(p.cpu_ns, q.cpu_ns),
            None => 0,
        },
        rss: p.rss,
        io_bytes: match q {
            Some(q) => io_delta(p, q),
            None => None,
        },
        tid: None,
        prefix: seq![],
    }
}

pub open spec fn proc_rows_spec(cur: Seq<ProcessInfo>, prev: Seq<ProcessInfo>) -> Seq<RowModel> {
    Seq::new(cur.len(), |i: int| proc_row(cur[i], prev))
}

/// One process row per process of the new snapshot, in its order.
pub fn proc_rows(cur: &Vec<ProcessInfo>, prev: &Vec<ProcessInfo>) -> (r: Vec<ProcRow>)
    ensures
        rows_view(r@) == proc_rows_spec(cur@, prev@),
{
    let mut out: Vec<ProcRow> = Vec::new();
    let mut i: usize = 0;
    while i < cur.len()
        invariant
            i <= cur@.len(),
            out@.len() == i,
            forall|j: int| 0 <= j < i ==> (#[trigger] out@[j])@ == proc_row(cur@[j], prev@),
        decreases cur@.len() - i,
    {
        let p = &cur[i];
        let (cpu, io) = match last_proc_exec(prev, p.pid) {
            Some(k) => {
                let q = &prev[k];
                (p.cpu_ns.saturating_sub(q.cpu_ns), io_delta_exec(p, q))
            },
            None => (0, None),
        };
        let row = ProcRow {
            pid: p.pid,
            ppid: p.ppid,
            name: p.name.clone(),
            cpu_ns: cpu,
            rss: p.rss,
            io_bytes: io,
            tid: None,
            prefix: String::new(),
        };
        assert(row@ == proc_row(cur@[i as int], prev@));
        out.push(row);
        i += 1;
    }
    assert(rows_view(out@) =~= proc_rows_spec(cur@, prev@));
    out
}

/// The cpu time of the last thread with this tid.
pub open spec fn last_thread_ns(ts: Seq<ThreadInfo>, tid: u64) -> Option<u64>
    decreases ts.len(),
{
    if ts.len() == 0 {
        None
    } else if ts.last().tid == tid {
        Some(ts.last().cpu_ns)
    } else {
        last_thread_ns(ts.drop_last(), tid)
    }
}

/// The previous cpu time of thread (pid, tid): tids are only unique within
/// a process, so the key is the pair; later readings win.
pub open spec fn prev_thread_ns(prev: Seq<ProcessInfo>, pid: i32, tid: u64) -> Option<u64>
    decreases prev.len(),
{
    if prev.len() == 0 {
        None
    } else {
        let p = prev.last();
        let here = if p.pid == pid {
            last_thread_ns(p.threads@, tid)
        } else {
            None
        };
        if here is Some {
            here
        } else {
            prev_thread_ns(prev.drop_last(), pid, tid)
        }
    }
}

fn last_thread_ns_exec(ts: &Vec<ThreadInfo>, tid: u64) -> (r: Option<u64>)
    ensures
        r == last_thread_ns(ts@, tid),
{
    let mut i: usize = ts.len();
    assert(ts@.take(ts@.len() as int) == ts@);
    while i > 0
        invariant
            i <= ts@.len(),
            last_thread_ns(ts@, tid) == last_thread_ns(ts@.take(i as int), tid),
        decreases i,
    {
        assert(ts@.take(i as int).last() == ts@[i - 1]);
        assert(ts@.take(i as int).drop_last() == ts@.take(i - 1));
        if ts[i - 1].tid == tid {
            return Some(ts[i - 1].cpu_ns);
        }
        i -= 1;
    }
    None
}

fn prev_thread_ns_exec(prev: &Vec<ProcessInfo>, pid: i32, tid: u64) -> (r: Option<u64>)
    ensures
        r == prev_thread_ns(prev@, pid, tid),
{
    let mut i: usize = prev.len();
    assert(prev@.take(prev@.len() as int) == prev@);
    while i > 0
        invariant
            i <= prev@.len(),
            prev_thread_ns(prev@, pid, tid) == prev_thread_ns(prev@.take(i as int), pid, tid),
        decreases i,
    {
        assert(prev@.take(i as int).last() == prev@[i - 1]);
        assert(prev@.take(i as int).drop_last() == prev@.take(i - 1));
        if prev[i - 1].pid == pid {
            let here = last_thread_ns_exec(&prev[i - 1].threads, tid);
            if here.is_some() {
                return here;
            }
        }
        i -= 1;
    }
    None
}

/// A thread's label: its name, or `tid N` when it has none.
pub open spec fn thread_label(t: ThreadInfo) -> Seq<char> {
    if t.name@.len() == 0 {
        seq!['t', 'i', 'd', ' '] + decimal(t.tid as nat)
    } else {
        t.name@
    }
}

/// The list row of a thread of process `pid`: it belongs to that process
/// tree-wise, and its cpu time is the delta since the same (pid, tid).
pub open spec fn thread_row(pid: i32, t: ThreadInfo, prev: Seq<ProcessInfo>) -> RowModel {
    RowModel {
        pid,
        ppid: pid,
        name: thread_label(t),
        cpu_ns: match prev_thread_ns(prev, pid, t.tid) {
            Some(q) => sat_sub(t.cpu_ns, q),
            None => 0,
        },
        rss: 0,
        io_bytes: None,
        tid: Some(t.tid),
        prefix: seq![],
    }
}

pub open spec fn thread_rows_of(p: ProcessInfo, prev: Seq<ProcessInfo>) -> Seq<RowModel> {
    Seq::new(p.threads@.len(), |j: int| thread_row(p.pid, p.threads@[j], prev))
}

/// The index of the entry for `pid`, or -1.
pub open spec fn find_pid(tb: Seq<(i32, Seq<RowModel>)>, pid: i32) -> int
    decreases tb.len(),
{
    if tb.len() == 0 {
        -1
    } else if tb.last().0 == pid {
        tb.len() - 1
    } else {
        find_pid(tb.drop_last(), pid)
    }
}

proof fn lemma_find_pid(tb: Seq<(i32, Seq<RowModel>)>, pid: i32)
    ensures
        -1 <= find_pid(tb, pid) < tb.len(),
        find_pid(tb, pid) >= 0 ==> tb[find_pid(tb, pid)].0 == pid,
        find_pid(tb, pid) < 0 ==> forall|j: int| 0 <= j < tb.len() ==> (#[trigger] tb[j]).0 != pid,
    decreases tb.len(),
{
    if tb.len() > 0 && tb.last().0 != pid {
        lemma_find_pid(tb.drop_last(), pid);
        if find_pid(tb, pid) < 0 {
            assert forall|j: int| 0 <= j < tb.len() implies (#[trigger] tb[j]).0 != pid by {
                if j < tb.len() - 1 {
                    assert(tb[j] == tb.drop_last()[j]);
                }
            }
        }
    }
}

proof fn lemma_find_pid_last(tb: Seq<(i32, Seq<RowModel>)>, pid: i32, t: int)
    requires
        0 <= t < tb.len(),
        tb[t].0 == pid,
        forall|u: int| t < u < tb.len() ==> (#[trigger] tb[u]).0 != pid,
    ensures
        find_pid(tb, pid) == t,
    decreases tb.len(),
{
    if t < tb.len() - 1 {
        assert forall|u: int| t < u < tb.drop_last().len() implies (#[trigger] tb.drop_last()[u]).0 != pid by {
            assert(tb.drop_last()[u] == tb[u]);
        }
        lemma_find_pid_last(tb.drop_last(), pid, t);
    }
}

/// Each pid has at most one entry.
pub open spec fn pids_unique(tb: Seq<(i32, Seq<RowModel>)>) -> bool {
    forall|i: int, j: int| 0 <= i < j < tb.len() ==> (#[trigger] tb[i]).0 != (#[trigger] tb[j]).0
}

/// Thread rows keyed by owning pid, for each process that reported threads;
/// a pid listed twice keeps the rows of its later listing.
pub open spec fn thread_table(cur: Seq<ProcessInfo>, prev: Seq<ProcessInfo>) -> Seq<
    (i32, Seq<RowModel>),
>
    decreases cur.len(),
{
    if cur.len() == 0 {
        seq![]
    } else {
        let rest = thread_table(cur.drop_last(), prev);
        let p = cur.last();
        if p.threads@.len() == 0 {
            rest
        } else {
            let k = find_pid(rest, p.pid);
            if k >= 0 {
                rest.update(k, (p.pid, thread_rows_of(p, prev)))
            } else {
                rest.push((p.pid, thread_rows_of(p, prev)))
            }
        }
    }
}

pub proof fn lemma_thread_table_unique(cur: Seq<ProcessInfo>, prev: Seq<ProcessInfo>)
    ensures
        pids_unique(thread_table(cur, prev)),
    decreases cur.len(),
{
    if cur.len() > 0 {
        lemma_thread_table_unique(cur.drop_last(), prev);
        let rest = thread_table(cur.drop_last(), prev);
        lemma_find_pid(rest, cur.last().pid);
    }
}

fn thread_rows_exec(p: &ProcessInfo, prev: &Vec<ProcessInfo>) -> (r: Vec<ProcRow>)
    ensures
        rows_view(r@) == thread_rows_of(*p, prev@),
        all_thread_rows(rows_view(r@)),
{
    let mut out: Vec<ProcRow> = Vec::new();
    let mut j: usize = 0;
    while j < p.threads.len()
        invariant
            j <= p.threads@.len(),
            out@.len() == j,
            forall|t: int| 0 <= t < j ==> (#[trigger] out@[t])@ == thread_row(p.pid, p.threads@[t], prev@),
        decreases p.threads@.len() - j,
    {
        let t = &p.threads[j];
        let name = if t.name.as_str().is_empty() {
            string_from_chars(&concat_chars(&vec!['t', 'i', 'd', ' '], &u64_decimal(t.tid)))
        } else {
            t.name.clone()
        };
        let cpu = match prev_thread_ns_exec(prev, p.pid, t.tid) {
            Some(q) => t.cpu_ns.saturating_sub(q),
            None => 0,
        };
        let row = ProcRow {
            pid: p.pid,
            ppid: p.pid,
            name,
            cpu_ns: cpu,
            rss: 0,
            io_bytes: None,
            tid: Some(t.tid),
            prefix: String::new(),
        };
        assert(row@ == thread_row(p.pid, p.threads@[j as int], prev@));
        out.push(row);
        j += 1;
    }
    assert(rows_view(out@) =~= thread_rows_of(*p, prev@));
    out
}

/// The thread rows of every process that reported threads, keyed by pid.
pub fn thread_table_exec(cur: &Vec<ProcessInfo>, prev: &Vec<ProcessInfo>) -> (r: Vec<
    (i32, Vec<ProcRow>),
>)
    ensures
        tb_view(r@) == thread_table(cur@, prev@),
        tb_threads_only(tb_view(r@)),
{
    let mut out: Vec<(i32, Vec<ProcRow>)> = Vec::new();
    let mut i: usize = 0;
    while i < cur.len()
        invariant
            i <= cur@.len(),
            tb_view(out@) == thread_table(cur@.take(i as int), prev@),
            tb_threads_only(tb_view(out@)),
        decreases cur@.len() - i,
    {
        assert(cur@.take(i + 1).drop_last() == cur@.take(i as int));
        assert(cur@.take(i + 1).last() == cur@[i as int]);
        let p = &cur[i];
        if p.threads.len() > 0 {
            let rows = thread_rows_exec(p, prev);
            let ghost before = out@;
            proof {
                lemma_find_pid(tb_view(before), p.pid);
            }
            let mut k: usize = out.len();
            let mut j: usize = out.len();
            while j > 0
                invariant
                    j <= out.len(),
                    k <= out.len(),
                    out@ == before,
                    k == out.len() ==> forall|t: int| j <= t < out.len() ==> (#[trigger] out@[t]).0 != p.pid,
                    k < out.len() ==> k == find_pid(tb_view(before), p.pid),
                decreases j,
            {
                if k == out.len() && out[j - 1].0 == p.pid {
                    proof {
                        lemma_find_pid_last(tb_view(before), p.pid, j - 1);
                    }
                    k = j - 1;
                }
                j -= 1;
            }
            if k < out.len() {
                out.set(k, (p.pid, rows));
                assert(tb_view(out@) =~= tb_view(before).update(k as int, (cur@[i as int].pid, rows_view(rows@))));
            } else {
                assert forall|t: int| 0 <= t < before.len() implies (#[trigger] tb_view(before)[t]).0 != p.pid by {
                    assert(tb_view(before)[t].0 == out@[t].0);
                }
                out.push((p.pid, rows));
                assert(tb_view(out@) =~= tb_view(before).push((cur@[i as int].pid, rows_view(rows@))));
            }
            assert forall|t: int| 0 <= t < tb_view(out@).len() implies all_thread_rows(
                #[trigger] tb_view(out@)[t].1,
            ) by {
                if t < before.len() && t != k {
                    assert(tb_view(out@)[t] == tb_view(before)[t]);
                }
            }
        }
        i += 1;
    }
    assert(cur@.take(cur@.len() as int) == cur@);
    out
}


/// The index of the first entry named `name`, or -1.
pub open spec fn find_name<V>(m: Seq<(Seq<char>, V)>, name: Seq<char>) -> int
    decreases m.len(),
{
    if m.len() == 0 {
        -1
    } else if m[0].0 == name {
        0
    } else {
        let r = find_name(m.drop_first(), name);
        if r < 0 {
            -1
        } else {
            r + 1
        }
    }
}

pub proof fn lemma_find_name<V>(m: Seq<(Seq<char>, V)>, name: Seq<char>)
    ensures
        -1 <= find_name(m, name) < m.len(),
        find_name(m, name) == -1 <==> forall|j: int| 0 <= j < m.len() ==> (#[trigger] m[j]).0 != name,
        find_name(m, name) >= 0 ==> m[find_name(m, name)].0 == name,
        forall|j: int| 0 <= j < find_name(m, name) ==> (#[trigger] m[j]).0 != name,
    decreases m.len(),
{
    if m.len() > 0 {
        lemma_find_name(m.drop_first(), name);
        assert forall|j: int| 1 <= j < m.len() implies m[j] == #[trigger] m.drop_first()[j - 1] by {}
        if m[0].0 != name && find_name(m.drop_first(), name) == -1 {
            assert forall|j: int| 0 <= j < m.len() implies (#[trigger] m[j]).0 != name by {
                if j > 0 {
                    assert(m[j] == m.drop_first()[j - 1]);
                }
            }
        }
        if find_name(m, name) == -1 {
            assert(m[0].0 != name);
        }
        assert forall|j: int| 0 <= j < find_name(m, name) implies (#[trigger] m[j]).0 != name by {
            if j > 0 {
                assert(m[j] == m.drop_first()[j - 1]);
            }
        }
    }
}

/// The idle clocks: (name, instant in ns it last moved a byte).
pub open spec fn last_view(v: Seq<(String, u64)>) -> Seq<(Seq<char>, u64)> {
    v.map_values(|e: (String, u64)| (e.0@, e.1))
}

pub open spec fn born_at(now: u64) -> u64 {
    if now >= BORN_IDLE_NS {
        (now - BORN_IDLE_NS) as u64
    } else {
        now
    }
}

/// When `name` last moved a byte after this reading: now when it moved,
/// else its recorded instant; a device met for the first time is born now
/// if it ever moved a byte, else past the grace period so it starts hidden.
pub open spec fn touch_ts(
    m: Seq<(Seq<char>, u64)>,
    name: Seq<char>,
    now: u64,
    active: bool,
    ever: bool,
) -> u64 {
    let k = find_name(m, name);
    if active {
        now
    } else if k >= 0 {
        m[k].1
    } else if ever {
        now
    } else {
        born_at(now)
    }
}

/// The clocks with `name` set to `ts`, appended when new.
pub open spec fn touch_map(m: Seq<(Seq<char>, u64)>, name: Seq<char>, ts: u64) -> Seq<
    (Seq<char>, u64),
> {
    let k = find_name(m, name);
    if k >= 0 {
        m.update(k, (name, ts))
    } else {
        m.push((name, ts))
    }
}

fn find_clock(m: &Vec<(String, u64)>, name: &String) -> (r: Option<usize>)
    ensures
        match r {
            Some(k) => find_name(last_view(m@), name@) == k,
            None => find_name(last_view(m@), name@) == -1,
        },
{
    let ghost mv = last_view(m@);
    proof {
        lemma_find_name(mv, name@);
    }
    let mut i: usize = 0;
    while i < m.len()
        invariant
            i <= m@.len(),
            mv == last_view(m@),
            -1 <= find_name(mv, name@) < mv.len(),
            find_name(mv, name@) == -1 || find_name(mv, name@) >= i,
            find_name(mv, name@) >= 0 ==> mv[find_name(mv, name@)].0 == name@,
            forall|j: int| 0 <= j < find_name(mv, name@) ==> (#[trigger] mv[j]).0 != name@,
            find_name(mv, name@) == -1 <==> forall|j: int| 0 <= j < mv.len() ==> (#[trigger] mv[j]).0 != name@,
        decreases m@.len() - i,
    {
        assert(mv[i as int] == (m@[i as int].0@, m@[i as int].1));
        if m[i].0 == *name {
            return Some(i);
        }
        i += 1;
    }
    None
}

/// Records this reading of `name` on its idle clock and returns how long,
/// in ns, it has now been idle.
pub fn touch(m: &mut Vec<(String, u64)>, name: &String, now: u64, active: bool, ever: bool) -> (idle:
    u64)
    ensures
        last_view(final(m)@) == touch_map(
            last_view(old(m)@),
            name@,
            touch_ts(last_view(old(m)@), name@, now, active, ever),
        ),
        idle == sat_sub(now, touch_ts(last_view(old(m)@), name@, now, active, ever)),
{
    let ghost mv = last_view(m@);
    proof {
        lemma_find_name(mv, name@);
    }
    let found = find_clock(m, name);
    let ts = if active {
        now
    } else {
        match found {
            Some(k) => m[k].1,
            None => if ever {
                now
            } else if now >= BORN_IDLE_NS {
                now - BORN_IDLE_NS
            } else {
                now
            },
        }
    };
    proof {
        if let Some(k) = found {
            assert(mv[k as int] == (m@[k as int].0@, m@[k as int].1));
        }
    }
    match found {
        Some(k) => {
            m.set(k, (name.clone(), ts));
            assert(last_view(m@) =~= mv.update(k as int, (name@, ts)));
        },
        None => {
            m.push((name.clone(), ts));
            assert(last_view(m@) =~= mv.push((name@, ts)));
        },
    }
    now.saturating_sub(ts)
}

/// The rate histories of one interface.
pub struct IfaceHistory {
    pub name: String,
    pub rx: VecDeque<RateSample>,
    pub tx: VecDeque<RateSample>,
}

impl View for IfaceHistory {
    type V = (Seq<char>, (Seq<RateSample>, Seq<RateSample>));

    open spec fn view(&self) -> (Seq<char>, (Seq<RateSample>, Seq<RateSample>)) {
        (self.name@, (self.rx@, self.tx@))
    }
}

pub open spec fn hists_view(v: Seq<IfaceHistory>) -> Seq<(Seq<char>, (Seq<RateSample>, Seq<RateSample>))> {
    v.map_values(|h: IfaceHistory| h@)
}

/// The histories with one sample pair appended to `name`'s (created empty
/// when new).
pub open spec fn hist_push(
    h: Seq<(Seq<char>, (Seq<RateSample>, Seq<RateSample>))>,
    name: Seq<char>,
    rx: RateSample,
    tx: RateSample,
) -> Seq<(Seq<char>, (Seq<RateSample>, Seq<RateSample>))> {
    let k = find_name(h, name);
    if k >= 0 {
        h.update(k, (name, (capped(h[k].1.0, rx), capped(h[k].1.1, tx))))
    } else {
        h.push((name, (capped(seq![], rx), capped(seq![], tx))))
    }
}

fn find_hist(h: &Vec<IfaceHistory>, name: &String) -> (r: Option<usize>)
    ensures
        match r {
            Some(k) => find_name(hists_view(h@), name@) == k,
            None => find_name(hists_view(h@), name@) == -1,
        },
{
    let ghost hv = hists_view(h@);
    proof {
        lemma_find_name(hv, name@);
    }
    let mut i: usize = 0;
    while i < h.len()
        invariant
            i <= h@.len(),
            hv == hists_view(h@),
            -1 <= find_name(hv, name@) < hv.len(),
            find_name(hv, name@) == -1 || find_name(hv, name@) >= i,
            find_name(hv, name@) >= 0 ==> hv[find_name(hv, name@)].0 == name@,
            forall|j: int| 0 <= j < find_name(hv, name@) ==> (#[trigger] hv[j]).0 != name@,
            find_name(hv, name@) == -1 <==> forall|j: int| 0 <= j < hv.len() ==> (#[trigger] hv[j]).0 != name@,
        decreases h@.len() - i,
    {
        assert(hv[i as int] == h@[i as int]@);
        if h[i].name == *name {
            return Some(i);
        }
        i += 1;
    }
    None
}

fn hist_push_exec(h: &mut Vec<IfaceHistory>, name: &String, rx: RateSample, tx: RateSample)
    ensures
        hists_view(final(h)@) == hist_push(hists_view(old(h)@), name@, rx, tx),
{
    let ghost hv = hists_view(h@);
    proof {
        lemma_find_name(hv, name@);
    }
    match find_hist(h, name) {
        Some(k) => {
            let mut e = h.remove(k);
            assert(e@ == hv[k as int]);
            push_capped(&mut e.rx, rx);
            push_capped(&mut e.tx, tx);
            e.name = name.clone();
            h.insert(k, e);
            assert(hists_view(h@) =~= hv.update(k as int, (name@, (capped(hv[k as int].1.0, rx), capped(hv[k as int].1.1, tx)))));
        },
        None => {
            let mut rq: VecDeque<RateSample> = VecDeque::new();
            let mut tq: VecDeque<RateSample> = VecDeque::new();
            push_capped(&mut rq, rx);
            push_capped(&mut tq, tx);
            h.push(IfaceHistory { name: name.clone(), rx: rq, tx: tq });
            assert(hists_view(h@) =~= hv.push((name@, (capped(seq![], rx), capped(seq![], tx)))));
        },
    }
}

/// Entries whose name is among `names`, in order.
pub open spec fn keep_named<V>(h: Seq<(Seq<char>, V)>, names: Seq<Seq<char>>) -> Seq<(Seq<char>, V)>
    decreases h.len(),
{
    if h.len() == 0 {
        seq![]
    } else {
        let r = keep_named(h.drop_last(), names);
        if names.contains(h.last().0) {
            r.push(h.last())
        } else {
            r
        }
    }
}

pub open spec fn ifaces_view(v: Seq<NetIface>) -> Seq<(Seq<char>, u64, u64)> {
    v.map_values(|i: NetIface| i@)
}

pub open spec fn iface_names(v: Seq<(Seq<char>, u64, u64)>) -> Seq<Seq<char>> {
    v.map_values(|i: (Seq<char>, u64, u64)| i.0)
}

fn iface_named(cur: &Vec<NetIface>, name: &String) -> (r: bool)
    ensures
        r == iface_names(ifaces_view(cur@)).contains(name@),
{
    let ghost ns = iface_names(ifaces_view(cur@));
    let mut i: usize = 0;
    while i < cur.len()
        invariant
            i <= cur@.len(),
            ns == iface_names(ifaces_view(cur@)),
            forall|j: int| 0 <= j < i ==> ns[j] != name@,
        decreases cur@.len() - i,
    {
        assert(ns[i as int] == cur@[i as int].name@);
        if cur[i].name == *name {
            assert(ns[i as int] == name@);
            return true;
        }
        i += 1;
    }
    false
}

fn prune_hists(h: &mut Vec<IfaceHistory>, cur: &Vec<NetIface>)
    ensures
        hists_view(final(h)@) == keep_named(hists_view(old(h)@), iface_names(ifaces_view(cur@))),
{
    let ghost hv = hists_view(h@);
    let ghost ns = iface_names(ifaces_view(cur@));
    let mut out: Vec<IfaceHistory> = Vec::new();
    let n = h.len();
    let mut i: usize = 0;
    while i < n
        invariant
            i <= n == hv.len(),
            hists_view(h@) == hv.skip(i as int),
            hists_view(out@) == keep_named(hv.take(i as int), ns),
            ns == iface_names(ifaces_view(cur@)),
        decreases n - i,
    {
        let ghost before = h@;
        assert(h@.len() == hists_view(h@).len());
        let e = h.remove(0);
        assert(hists_view(before)[0] == before[0]@);
        assert(hv.skip(i as int)[0] == hv[i as int]);
        assert(e@ == hv[i as int]);
        assert forall|j: int| 0 <= j < h@.len() implies #[trigger] hists_view(h@)[j] == hv.skip(i + 1)[j] by {
            assert(h@[j] == before[j + 1]);
            assert(hists_view(before)[j + 1] == hv.skip(i as int)[j + 1]);
        }
        assert(hists_view(h@) =~= hv.skip(i + 1));
        assert(hv.take(i + 1).drop_last() == hv.take(i as int));
        assert(hv.take(i + 1).last() == hv[i as int]);
        if iface_named(cur, &e.name) {
            let ghost o = out@;
            out.push(e);
            assert(hists_view(out@) =~= hists_view(o).push(hv[i as int]));
        }
        i += 1;
    }
    assert(hv.take(n as int) == hv);
    *h = out;
}

fn prune_clocks_by(m: &mut Vec<(String, u64)>, names: &Vec<String>)
    ensures
        last_view(final(m)@) == keep_named(last_view(old(m)@), names@.map_values(|s: String| s@)),
{
    let ghost mv = last_view(m@);
    let ghost ns = names@.map_values(|s: String| s@);
    let mut out: Vec<(String, u64)> = Vec::new();
    let n = m.len();
    let mut i: usize = 0;
    while i < n
        invariant
            i <= n == mv.len(),
            last_view(m@) == mv.skip(i as int),
            last_view(out@) == keep_named(mv.take(i as int), ns),
            ns == names@.map_values(|s: String| s@),
        decreases n - i,
    {
        let ghost before = m@;
        assert(m@.len() == last_view(m@).len());
        let e = m.remove(0);
        assert(last_view(before)[0] == (before[0].0@, before[0].1));
        assert(mv.skip(i as int)[0] == mv[i as int]);
        assert((e.0@, e.1) == mv[i as int]);
        assert forall|j: int| 0 <= j < m@.len() implies #[trigger] last_view(m@)[j] == mv.skip(i + 1)[j] by {
            assert(m@[j] == before[j + 1]);
            assert(last_view(before)[j + 1] == mv.skip(i as int)[j + 1]);
        }
        assert(last_view(m@) =~= mv.skip(i + 1));
        assert(mv.take(i + 1).drop_last() == mv.take(i as int));
        assert(mv.take(i + 1).last() == mv[i as int]);
        let mut found = false;
        let mut j: usize = 0;
        while j < names.len()
            invariant
                j <= names@.len(),
                ns == names@.map_values(|s: String| s@),
                found == exists|t: int| 0 <= t < j && ns[t] == e.0@,
            decreases names@.len() - j,
        {
            assert(ns[j as int] == names@[j as int]@);
            if names[j] == e.0 {
                found = true;
            }
            j += 1;
        }
        assert(found == ns.contains(e.0@));
        if found {
            let ghost o = out@;
            out.push(e);
            assert(last_view(out@) =~= last_view(o).push(mv[i as int]));
        }
        i += 1;
    }
    assert(mv.take(n as int) == mv);
    *m = out;
}

/// How much an interface has moved in its lifetime: the list key.
pub open spec fn traffic(i: (Seq<char>, u64, u64)) -> int {
    i.1 as int + i.2 as int
}

/// `x` inserted before the first interface with strictly less traffic.
pub open spec fn insert_iface(s: Seq<(Seq<char>, u64, u64)>, x: (Seq<char>, u64, u64)) -> Seq<
    (Seq<char>, u64, u64),
>
    decreases s.len(),
{
    if s.len() == 0 {
        seq![x]
    } else if traffic(x) > traffic(s[0]) {
        seq![x] + s
    } else {
        seq![s[0]] + insert_iface(s.drop_first(), x)
    }
}

/// The interfaces busiest first, ties in reported order (a stable sort).
pub open spec fn sort_ifaces(s: Seq<(Seq<char>, u64, u64)>) -> Seq<(Seq<char>, u64, u64)>
    decreases s.len(),
{
    if s.len() == 0 {
        seq![]
    } else {
        insert_iface(sort_ifaces(s.drop_last()), s.last())
    }
}

proof fn lemma_insert_iface_at(s: Seq<(Seq<char>, u64, u64)>, x: (Seq<char>, u64, u64), k: int)
    requires
        0 <= k <= s.len(),
        forall|j: int| 0 <= j < k ==> !(traffic(x) > traffic(#[trigger] s[j])),
        k < s.len() ==> traffic(x) > traffic(s[k]),
    ensures
        insert_iface(s, x) == s.take(k) + seq![x] + s.skip(k),
    decreases k,
{
    if s.len() == 0 {
        assert(s.take(k) + seq![x] + s.skip(k) =~= seq![x]);
    } else if k == 0 {
        assert(s.take(0) + seq![x] + s.skip(0) =~= seq![x] + s);
    } else {
        assert forall|j: int| 0 <= j < k - 1 implies !(traffic(x) > traffic(
            #[trigger] s.drop_first()[j],
        )) by {
            assert(s.drop_first()[j] == s[j + 1]);
        }
        lemma_insert_iface_at(s.drop_first(), x, k - 1);
        assert(seq![s[0]] + (s.drop_first().take(k - 1) + seq![x] + s.drop_first().skip(k - 1))
            =~= s.take(k) + seq![x] + s.skip(k));
    }
}

fn sort_ifaces_exec(v: &Vec<NetIface>) -> (r: Vec<NetIface>)
    ensures
        ifaces_view(r@) == sort_ifaces(ifaces_view(v@)),
{
    let ghost input = ifaces_view(v@);
    let mut out: Vec<NetIface> = Vec::new();
    let mut i: usize = 0;
    while i < v.len()
        invariant
            i <= v@.len(),
            input == ifaces_view(v@),
            ifaces_view(out@) == sort_ifaces(input.take(i as int)),
        decreases v@.len() - i,
    {
        let x = v[i].dup();
        assert(input.take(i + 1).drop_last() == input.take(i as int));
        assert(input[i as int] == x@);
        let ghost s = ifaces_view(out@);
        let kx: u128 = x.rx_bytes as u128 + x.tx_bytes as u128;
        let mut k: usize = 0;
        while k < out.len() && !(kx > out[k].rx_bytes as u128 + out[k].tx_bytes as u128)
            invariant
                k <= out@.len(),
                s == ifaces_view(out@),
                kx == traffic(x@),
                forall|j: int| 0 <= j < k ==> !(traffic(x@) > traffic(#[trigger] s[j])),
            decreases out@.len() - k,
        {
            assert(s[k as int] == out@[k as int]@);
            k += 1;
        }
        proof {
            if k < out@.len() {
                assert(s[k as int] == out@[k as int]@);
            }
            lemma_insert_iface_at(s, x@, k as int);
        }
        out.insert(k, x);
        assert(ifaces_view(out@) =~= s.take(k as int) + seq![x@] + s.skip(k as int));
        i += 1;
    }
    assert(input.take(v@.len() as int) == input);
    out
}

/// The last interface of the previous reading with this name.
pub open spec fn last_iface(prev: Seq<(Seq<char>, u64, u64)>, name: Seq<char>) -> Option<
    (Seq<char>, u64, u64),
>
    decreases prev.len(),
{
    if prev.len() == 0 {
        None
    } else if prev.last().0 == name {
        Some(prev.last())
    } else {
        last_iface(prev.drop_last(), name)
    }
}

fn last_iface_exec(prev: &Vec<NetIface>, name: &String) -> (r: Option<usize>)
    ensures
        match r {
            Some(k) => k < prev@.len() && last_iface(ifaces_view(prev@), name@) == Some(prev@[k as int]@),
            None => last_iface(ifaces_view(prev@), name@) is None,
        },
{
    let ghost pv = ifaces_view(prev@);
    let mut i: usize = prev.len();
    assert(pv.take(pv.len() as int) == pv);
    while i > 0
        invariant
            i <= prev@.len(),
            pv == ifaces_view(prev@),
            last_iface(pv, name@) == last_iface(pv.take(i as int), name@),
        decreases i,
    {
        assert(pv.take(i as int).last() == prev@[i - 1]@);
        assert(pv.take(i as int).drop_last() == pv.take(i - 1));
        if prev[i - 1].name == *name {
            return Some(i - 1);
        }
        i -= 1;
    }
    None
}

/// One interface row: the bytes it moved since the previous reading and
/// how long it has been idle.
pub struct NetRow {
    pub name: String,
    pub rx_bytes: u64,
    pub tx_bytes: u64,
    pub idle_ns: u64,
}

pub struct NetRowModel {
    pub name: Seq<char>,
    pub rx_bytes: u64,
    pub tx_bytes: u64,
    pub idle_ns: u64,
}

impl View for NetRow {
    type V = NetRowModel;

    open spec fn view(&self) -> NetRowModel {
        NetRowModel {
            name: self.name@,
            rx_bytes: self.rx_bytes,
            tx_bytes: self.tx_bytes,
            idle_ns: self.idle_ns,
        }
    }
}

pub open spec fn net_rows_view(v: Seq<NetRow>) -> Seq<NetRowModel> {
    v.map_values(|r: NetRow| r@)
}

/// What the interface pass carries from one row to the next.
pub struct NetAcc {
    pub rows: Seq<NetRowModel>,
    pub hist: Seq<(Seq<char>, (Seq<RateSample>, Seq<RateSample>))>,
    pub last: Seq<(Seq<char>, u64)>,
}

/// One interface: its deltas against the same name last time (0 when new),
/// a sample pair on its history, a reading on its idle clock.
pub open spec fn net_step(
    acc: NetAcc,
    i: (Seq<char>, u64, u64),
    prev: Seq<(Seq<char>, u64, u64)>,
    now: u64,
    dt_ns: u64,
) -> NetAcc {
    let p = last_iface(prev, i.0);
    let rx = match p {
        Some(q) => sat_sub(i.1, q.1),
        None => 0,
    };
    let tx = match p {
        Some(q) => sat_sub(i.2, q.2),
        None => 0,
    };
    let ts = touch_ts(acc.last, i.0, now, rx > 0 || tx > 0, i.1 > 0 || i.2 > 0);
    NetAcc {
        rows: acc.rows.push(NetRowModel { name: i.0, rx_bytes: rx, tx_bytes: tx, idle_ns: sat_sub(now, ts) }),
        hist: hist_push(acc.hist, i.0, RateSample { bytes: rx as u128, dt_ns }, RateSample { bytes: tx as u128, dt_ns }),
        last: touch_map(acc.last, i.0, ts),
    }
}

pub open spec fn net_fold(
    ifs: Seq<(Seq<char>, u64, u64)>,
    acc: NetAcc,
    prev: Seq<(Seq<char>, u64, u64)>,
    now: u64,
    dt_ns: u64,
) -> NetAcc
    decreases ifs.len(),
{
    if ifs.len() == 0 {
        acc
    } else {
        net_step(net_fold(ifs.drop_last(), acc, prev, now, dt_ns), ifs.last(), prev, now, dt_ns)
    }
}

/// The interface pass over a new reading: a row per interface, busiest
/// first; histories and idle clocks of vanished interfaces are dropped.
pub open spec fn net_result(
    cur: Seq<(Seq<char>, u64, u64)>,
    prev: Seq<(Seq<char>, u64, u64)>,
    hist: Seq<(Seq<char>, (Seq<RateSample>, Seq<RateSample>))>,
    last: Seq<(Seq<char>, u64)>,
    now: u64,
    dt_ns: u64,
) -> NetAcc {
    let acc = net_fold(sort_ifaces(cur), NetAcc { rows: seq![], hist, last }, prev, now, dt_ns);
    NetAcc {
        rows: acc.rows,
        hist: keep_named(acc.hist, iface_names(cur)),
        last: keep_named(acc.last, iface_names(cur)),
    }
}

/// Interface rows for a new reading, with the histories and idle clocks
/// brought up to date.
pub fn net_rows(
    cur: &Vec<NetIface>,
    prev: &Vec<NetIface>,
    hist: &mut Vec<IfaceHistory>,
    last: &mut Vec<(String, u64)>,
    now: u64,
    dt_ns: u64,
) -> (r: Vec<NetRow>)
    ensures
        net_rows_view(r@) == net_result(
            ifaces_view(cur@),
            ifaces_view(prev@),
            hists_view(old(hist)@),
            last_view(old(last)@),
            now,
            dt_ns,
        ).rows,
        hists_view(final(hist)@) == net_result(
            ifaces_view(cur@),
            ifaces_view(prev@),
            hists_view(old(hist)@),
            last_view(old(last)@),
            now,
            dt_ns,
        ).hist,
        last_view(final(last)@) == net_result(
            ifaces_view(cur@),
            ifaces_view(prev@),
            hists_view(old(hist)@),
            last_view(old(last)@),
            now,
            dt_ns,
        ).last,
{
    let ghost pv = ifaces_view(prev@);
    let ghost acc0 = NetAcc { rows: seq![], hist: hists_view(hist@), last: last_view(last@) };
    let sorted = sort_ifaces_exec(cur);
    let ghost sv = ifaces_view(sorted@);
    let mut rows: Vec<NetRow> = Vec::new();
    let mut i: usize = 0;
    assert(net_rows_view(rows@) =~= seq![]);
    assert(sv.take(0) =~= seq![]);
    while i < sorted.len()
        invariant
            i <= sorted@.len(),
            sv == ifaces_view(sorted@),
            pv == ifaces_view(prev@),
            net_fold(sv.take(i as int), acc0, pv, now, dt_ns) == (NetAcc {
                rows: net_rows_view(rows@),
                hist: hists_view(hist@),
                last: last_view(last@),
            }),
        decreases sorted@.len() - i,
    {
        assert(sv.take(i + 1).drop_last() == sv.take(i as int));
        assert(sv.take(i + 1).last() == sorted@[i as int]@);
        let it = &sorted[i];
        let (rx, tx) = match last_iface_exec(prev, &it.name) {
            Some(k) => (it.rx_bytes.saturating_sub(prev[k].rx_bytes), it.tx_bytes.saturating_sub(prev[k].tx_bytes)),
            None => (0, 0),
        };
        hist_push_exec(hist, &it.name, RateSample { bytes: rx as u128, dt_ns }, RateSample { bytes: tx as u128, dt_ns });
        let idle = touch(last, &it.name, now, rx > 0 || tx > 0, it.rx_bytes > 0 || it.tx_bytes > 0);
        let ghost before = rows@;
        let row = NetRow { name: it.name.clone(), rx_bytes: rx, tx_bytes: tx, idle_ns: idle };
        let ghost rv = row@;
        rows.push(row);
        assert(net_rows_view(rows@) =~= net_rows_view(before).push(rv));
        i += 1;
    }
    assert(sv.take(sorted@.len() as int) == sv);
    prune_hists(hist, cur);
    let mut names: Vec<String> = Vec::new();
    let mut j: usize = 0;
    while j < cur.len()
        invariant
            j <= cur@.len(),
            names@.len() == j,
            names@.map_values(|s: String| s@) == iface_names(ifaces_view(cur@)).take(j as int),
        decreases cur@.len() - j,
    {
        names.push(cur[j].name.clone());
        assert(names@.map_values(|s: String| s@) =~= iface_names(ifaces_view(cur@)).take(j + 1));
        j += 1;
    }
    assert(iface_names(ifaces_view(cur@)).take(cur@.len() as int) == iface_names(ifaces_view(cur@)));
    prune_clocks_by(last, &names);
    rows
}


pub open spec fn disks_view(v: Seq<DiskStats>) -> Seq<DiskStatsModel> {
    v.map_values(|d: DiskStats| d@)
}

/// The last disk of the previous reading with this name.
pub open spec fn last_disk(prev: Seq<DiskStatsModel>, name: Seq<char>) -> Option<DiskStatsModel>
    decreases prev.len(),
{
    if prev.len() == 0 {
        None
    } else if prev.last().name == name {
        Some(prev.last())
    } else {
        last_disk(prev.drop_last(), name)
    }
}

fn last_disk_exec(prev: &Vec<DiskStats>, name: &String) -> (r: Option<usize>)
    ensures
        match r {
            Some(k) => k < prev@.len() && last_disk(disks_view(prev@), name@) == Some(prev@[k as int]@),
            None => last_disk(disks_view(prev@), name@) is None,
        },
{
    let ghost pv = disks_view(prev@);
    let mut i: usize = prev.len();
    assert(pv.take(pv.len() as int) == pv);
    while i > 0
        invariant
            i <= prev@.len(),
            pv == disks_view(prev@),
            last_disk(pv, name@) == last_disk(pv.take(i as int), name@),
        decreases i,
    {
        assert(pv.take(i as int).last() == prev@[i - 1]@);
        assert(pv.take(i as int).drop_last() == pv.take(i - 1));
        if prev[i - 1].name == *name {
            return Some(i - 1);
        }
        i -= 1;
    }
    None
}

/// A counter's growth when both readings have it.
pub open spec fn opt_delta(c: Option<u64>, p: Option<u64>) -> Option<u64> {
    match (c, p) {
        (Some(c), Some(p)) => Some(sat_sub(c, p)),
        _ => None,
    }
}

fn opt_delta_exec(c: Option<u64>, p: Option<u64>) -> (r: Option<u64>)
    ensures
        r == opt_delta(c, p),
{
    match (c, p) {
        (Some(c), Some(p)) => Some(c.saturating_sub(p)),
        _ => None,
    }
}

/// One disk row: what the device did since the previous reading (bytes,
/// operations, and busy, service and weighted time in ns, each None when a
/// reading lacks the counter) and how long it has been idle. A device met
/// for the first time has no deltas yet.
pub struct DiskRow {
    pub name: String,
    pub read_bytes: u64,
    pub written_bytes: u64,
    pub ops: u64,
    pub busy_ns: Option<u64>,
    pub io_ns: Option<u64>,
    pub weighted_ns: Option<u64>,
    pub idle_ns: u64,
}

pub struct DiskRowModel {
    pub name: Seq<char>,
    pub read_bytes: u64,
    pub written_bytes: u64,
    pub ops: u64,
    pub busy_ns: Option<u64>,
    pub io_ns: Option<u64>,
    pub weighted_ns: Option<u64>,
    pub idle_ns: u64,
}

impl View for DiskRow {
    type V = DiskRowModel;

    open spec fn view(&self) -> DiskRowModel {
        DiskRowModel {
            name: self.name@,
            read_bytes: self.read_bytes,
            written_bytes: self.written_bytes,
            ops: self.ops,
            busy_ns: self.busy_ns,
            io_ns: self.io_ns,
            weighted_ns: self.weighted_ns,
            idle_ns: self.idle_ns,
        }
    }
}

pub open spec fn disk_rows_view(v: Seq<DiskRow>) -> Seq<DiskRowModel> {
    v.map_values(|r: DiskRow| r@)
}

pub open spec fn sat_add128(a: u128, b: u128) -> u128 {
    if a + b > u128::MAX {
        u128::MAX
    } else {
        (a + b) as u128
    }
}

/// What the disk pass carries from one row to the next; `total` sums the
/// bytes of devices with service-time counters (synthetic volumes mirror a
/// physical disk's traffic without them, and would count twice).
pub struct DiskAcc {
    pub rows: Seq<DiskRowModel>,
    pub last: Seq<(Seq<char>, u64)>,
    pub total: u128,
}

pub open spec fn disk_step(acc: DiskAcc, d: DiskStatsModel, prev: Seq<DiskStatsModel>, now: u64) -> DiskAcc {
    let ever = d.read_bytes > 0 || d.written_bytes > 0;
    match last_disk(prev, d.name) {
        None => {
            let ts = touch_ts(acc.last, d.name, now, false, ever);
            DiskAcc {
                rows: acc.rows.push(
                    DiskRowModel {
                        name: d.name,
                        read_bytes: 0,
                        written_bytes: 0,
                        ops: 0,
                        busy_ns: None,
                        io_ns: None,
                        weighted_ns: None,
                        idle_ns: sat_sub(now, ts),
                    },
                ),
                last: touch_map(acc.last, d.name, ts),
                total: acc.total,
            }
        },
        Some(p) => {
            let read = sat_sub(d.read_bytes, p.read_bytes);
            let written = sat_sub(d.written_bytes, p.written_bytes);
            let ops = wadd(sat_sub(d.read_ops, p.read_ops), sat_sub(d.write_ops, p.write_ops));
            let ts = touch_ts(acc.last, d.name, now, read > 0 || written > 0 || ops > 0, ever);
            DiskAcc {
                rows: acc.rows.push(
                    DiskRowModel {
                        name: d.name,
                        read_bytes: read,
                        written_bytes: written,
                        ops,
                        busy_ns: opt_delta(d.busy_time_ns, p.busy_time_ns),
                        io_ns: opt_delta(d.io_time_ns, p.io_time_ns),
                        weighted_ns: opt_delta(d.weighted_ns, p.weighted_ns),
                        idle_ns: sat_sub(now, ts),
                    },
                ),
                last: touch_map(acc.last, d.name, ts),
                total: if d.io_time_ns is Some {
                    sat_add128(acc.total, (read as int + written as int) as u128)
                } else {
                    acc.total
                },
            }
        },
    }
}

pub open spec fn disk_fold(ds: Seq<DiskStatsModel>, acc: DiskAcc, prev: Seq<DiskStatsModel>, now: u64) -> DiskAcc
    decreases ds.len(),
{
    if ds.len() == 0 {
        acc
    } else {
        disk_step(disk_fold(ds.drop_last(), acc, prev, now), ds.last(), prev, now)
    }
}

pub open spec fn disk_names(v: Seq<DiskStatsModel>) -> Seq<Seq<char>> {
    v.map_values(|d: DiskStatsModel| d.name)
}

/// The disk pass over a new reading: a row per device in reported order;
/// idle clocks of vanished devices are dropped.
pub open spec fn disk_result(
    cur: Seq<DiskStatsModel>,
    prev: Seq<DiskStatsModel>,
    last: Seq<(Seq<char>, u64)>,
    now: u64,
) -> DiskAcc {
    let acc = disk_fold(cur, DiskAcc { rows: seq![], last, total: 0 }, prev, now);
    DiskAcc { rows: acc.rows, last: keep_named(acc.last, disk_names(cur)), total: acc.total }
}

/// Disk rows for a new reading, the idle clocks brought up to date, and the
/// bytes moved by devices with service-time counters.
pub fn disk_rows(
    cur: &Vec<DiskStats>,
    prev: &Vec<DiskStats>,
    last: &mut Vec<(String, u64)>,
    now: u64,
) -> (r: (Vec<DiskRow>, u128))
    ensures
        disk_rows_view(r.0@) == disk_result(disks_view(cur@), disks_view(prev@), last_view(old(last)@), now).rows,
        r.1 == disk_result(disks_view(cur@), disks_view(prev@), last_view(old(last)@), now).total,
        last_view(final(last)@) == disk_result(disks_view(cur@), disks_view(prev@), last_view(old(last)@), now).last,
{
    let ghost cv = disks_view(cur@);
    let ghost pv = disks_view(prev@);
    let ghost acc0 = DiskAcc { rows: seq![], last: last_view(last@), total: 0 };
    let mut rows: Vec<DiskRow> = Vec::new();
    let mut total: u128 = 0;
    let mut i: usize = 0;
    assert(disk_rows_view(rows@) =~= seq![]);
    assert(cv.take(0) =~= seq![]);
    while i < cur.len()
        invariant
            i <= cur@.len(),
            cv == disks_view(cur@),
            pv == disks_view(prev@),
            disk_fold(cv.take(i as int), acc0, pv, now) == (DiskAcc {
                rows: disk_rows_view(rows@),
                last: last_view(last@),
                total,
            }),
        decreases cur@.len() - i,
    {
        assert(cv.take(i + 1).drop_last() == cv.take(i as int));
        assert(cv.take(i + 1).last() == cur@[i as int]@);
        let d = &cur[i];
        let ever = d.read_bytes > 0 || d.written_bytes > 0;
        let row = match last_disk_exec(prev, &d.name) {
            None => {
                let idle = touch(last, &d.name, now, false, ever);
                DiskRow {
                    name: d.name.clone(),
                    read_bytes: 0,
                    written_bytes: 0,
                    ops: 0,
                    busy_ns: None,
                    io_ns: None,
                    weighted_ns: None,
                    idle_ns: idle,
                }
            },
            Some(k) => {
                let p = &prev[k];
                let read = d.read_bytes.saturating_sub(p.read_bytes);
                let written = d.written_bytes.saturating_sub(p.written_bytes);
                let ops = d.read_ops.saturating_sub(p.read_ops).wrapping_add(
                    d.write_ops.saturating_sub(p.write_ops),
                );
                if d.io_time_ns.is_some() {
                    total = total.saturating_add(read as u128 + written as u128);
                }
                let idle = touch(last, &d.name, now, read > 0 || written > 0 || ops > 0, ever);
                DiskRow {
                    name: d.name.clone(),
                    read_bytes: read,
                    written_bytes: written,
                    ops,
                    busy_ns: opt_delta_exec(d.busy_time_ns, p.busy_time_ns),
                    io_ns: opt_delta_exec(d.io_time_ns, p.io_time_ns),
                    weighted_ns: opt_delta_exec(d.weighted_ns, p.weighted_ns),
                    idle_ns: idle,
                }
            },
        };
        let ghost before = rows@;
        let ghost rv = row@;
        rows.push(row);
        assert(disk_rows_view(rows@) =~= disk_rows_view(before).push(rv));
        i += 1;
    }
    assert(cv.take(cur@.len() as int) == cv);
    let mut names: Vec<String> = Vec::new();
    let mut j: usize = 0;
    while j < cur.len()
        invariant
            j <= cur@.len(),
            names@.len() == j,
            names@.map_values(|s: String| s@) == disk_names(disks_view(cur@)).take(j as int),
        decreases cur@.len() - j,
    {
        names.push(cur[j].name.clone());
        assert(names@.map_values(|s: String| s@) =~= disk_names(disks_view(cur@)).take(j + 1));
        j += 1;
    }
    assert(disk_names(cv).take(cur@.len() as int) == disk_names(cv));
    prune_clocks_by(last, &names);
    (rows, total)
}


/// A device that has never moved a byte is born idle past the grace period,
/// so it starts hidden (once the clock has run that long).
pub proof fn law_never_active_born_hidden(m: Seq<(Seq<char>, u64)>, name: Seq<char>, now: u64)
    requires
        find_name(m, name) == -1,
        now >= BORN_IDLE_NS,
    ensures
        sat_sub(now, touch_ts(m, name, now, false, false)) > IDLE_HIDE_NS,
{
}

/// A device that moved a byte in this reading is not idle at all.
pub proof fn law_active_is_not_idle(m: Seq<(Seq<char>, u64)>, name: Seq<char>, now: u64, ever: bool)
    ensures
        sat_sub(now, touch_ts(m, name, now, true, ever)) == 0,
{
}

/// What survives pruning is named in the new reading.
pub proof fn law_pruned_names_are_current<V>(h: Seq<(Seq<char>, V)>, names: Seq<Seq<char>>)
    ensures
        forall|i: int|
            0 <= i < keep_named(h, names).len() ==> names.contains(
                (#[trigger] keep_named(h, names)[i]).0,
            ),
    decreases h.len(),
{
    if h.len() > 0 {
        law_pruned_names_are_current(h.drop_last(), names);
        let r = keep_named(h.drop_last(), names);
        let k = keep_named(h, names);
        assert forall|i: int| 0 <= i < k.len() implies names.contains((#[trigger] k[i]).0) by {
            if i < r.len() {
                assert(k[i] == r[i]);
            }
        }
    }
}

/// A capped history never holds more than HISTORY samples: a new sample
/// goes on the back, and the oldest leaves the front exactly when the
/// history was full.
pub proof fn law_capped_history<T>(q: Seq<T>, v: T)
    requires
        q.len() <= HISTORY,
    ensures
        capped(q, v).len() <= HISTORY,
        capped(q, v).last() == v,
        capped(q, v) == (if q.len() == HISTORY { q.drop_first().push(v) } else { q.push(v) }),
{
    if q.len() == HISTORY {
        assert(q.push(v).drop_first() =~= q.drop_first().push(v));
    }
}

/// Samples appended one by one to a capped history.
pub open spec fn capped_all<T>(q: Seq<T>, vs: Seq<T>) -> Seq<T>
    decreases vs.len(),
{
    if vs.len() == 0 {
        q
    } else {
        capped(capped_all(q, vs.drop_last()), vs.last())
    }
}

/// However many samples arrive, a capped history keeps exactly the newest
/// HISTORY of all it has seen (all of them while there are fewer).
pub proof fn law_capped_keeps_newest<T>(q: Seq<T>, vs: Seq<T>)
    requires
        q.len() <= HISTORY,
    ensures
        capped_all(q, vs) == (q + vs).skip(
            if q.len() + vs.len() > HISTORY { q.len() + vs.len() - HISTORY } else { 0 },
        ),
        capped_all(q, vs).len() == (if q.len() + vs.len() > HISTORY { HISTORY as int } else { (q.len() + vs.len()) as int }),
    decreases vs.len(),
{
    if vs.len() > 0 {
        law_capped_keeps_newest(q, vs.drop_last());
        let a = capped_all(q, vs.drop_last());
        let n = q.len() + vs.len();
        assert((q + vs.drop_last()).push(vs.last()) =~= q + vs);
        if n > HISTORY {
            assert(a.push(vs.last()).drop_first() =~= (q + vs).skip(n - HISTORY));
        } else {
            assert(a.push(vs.last()) =~= (q + vs).skip(0));
        }
    } else {
        assert(q + vs =~= q);
    }
}

proof fn lemma_net_fold_moving(
    ifs: Seq<(Seq<char>, u64, u64)>,
    acc: NetAcc,
    prev: Seq<(Seq<char>, u64, u64)>,
    now: u64,
    dt_ns: u64,
)
    requires
        acc.rows.len() == 0,
    ensures
        forall|k: int|
            0 <= k < net_fold(ifs, acc, prev, now, dt_ns).rows.len() && ((#[trigger] net_fold(
                ifs,
                acc,
                prev,
                now,
                dt_ns,
            ).rows[k]).rx_bytes > 0 || net_fold(ifs, acc, prev, now, dt_ns).rows[k].tx_bytes > 0)
                ==> net_fold(ifs, acc, prev, now, dt_ns).rows[k].idle_ns == 0,
    decreases ifs.len(),
{
    if ifs.len() > 0 {
        lemma_net_fold_moving(ifs.drop_last(), acc, prev, now, dt_ns);
        let a = net_fold(ifs.drop_last(), acc, prev, now, dt_ns);
        let r = net_fold(ifs, acc, prev, now, dt_ns);
        assert(r == net_step(a, ifs.last(), prev, now, dt_ns));
        assert forall|k: int|
            0 <= k < r.rows.len() && ((#[trigger] r.rows[k]).rx_bytes > 0 || r.rows[k].tx_bytes > 0) implies r.rows[k].idle_ns
            == 0 by {
            if k < a.rows.len() {
                assert(r.rows[k] == a.rows[k]);
            }
        }
    }
}

/// An interface that moved bytes since the last reading gets a row that is
/// not idle at all, so it shows whatever the idle setting.
pub proof fn law_moving_interface_is_not_idle(
    cur: Seq<(Seq<char>, u64, u64)>,
    prev: Seq<(Seq<char>, u64, u64)>,
    hist: Seq<(Seq<char>, (Seq<RateSample>, Seq<RateSample>))>,
    last: Seq<(Seq<char>, u64)>,
    now: u64,
    dt_ns: u64,
)
    ensures
        forall|k: int|
            0 <= k < net_result(cur, prev, hist, last, now, dt_ns).rows.len() && ((#[trigger] net_result(
                cur,
                prev,
                hist,
                last,
                now,
                dt_ns,
            ).rows[k]).rx_bytes > 0 || net_result(cur, prev, hist, last, now, dt_ns).rows[k].tx_bytes > 0)
                ==> net_result(cur, prev, hist, last, now, dt_ns).rows[k].idle_ns == 0,
{
    lemma_net_fold_moving(sort_ifaces(cur), NetAcc { rows: seq![], hist, last }, prev, now, dt_ns);
}

proof fn lemma_disk_fold_moving(ds: Seq<DiskStatsModel>, acc: DiskAcc, prev: Seq<DiskStatsModel>, now: u64)
    requires
        acc.rows.len() == 0,
    ensures
        forall|k: int|
            0 <= k < disk_fold(ds, acc, prev, now).rows.len() && ((#[trigger] disk_fold(ds, acc, prev, now).rows[k]).read_bytes
                > 0 || disk_fold(ds, acc, prev, now).rows[k].written_bytes > 0 || disk_fold(ds, acc, prev, now).rows[k].ops
                > 0) ==> disk_fold(ds, acc, prev, now).rows[k].idle_ns == 0,
    decreases ds.len(),
{
    if ds.len() > 0 {
        lemma_disk_fold_moving(ds.drop_last(), acc, prev, now);
    }
}

/// A disk that read, wrote or completed an operation since the last
/// reading gets a row that is not idle at all.
pub proof fn law_moving_disk_is_not_idle(
    cur: Seq<DiskStatsModel>,
    prev: Seq<DiskStatsModel>,
    last: Seq<(Seq<char>, u64)>,
    now: u64,
)
    ensures
        forall|k: int|
            0 <= k < disk_result(cur, prev, last, now).rows.len() && ((#[trigger] disk_result(cur, prev, last, now).rows[k]).read_bytes
                > 0 || disk_result(cur, prev, last, now).rows[k].written_bytes > 0 || disk_result(
                cur,
                prev,
                last,
                now,
            ).rows[k].ops > 0) ==> disk_result(cur, prev, last, now).rows[k].idle_ns == 0,
{
    lemma_disk_fold_moving(cur, DiskAcc { rows: seq![], last, total: 0 }, prev, now);
}

/// Each name has at most one entry.
pub open spec fn names_unique<V>(m: Seq<(Seq<char>, V)>) -> bool {
    forall|i: int, j: int| 0 <= i < j < m.len() ==> (#[trigger] m[i]).0 != (#[trigger] m[j]).0
}

proof fn lemma_touch_map_unique(m: Seq<(Seq<char>, u64)>, name: Seq<char>, ts: u64)
    requires
        names_unique(m),
    ensures
        names_unique(touch_map(m, name, ts)),
{
    lemma_find_name(m, name);
    let r = touch_map(m, name, ts);
    assert forall|i: int, j: int| 0 <= i < j < r.len() implies (#[trigger] r[i]).0 != (#[trigger] r[j]).0 by {
        if i < m.len() && j < m.len() {
            assert(m[i].0 != m[j].0);
        }
    }
}

proof fn lemma_hist_push_unique(
    h: Seq<(Seq<char>, (Seq<RateSample>, Seq<RateSample>))>,
    name: Seq<char>,
    rx: RateSample,
    tx: RateSample,
)
    requires
        names_unique(h),
    ensures
        names_unique(hist_push(h, name, rx, tx)),
{
    lemma_find_name(h, name);
    let r = hist_push(h, name, rx, tx);
    assert forall|i: int, j: int| 0 <= i < j < r.len() implies (#[trigger] r[i]).0 != (#[trigger] r[j]).0 by {
        if i < h.len() && j < h.len() {
            assert(h[i].0 != h[j].0);
        }
    }
}

proof fn lemma_keep_named_unique<V>(h: Seq<(Seq<char>, V)>, names: Seq<Seq<char>>)
    requires
        names_unique(h),
    ensures
        names_unique(keep_named(h, names)),
        forall|i: int|
            0 <= i < keep_named(h, names).len() ==> exists|j: int|
                0 <= j < h.len() && (#[trigger] keep_named(h, names)[i]).0 == h[j].0,
    decreases h.len(),
{
    if h.len() > 0 {
        let d = h.drop_last();
        assert forall|i: int, j: int| 0 <= i < j < d.len() implies (#[trigger] d[i]).0 != (#[trigger] d[j]).0 by {
            assert(d[i] == h[i] && d[j] == h[j]);
        }
        lemma_keep_named_unique(d, names);
        let r = keep_named(d, names);
        let k = keep_named(h, names);
        assert forall|i: int| 0 <= i < k.len() implies exists|j: int| 0 <= j < h.len() && (#[trigger] k[i]).0 == h[j].0 by {
            if i < r.len() {
                let j = choose|j: int| 0 <= j < d.len() && r[i].0 == d[j].0;
                assert(k[i] == r[i] && d[j] == h[j]);
            } else {
                assert(k[i] == h[h.len() - 1]);
            }
        }
        if names.contains(h.last().0) {
            assert forall|i: int, j: int| 0 <= i < j < k.len() implies (#[trigger] k[i]).0 != (#[trigger] k[j]).0 by {
                if j < r.len() {
                    assert(k[i] == r[i] && k[j] == r[j]);
                } else {
                    assert(k[i] == r[i]);
                    let t = choose|t: int| 0 <= t < d.len() && r[i].0 == d[t].0;
                    assert(d[t] == h[t]);
                    assert(h[t].0 != h[h.len() - 1].0);
                }
            }
        }
    }
}

proof fn lemma_net_fold_unique(
    ifs: Seq<(Seq<char>, u64, u64)>,
    acc: NetAcc,
    prev: Seq<(Seq<char>, u64, u64)>,
    now: u64,
    dt_ns: u64,
)
    requires
        names_unique(acc.hist),
        names_unique(acc.last),
    ensures
        names_unique(net_fold(ifs, acc, prev, now, dt_ns).hist),
        names_unique(net_fold(ifs, acc, prev, now, dt_ns).last),
    decreases ifs.len(),
{
    if ifs.len() > 0 {
        lemma_net_fold_unique(ifs.drop_last(), acc, prev, now, dt_ns);
        let a = net_fold(ifs.drop_last(), acc, prev, now, dt_ns);
        let i = ifs.last();
        let p = last_iface(prev, i.0);
        let rx = match p {
            Some(q) => sat_sub(i.1, q.1),
            None => 0,
        };
        let tx = match p {
            Some(q) => sat_sub(i.2, q.2),
            None => 0,
        };
        let ts = touch_ts(a.last, i.0, now, rx > 0 || tx > 0, i.1 > 0 || i.2 > 0);
        lemma_hist_push_unique(a.hist, i.0, RateSample { bytes: rx as u128, dt_ns }, RateSample { bytes: tx as u128, dt_ns });
        lemma_touch_map_unique(a.last, i.0, ts);
    }
}

/// The interface pass keeps one history and one idle clock per name.
pub proof fn lemma_net_result_unique(
    cur: Seq<(Seq<char>, u64, u64)>,
    prev: Seq<(Seq<char>, u64, u64)>,
    hist: Seq<(Seq<char>, (Seq<RateSample>, Seq<RateSample>))>,
    last: Seq<(Seq<char>, u64)>,
    now: u64,
    dt_ns: u64,
)
    requires
        names_unique(hist),
        names_unique(last),
    ensures
        names_unique(net_result(cur, prev, hist, last, now, dt_ns).hist),
        names_unique(net_result(cur, prev, hist, last, now, dt_ns).last),
{
    let acc = net_fold(sort_ifaces(cur), NetAcc { rows: seq![], hist, last }, prev, now, dt_ns);
    lemma_net_fold_unique(sort_ifaces(cur), NetAcc { rows: seq![], hist, last }, prev, now, dt_ns);
    lemma_keep_named_unique(acc.hist, iface_names(cur));
    lemma_keep_named_unique(acc.last, iface_names(cur));
}

proof fn lemma_disk_fold_unique(ds: Seq<DiskStatsModel>, acc: DiskAcc, prev: Seq<DiskStatsModel>, now: u64)
    requires
        names_unique(acc.last),
    ensures
        names_unique(disk_fold(ds, acc, prev, now).last),
    decreases ds.len(),
{
    if ds.len() > 0 {
        lemma_disk_fold_unique(ds.drop_last(), acc, prev, now);
        let a = disk_fold(ds.drop_last(), acc, prev, now);
        let d = ds.last();
        let ever = d.read_bytes > 0 || d.written_bytes > 0;
        lemma_touch_map_unique(a.last, d.name, touch_ts(a.last, d.name, now, false, ever));
        lemma_touch_map_unique(a.last, d.name, touch_ts(a.last, d.name, now, true, ever));
        match last_disk(prev, d.name) {
            Some(p) => {
                let read = sat_sub(d.read_bytes, p.read_bytes);
                let written = sat_sub(d.written_bytes, p.written_bytes);
                let ops = wadd(sat_sub(d.read_ops, p.read_ops), sat_sub(d.write_ops, p.write_ops));
                lemma_touch_map_unique(a.last, d.name, touch_ts(a.last, d.name, now, read > 0 || written > 0 || ops > 0, ever));
            },
            None => {},
        }
    }
}

/// The disk pass keeps one idle clock per name.
pub proof fn lemma_disk_result_unique(
    cur: Seq<DiskStatsModel>,
    prev: Seq<DiskStatsModel>,
    last: Seq<(Seq<char>, u64)>,
    now: u64,
)
    requires
        names_unique(last),
    ensures
        names_unique(disk_result(cur, prev, last, now).last),
{
    lemma_disk_fold_unique(cur, DiskAcc { rows: seq![], last, total: 0 }, prev, now);
    lemma_keep_named_unique(disk_fold(cur, DiskAcc { rows: seq![], last, total: 0 }, prev, now).last, disk_names(cur));
}

/// The bytes read and written in the rows of devices whose reading carries
/// a service-time counter, summed over the rows in order.
pub open spec fn timed_bytes(rows: Seq<DiskRowModel>, ds: Seq<DiskStatsModel>) -> nat
    decreases ds.len(),
{
    if ds.len() == 0 || rows.len() == 0 {
        0
    } else {
        let here: nat = if ds.last().io_time_ns is Some {
            (rows.last().read_bytes + rows.last().written_bytes) as nat
        } else {
            0
        };
        timed_bytes(rows.drop_last(), ds.drop_last()) + here
    }
}

proof fn lemma_disk_fold_total(ds: Seq<DiskStatsModel>, last: Seq<(Seq<char>, u64)>, prev: Seq<DiskStatsModel>, now: u64)
    ensures
        disk_fold(ds, DiskAcc { rows: seq![], last, total: 0 }, prev, now).rows.len() == ds.len(),
        disk_fold(ds, DiskAcc { rows: seq![], last, total: 0 }, prev, now).total == if timed_bytes(
            disk_fold(ds, DiskAcc { rows: seq![], last, total: 0 }, prev, now).rows,
            ds,
        ) > u128::MAX {
            u128::MAX as nat
        } else {
            timed_bytes(disk_fold(ds, DiskAcc { rows: seq![], last, total: 0 }, prev, now).rows, ds)
        },
    decreases ds.len(),
{
    if ds.len() > 0 {
        let acc0 = DiskAcc { rows: seq![], last, total: 0 };
        lemma_disk_fold_total(ds.drop_last(), last, prev, now);
        let a = disk_fold(ds.drop_last(), acc0, prev, now);
        let f = disk_fold(ds, acc0, prev, now);
        assert(f.rows.drop_last() == a.rows);
        assert(f.rows.last() == f.rows[f.rows.len() - 1]);
    }
}

/// The disk pass's byte total is the sum, over the devices whose reading
/// carries a service-time counter, of the bytes their rows show read and
/// written (a device met for the first time shows none); every such device
/// counts, none replaces another. The sum saturates at the u128 limit.
pub proof fn law_disk_total_sums_timed_devices(
    cur: Seq<DiskStatsModel>,
    prev: Seq<DiskStatsModel>,
    last: Seq<(Seq<char>, u64)>,
    now: u64,
)
    ensures
        disk_result(cur, prev, last, now).rows.len() == cur.len(),
        disk_result(cur, prev, last, now).total == if timed_bytes(
            disk_result(cur, prev, last, now).rows,
            cur,
        ) > u128::MAX {
            u128::MAX as nat
        } else {
            timed_bytes(disk_result(cur, prev, last, now).rows, cur)
        },
{
    lemma_disk_fold_total(cur, last, prev, now);
}

proof fn lemma_insert_iface_shape(s: Seq<(Seq<char>, u64, u64)>, x: (Seq<char>, u64, u64))
    requires
        forall|i: int, j: int| 0 <= i < j < s.len() ==> traffic(#[trigger] s[i]) >= traffic(#[trigger] s[j]),
    ensures
        insert_iface(s, x).len() == s.len() + 1,
        forall|i: int, j: int|
            0 <= i < j < insert_iface(s, x).len() ==> traffic(#[trigger] insert_iface(s, x)[i])
                >= traffic(#[trigger] insert_iface(s, x)[j]),
        forall|i: int|
            0 <= i < insert_iface(s, x).len() ==> #[trigger] insert_iface(s, x)[i] == x || s.contains(
                insert_iface(s, x)[i],
            ),
    decreases s.len(),
{
    let r = insert_iface(s, x);
    if s.len() == 0 {
    } else if traffic(x) > traffic(s[0]) {
        assert forall|i: int| 0 <= i < r.len() implies #[trigger] r[i] == x || s.contains(r[i]) by {
            if i > 0 {
                assert(r[i] == s[i - 1]);
            }
        }
        assert forall|i: int, j: int| 0 <= i < j < r.len() implies traffic(#[trigger] r[i]) >= traffic(
            #[trigger] r[j],
        ) by {
            assert(r[j] == s[j - 1]);
            if i > 0 {
                assert(r[i] == s[i - 1]);
            } else if j - 1 > 0 {
                assert(traffic(s[0]) >= traffic(s[j - 1]));
            }
        }
    } else {
        let t = s.drop_first();
        assert forall|i: int, j: int| 0 <= i < j < t.len() implies traffic(#[trigger] t[i]) >= traffic(
            #[trigger] t[j],
        ) by {
            assert(t[i] == s[i + 1] && t[j] == s[j + 1]);
        }
        lemma_insert_iface_shape(t, x);
        let rt = insert_iface(t, x);
        assert forall|i: int| 0 <= i < r.len() implies #[trigger] r[i] == x || s.contains(r[i]) by {
            if i == 0 {
                assert(s.contains(s[0]));
            } else {
                assert(r[i] == rt[i - 1]);
                if rt[i - 1] != x {
                    let k = choose|k: int| 0 <= k < t.len() && t[k] == rt[i - 1];
                    assert(s[k + 1] == t[k]);
                }
            }
        }
        assert forall|i: int, j: int| 0 <= i < j < r.len() implies traffic(#[trigger] r[i]) >= traffic(
            #[trigger] r[j],
        ) by {
            assert(r[j] == rt[j - 1]);
            if i == 0 {
                let y = rt[j - 1];
                if y != x {
                    let k = choose|k: int| 0 <= k < t.len() && t[k] == y;
                    assert(s[k + 1] == y);
                    assert(traffic(s[0]) >= traffic(s[k + 1]));
                }
            } else {
                assert(r[i] == rt[i - 1]);
            }
        }
    }
}

proof fn lemma_insert_iface_perm(s: Seq<(Seq<char>, u64, u64)>, x: (Seq<char>, u64, u64))
    ensures
        insert_iface(s, x).to_multiset() == s.to_multiset().insert(x),
    decreases s.len(),
{
    broadcast use vstd::seq_lib::group_to_multiset_ensures;

    if s.len() == 0 {
        assert(seq![x] == s.push(x));
    } else if traffic(x) > traffic(s[0]) {
        assert(seq![x] + s == s.insert(0, x));
    } else {
        let t = s.drop_first();
        lemma_insert_iface_perm(t, x);
        let r = insert_iface(t, x);
        assert(seq![s[0]] + r == r.insert(0, s[0]));
        assert(s == t.insert(0, s[0]));
        assert(r.insert(0, s[0]).to_multiset() == t.to_multiset().insert(x).insert(s[0]));
        assert(s.to_multiset().insert(x) =~= t.to_multiset().insert(s[0]).insert(x));
        assert(t.to_multiset().insert(x).insert(s[0]) =~= t.to_multiset().insert(s[0]).insert(x));
    }
}

/// The interface list comes busiest first: of two listed interfaces, the
/// earlier has moved at least as many bytes (received plus sent) in its
/// lifetime as the later; and it lists exactly the interfaces read, each
/// as often as it was read.
pub proof fn law_interfaces_busiest_first(s: Seq<(Seq<char>, u64, u64)>)
    ensures
        sort_ifaces(s).len() == s.len(),
        sort_ifaces(s).to_multiset() == s.to_multiset(),
        forall|i: int, j: int|
            0 <= i < j < sort_ifaces(s).len() ==> (#[trigger] sort_ifaces(s)[i]).1 as int + sort_ifaces(
                s,
            )[i].2 as int >= (#[trigger] sort_ifaces(s)[j]).1 as int + sort_ifaces(s)[j].2 as int,
    decreases s.len(),
{
    broadcast use vstd::seq_lib::group_to_multiset_ensures;

    if s.len() > 0 {
        law_interfaces_busiest_first(s.drop_last());
        lemma_insert_iface_shape(sort_ifaces(s.drop_last()), s.last());
        lemma_insert_iface_perm(sort_ifaces(s.drop_last()), s.last());
        assert(s == s.drop_last().push(s.last()));
        let out = sort_ifaces(s);
        assert forall|i: int, j: int| 0 <= i < j < out.len() implies (#[trigger] out[i]).1 as int
            + out[i].2 as int >= (#[trigger] out[j]).1 as int + out[j].2 as int by {
            assert(traffic(out[i]) >= traffic(out[j]));
        }
    }
}

proof fn lemma_last_proc_at(prev: Seq<ProcessInfo>, pid: i32, k: int)
    requires
        -1 <= k < prev.len(),
        k >= 0 ==> prev[k].pid == pid,
        forall|j: int| k < j < prev.len() ==> (#[trigger] prev[j]).pid != pid,
    ensures
        last_proc(prev, pid) == if k >= 0 {
            Some(prev[k])
        } else {
            None::<ProcessInfo>
        },
    decreases prev.len(),
{
    if prev.len() > 0 && k < prev.len() - 1 {
        assert forall|j: int| k < j < prev.drop_last().len() implies (#[trigger] prev.drop_last()[j]).pid
            != pid by {
            assert(prev.drop_last()[j] == prev[j]);
        }
        lemma_last_proc_at(prev.drop_last(), pid, k);
        if k >= 0 {
            assert(prev.drop_last()[k] == prev[k]);
        }
    }
}

/// A process row shows what the process did since the previous snapshot:
/// against the latest reading `prev[k]` of the same pid, its cpu time grew by
/// the row's cpu (0 when the counter went back), and the row's io is the
/// bytes read plus written since then (wrapping at 2^64), known only when
/// both readings have both counters. A pid the previous snapshot lacks gets
/// 0 cpu and no io. The pid, parent, name and rss are the current ones.
pub proof fn law_process_rows_are_deltas(cur: Seq<ProcessInfo>, prev: Seq<ProcessInfo>, i: int, k: int)
    requires
        0 <= i < cur.len(),
        -1 <= k < prev.len(),
        k >= 0 ==> prev[k].pid == cur[i].pid,
        forall|j: int| k < j < prev.len() ==> (#[trigger] prev[j]).pid != cur[i].pid,
    ensures
        proc_rows_spec(cur, prev).len() == cur.len(),
        ({
            let r = proc_rows_spec(cur, prev)[i];
            let p = cur[i];
            &&& r.pid == p.pid && r.ppid == p.ppid && r.name == p.name@ && r.rss == p.rss
            &&& r.tid is None
            &&& k < 0 ==> r.cpu_ns == 0 && r.io_bytes is None
            &&& k >= 0 ==> {
                let q = prev[k];
                let known = p.disk_read is Some && q.disk_read is Some && p.disk_written is Some
                    && q.disk_written is Some;
                let read: int = if p.disk_read->0 >= q.disk_read->0 {
                    p.disk_read->0 - q.disk_read->0
                } else {
                    0
                };
                let written: int = if p.disk_written->0 >= q.disk_written->0 {
                    p.disk_written->0 - q.disk_written->0
                } else {
                    0
                };
                &&& r.cpu_ns == if p.cpu_ns >= q.cpu_ns {
                    p.cpu_ns - q.cpu_ns
                } else {
                    0
                }
                &&& (r.io_bytes is Some <==> known)
                &&& known ==> r.io_bytes->0 == (read + written) % 0x1_0000_0000_0000_0000
            }
        }),
{
    lemma_last_proc_at(prev, cur[i].pid, k);
    let p = cur[i];
    if k >= 0 {
        let q = prev[k];
        if p.disk_read is Some && q.disk_read is Some && p.disk_written is Some && q.disk_written is Some {
            let a = sat_sub(p.disk_read->0, q.disk_read->0);
            let b = sat_sub(p.disk_written->0, q.disk_written->0);
            assert(wadd(a, b) == (a + b) % 0x1_0000_0000_0000_0000);
        }
    }
}

proof fn lemma_last_disk_at(prev: Seq<DiskStatsModel>, name: Seq<char>, k: int)
    requires
        -1 <= k < prev.len(),
        k >= 0 ==> prev[k].name == name,
        forall|j: int| k < j < prev.len() ==> (#[trigger] prev[j]).name != name,
    ensures
        last_disk(prev, name) == if k >= 0 {
            Some(prev[k])
        } else {
            None::<DiskStatsModel>
        },
    decreases prev.len(),
{
    if prev.len() > 0 && k < prev.len() - 1 {
        assert forall|j: int| k < j < prev.drop_last().len() implies (#[trigger] prev.drop_last()[j]).name
            != name by {
            assert(prev.drop_last()[j] == prev[j]);
        }
        lemma_last_disk_at(prev.drop_last(), name, k);
        if k >= 0 {
            assert(prev.drop_last()[k] == prev[k]);
        }
    }
}

/// Row `i` of the disk pass against the reading `d` it was made from.
spec fn disk_row_from(r: DiskRowModel, d: DiskStatsModel, prev: Seq<DiskStatsModel>) -> bool {
    &&& r.name == d.name
    &&& match last_disk(prev, d.name) {
        None => r.read_bytes == 0 && r.written_bytes == 0 && r.ops == 0 && r.busy_ns is None
            && r.io_ns is None && r.weighted_ns is None,
        Some(p) => r.read_bytes == sat_sub(d.read_bytes, p.read_bytes) && r.written_bytes == sat_sub(
            d.written_bytes,
            p.written_bytes,
        ) && r.ops == wadd(sat_sub(d.read_ops, p.read_ops), sat_sub(d.write_ops, p.write_ops))
            && r.busy_ns == opt_delta(d.busy_time_ns, p.busy_time_ns) && r.io_ns == opt_delta(
            d.io_time_ns,
            p.io_time_ns,
        ) && r.weighted_ns == opt_delta(d.weighted_ns, p.weighted_ns),
    }
}

proof fn lemma_disk_fold_rows(ds: Seq<DiskStatsModel>, acc: DiskAcc, prev: Seq<DiskStatsModel>, now: u64)
    ensures
        disk_fold(ds, acc, prev, now).rows.len() == acc.rows.len() + ds.len(),
        forall|k: int| 0 <= k < acc.rows.len() ==> #[trigger] disk_fold(ds, acc, prev, now).rows[k] == acc.rows[k],
        forall|k: int|
            0 <= k < ds.len() ==> disk_row_from(
                #[trigger] disk_fold(ds, acc, prev, now).rows[acc.rows.len() + k],
                ds[k],
                prev,
            ),
    decreases ds.len(),
{
    if ds.len() > 0 {
        lemma_disk_fold_rows(ds.drop_last(), acc, prev, now);
        let a = disk_fold(ds.drop_last(), acc, prev, now);
        let f = disk_fold(ds, acc, prev, now);
        assert forall|k: int| 0 <= k < ds.len() implies disk_row_from(
            #[trigger] f.rows[acc.rows.len() + k],
            ds[k],
            prev,
        ) by {
            if k < ds.len() - 1 {
                assert(f.rows[acc.rows.len() + k] == a.rows[acc.rows.len() + k]);
                assert(ds.drop_last()[k] == ds[k]);
            }
        }
    }
}

/// Each disk row shows what its device did since the previous reading:
/// against the latest earlier reading `prev[k]` of the same name, the bytes
/// read and written and the operations (read plus write, wrapping at 2^64)
/// it added, a counter that went back counting 0, and its busy, service and
/// weighted times grown, each known only when both readings carry it. A
/// device the previous reading lacks shows nothing moved and no times.
/// There is one row per device of the new reading, in its order.
pub proof fn law_disk_rows_are_deltas(
    cur: Seq<DiskStatsModel>,
    prev: Seq<DiskStatsModel>,
    last: Seq<(Seq<char>, u64)>,
    now: u64,
    i: int,
    k: int,
)
    requires
        0 <= i < cur.len(),
        -1 <= k < prev.len(),
        k >= 0 ==> prev[k].name == cur[i].name,
        forall|j: int| k < j < prev.len() ==> (#[trigger] prev[j]).name != cur[i].name,
    ensures
        disk_result(cur, prev, last, now).rows.len() == cur.len(),
        ({
            let r = disk_result(cur, prev, last, now).rows[i];
            let d = cur[i];
            &&& r.name == d.name
            &&& k < 0 ==> r.read_bytes == 0 && r.written_bytes == 0 && r.ops == 0 && r.busy_ns is None
                && r.io_ns is None && r.weighted_ns is None
            &&& k >= 0 ==> {
                let p = prev[k];
                &&& r.read_bytes == if d.read_bytes >= p.read_bytes { d.read_bytes - p.read_bytes } else { 0 }
                &&& r.written_bytes == if d.written_bytes >= p.written_bytes {
                    d.written_bytes - p.written_bytes
                } else {
                    0
                }
                &&& r.ops as int == ((if d.read_ops >= p.read_ops { d.read_ops - p.read_ops } else { 0 })
                    + (if d.write_ops >= p.write_ops { d.write_ops - p.write_ops } else { 0 }))
                    % 0x1_0000_0000_0000_0000
                &&& (r.io_ns is Some <==> d.io_time_ns is Some && p.io_time_ns is Some)
                &&& r.io_ns is Some ==> r.io_ns->0 == if d.io_time_ns->0 >= p.io_time_ns->0 {
                    d.io_time_ns->0 - p.io_time_ns->0
                } else {
                    0
                }
                &&& (r.busy_ns is Some <==> d.busy_time_ns is Some && p.busy_time_ns is Some)
                &&& r.busy_ns is Some ==> r.busy_ns->0 == if d.busy_time_ns->0 >= p.busy_time_ns->0 {
                    d.busy_time_ns->0 - p.busy_time_ns->0
                } else {
                    0
                }
                &&& (r.weighted_ns is Some <==> d.weighted_ns is Some && p.weighted_ns is Some)
                &&& r.weighted_ns is Some ==> r.weighted_ns->0 == if d.weighted_ns->0 >= p.weighted_ns->0 {
                    d.weighted_ns->0 - p.weighted_ns->0
                } else {
                    0
                }
            }
        }),
{
    let acc0 = DiskAcc { rows: seq![], last, total: 0 };
    lemma_disk_fold_rows(cur, acc0, prev, now);
    lemma_last_disk_at(prev, cur[i].name, k);
    assert(disk_row_from(disk_fold(cur, acc0, prev, now).rows[0 + i], cur[i], prev));
}

proof fn lemma_last_iface_at(prev: Seq<(Seq<char>, u64, u64)>, name: Seq<char>, k: int)
    requires
        -1 <= k < prev.len(),
        k >= 0 ==> prev[k].0 == name,
        forall|j: int| k < j < prev.len() ==> (#[trigger] prev[j]).0 != name,
    ensures
        last_iface(prev, name) == if k >= 0 {
            Some(prev[k])
        } else {
            None::<(Seq<char>, u64, u64)>
        },
    decreases prev.len(),
{
    if prev.len() > 0 && k < prev.len() - 1 {
        assert forall|j: int| k < j < prev.drop_last().len() implies (#[trigger] prev.drop_last()[j]).0
            != name by {
            assert(prev.drop_last()[j] == prev[j]);
        }
        lemma_last_iface_at(prev.drop_last(), name, k);
        if k >= 0 {
            assert(prev.drop_last()[k] == prev[k]);
        }
    }
}

spec fn net_row_from(r: NetRowModel, i: (Seq<char>, u64, u64), prev: Seq<(Seq<char>, u64, u64)>) -> bool {
    &&& r.name == i.0
    &&& match last_iface(prev, i.0) {
        None => r.rx_bytes == 0 && r.tx_bytes == 0,
        Some(q) => r.rx_bytes == sat_sub(i.1, q.1) && r.tx_bytes == sat_sub(i.2, q.2),
    }
}

proof fn lemma_net_fold_rows(
    ifs: Seq<(Seq<char>, u64, u64)>,
    acc: NetAcc,
    prev: Seq<(Seq<char>, u64, u64)>,
    now: u64,
    dt_ns: u64,
)
    ensures
        net_fold(ifs, acc, prev, now, dt_ns).rows.len() == acc.rows.len() + ifs.len(),
        forall|k: int|
            0 <= k < ifs.len() ==> net_row_from(
                #[trigger] net_fold(ifs, acc, prev, now, dt_ns).rows[acc.rows.len() + k],
                ifs[k],
                prev,
            ),
    decreases ifs.len(),
{
    if ifs.len() > 0 {
        lemma_net_fold_rows(ifs.drop_last(), acc, prev, now, dt_ns);
        let a = net_fold(ifs.drop_last(), acc, prev, now, dt_ns);
        let f = net_fold(ifs, acc, prev, now, dt_ns);
        assert forall|k: int| 0 <= k < ifs.len() implies net_row_from(
            #[trigger] f.rows[acc.rows.len() + k],
            ifs[k],
            prev,
        ) by {
            if k < ifs.len() - 1 {
                assert(f.rows[acc.rows.len() + k] == a.rows[acc.rows.len() + k]);
                assert(ifs.drop_last()[k] == ifs[k]);
            }
        }
    }
}

/// Each interface row shows what its interface moved since the previous
/// reading: the rows follow the interfaces busiest first, and against the
/// latest earlier reading `prev[k]` of the same name, the row's received and
/// sent bytes are what the counters grew by (0 for a counter that went
/// back); an interface the previous reading lacks shows nothing moved.
pub proof fn law_interface_rows_are_deltas(
    cur: Seq<(Seq<char>, u64, u64)>,
    prev: Seq<(Seq<char>, u64, u64)>,
    hist: Seq<(Seq<char>, (Seq<RateSample>, Seq<RateSample>))>,
    last: Seq<(Seq<char>, u64)>,
    now: u64,
    dt_ns: u64,
    i: int,
    k: int,
)
    requires
        0 <= i < cur.len(),
        -1 <= k < prev.len(),
        k >= 0 ==> prev[k].0 == sort_ifaces(cur)[i].0,
        forall|j: int| k < j < prev.len() ==> (#[trigger] prev[j]).0 != sort_ifaces(cur)[i].0,
    ensures
        net_result(cur, prev, hist, last, now, dt_ns).rows.len() == cur.len(),
        ({
            let r = net_result(cur, prev, hist, last, now, dt_ns).rows[i];
            let x = sort_ifaces(cur)[i];
            &&& r.name == x.0
            &&& k < 0 ==> r.rx_bytes == 0 && r.tx_bytes == 0
            &&& k >= 0 ==> r.rx_bytes == (if x.1 >= prev[k].1 { x.1 - prev[k].1 } else { 0 })
                && r.tx_bytes == (if x.2 >= prev[k].2 { x.2 - prev[k].2 } else { 0 })
        }),
{
    law_interfaces_busiest_first(cur);
    let acc0 = NetAcc { rows: seq![], hist, last };
    lemma_net_fold_rows(sort_ifaces(cur), acc0, prev, now, dt_ns);
    lemma_last_iface_at(prev, sort_ifaces(cur)[i].0, k);
    assert(net_row_from(net_fold(sort_ifaces(cur), acc0, prev, now, dt_ns).rows[0 + i], sort_ifaces(cur)[i], prev));
}

} // verus!
