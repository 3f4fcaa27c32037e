//! Snapshot data types and the parsers for the Linux /proc and /sys text
//! formats they are filled from.

use vstd::prelude::*;
use vstd::string::StringSliceAdditionalSpecFns;
use crate::text::{
    all_digits, concat_chars, digits_value, chars_eq, ends_with, find_char, first_index, is_digit, last_index, lemma_first_index_bounds,
    lemma_last_index_bounds, rfind_char, has_prefix, has_suffix, slice_chars, split_once, split_once_char, trim,
    trim_chars, lines, parse_u64, parse_u64_chars, seqs_view, split_lines, split_words,
    starts_with, string_from_chars, to_chars, words,
};

verus! {

/// Cumulative cpu ticks split into busy and idle.
#[derive(Debug, Clone, Copy, PartialEq, Eq, Structural, Default)]
pub struct CpuTimes {
    pub busy: u64,
    pub idle: u64,
}

#[derive(Debug, Clone, Default)]
pub struct CpuSnapshot {
    pub total: CpuTimes,
    pub per_core: Vec<CpuTimes>,
}

/// All fields in bytes.
#[derive(Debug, Clone, Copy, PartialEq, Eq, Structural, Default)]
pub struct MemSnapshot {
    pub total: u64,
    pub used: u64,
    pub available: u64,
    pub swap_total: u64,
    pub swap_used: u64,
}

/// One network interface's cumulative counters.
#[derive(Debug, Clone)]
pub struct NetIface {
    pub name: String,
    pub rx_bytes: u64,
    pub tx_bytes: u64,
}

#[derive(Debug, Clone, Default)]
pub struct NetSnapshot {
    /// cumulative bytes, loopback excluded
    pub rx_bytes: u64,
    pub tx_bytes: u64,
    /// busiest non-loopback interface by cumulative traffic
    pub iface: Option<String>,
    /// every non-loopback interface, in the order reported
    pub interfaces: Vec<NetIface>,
}

#[derive(Debug, Clone)]
pub struct DiskStats {
    pub name: String,
    pub read_bytes: u64,
    pub written_bytes: u64,
    pub read_ops: u64,
    pub write_ops: u64,
    /// cumulative device-busy time; None when the platform lacks it
    pub busy_time_ns: Option<u64>,
    /// cumulative read+write service time; None when the driver lacks it
    pub io_time_ns: Option<u64>,
    /// linux weighted io time (queue-depth source); None on macos
    pub weighted_ns: Option<u64>,
}

#[derive(Debug, Clone)]
pub struct MountInfo {
    pub mount_point: String,
    pub total: u64,
    pub available: u64,
}

#[derive(Debug, Clone)]
pub struct ThreadInfo {
    pub tid: u64,
    /// thread name; empty when the OS has none
    pub name: String,
    /// cumulative cpu time in ns (user + system)
    pub cpu_ns: u64,
}

#[derive(Debug, Clone)]
pub struct ProcessInfo {
    pub pid: i32,
    /// parent pid; 0 = unknown/no parent
    pub ppid: i32,
    pub name: String,
    /// cumulative cpu time in ns (user + system)
    pub cpu_ns: u64,
    /// resident set size in bytes
    pub rss: u64,
    /// cumulative bytes actually read from / written to the block layer;
    /// None when the process is not ours to inspect
    pub disk_read: Option<u64>,
    pub disk_written: Option<u64>,
    /// per-thread breakdown; only filled when the caller asked for it
    pub threads: Vec<ThreadInfo>,
}

/// Why a snapshot could not be taken.
#[derive(Debug)]
pub enum CollectError {
    /// the text did not have the expected shape
    Parse(String),
}

/// The cpu activity between two readings: busy ticks and all ticks.
#[derive(Debug, Clone, Copy, PartialEq, Eq, Structural)]
pub struct CpuTicks {
    pub busy: u64,
    pub total: u128,
}

/// Busy and total ticks elapsed between two readings.
pub open spec fn ticks_between(prev: CpuTimes, curr: CpuTimes) -> CpuTicks {
    let busy = sat_sub(curr.busy, prev.busy);
    CpuTicks { busy, total: (busy as int + sat_sub(curr.idle, prev.idle) as int) as u128 }
}

/// Ticks elapsed between two readings; a counter that went backwards (a wrap)
/// counts as no ticks. The busy percent is `busy * 100 / total`, 0 when
/// `total` is 0, and therefore always within 0..=100.
pub fn cpu_ticks(prev: CpuTimes, curr: CpuTimes) -> (r: CpuTicks)
    ensures
        r == ticks_between(prev, curr),
        r.busy == (if curr.busy >= prev.busy { curr.busy - prev.busy } else { 0 }),
        r.total == r.busy + (if curr.idle >= prev.idle { curr.idle - prev.idle } else { 0 }),
        r.busy <= r.total,
{
    let busy = curr.busy.saturating_sub(prev.busy);
    let idle = curr.idle.saturating_sub(prev.idle);
    CpuTicks { busy, total: busy as u128 + idle as u128 }
}

/// The value of a numeric field, 0 when it does not parse (`parse().unwrap_or(0)`).
pub open spec fn tok_or_zero(t: Seq<char>) -> u64 {
    match parse_u64(t) {
        Some(v) => v,
        None => 0,
    }
}

pub fn tok_or_zero_exec(t: &Vec<char>) -> (r: u64)
    ensures
        r == tok_or_zero(t@),
{
    match parse_u64_chars(t) {
        Some(v) => v,
        None => 0,
    }
}

pub open spec fn wadd(a: u64, b: u64) -> u64 {
    vstd::wrapping::u64_specs::wrapping_add(a, b)
}

pub open spec fn wmul(a: u64, b: u64) -> u64 {
    vstd::wrapping::u64_specs::wrapping_mul(a, b)
}

/// The times on one `cpu` line of /proc/stat (user nice system idle iowait
/// irq softirq steal ...), None when it has fewer than eight counters.
/// Sums wrap at 2^64.
pub open spec fn stat_line_times(line: Seq<char>) -> Option<CpuTimes> {
    let t = words(line, false);
    if t.len() < 9 {
        None
    } else {
        Some(
            CpuTimes {
                busy: wadd(
                    wadd(
                        wadd(
                            wadd(wadd(tok_or_zero(t[1]), tok_or_zero(t[2])), tok_or_zero(t[3])),
                            tok_or_zero(t[6]),
                        ),
                        tok_or_zero(t[7]),
                    ),
                    tok_or_zero(t[8]),
                ),
                idle: wadd(tok_or_zero(t[4]), tok_or_zero(t[5])),
            },
        )
    }
}

pub open spec fn cpu_word() -> Seq<char> {
    seq!['c', 'p', 'u']
}

/// The /proc/stat lines seen so far: the aggregate line's times (if any),
/// the per-core times in order, or the first short `cpu` line.
pub open spec fn stat_scan(ls: Seq<Seq<char>>) -> Result<(Option<CpuTimes>, Seq<CpuTimes>), Seq<char>>
    decreases ls.len(),
{
    if ls.len() == 0 {
        Ok((None, seq![]))
    } else {
        match stat_scan(ls.drop_last()) {
            Err(e) => Err(e),
            Ok((tot, cores)) => {
                let line = ls.last();
                if !has_prefix(line, cpu_word()) {
                    Ok((tot, cores))
                } else {
                    match stat_line_times(line) {
                        None => Err(line),
                        Some(t) => if words(line, false)[0] == cpu_word() {
                            Ok((Some(t), cores))
                        } else {
                            Ok((tot, cores.push(t)))
                        },
                    }
                }
            },
        }
    }
}

proof fn lemma_stat_scan_err(ls: Seq<Seq<char>>, k: int, e: Seq<char>)
    requires
        0 <= k <= ls.len(),
        stat_scan(ls.take(k)) == Err::<(Option<CpuTimes>, Seq<CpuTimes>), Seq<char>>(e),
    ensures
        stat_scan(ls) == Err::<(Option<CpuTimes>, Seq<CpuTimes>), Seq<char>>(e),
    decreases ls.len() - k,
{
    if k < ls.len() {
        assert(ls.take(k + 1).drop_last() == ls.take(k));
        lemma_stat_scan_err(ls, k + 1, e);
    } else {
        assert(ls.take(k) == ls);
    }
}

/// What /proc/stat text yields: the aggregate times and the per-core times,
/// or the message of the parse error.
pub open spec fn proc_stat_spec(s: Seq<char>) -> Result<(CpuTimes, Seq<CpuTimes>), Seq<char>> {
    match stat_scan(lines(s)) {
        Err(line) => Err("short cpu line: "@ + line),
        Ok((None, _)) => Err("no cpu line in /proc/stat"@),
        Ok((Some(t), cores)) => Ok((t, cores)),
    }
}

/// The message `prefix` followed by `rest`.
fn message(prefix: &str, rest: &Vec<char>) -> (m: String)
    ensures
        m@ == prefix@ + rest@,
{
    let mut v = to_chars(prefix);
    let mut i: usize = 0;
    let ghost p = v@;
    while i < rest.len()
        invariant
            i <= rest.len(),
            v@ == p + rest@.take(i as int),
        decreases rest.len() - i,
    {
        v.push(rest[i]);
        assert(rest@.take(i + 1) == rest@.take(i as int).push(rest@[i as int]));
        i += 1;
    }
    assert(rest@.take(rest.len() as int) == rest@);
    string_from_chars(&v)
}

fn cpu_times_of(t: &Vec<Vec<char>>) -> (r: CpuTimes)
    requires
        t.len() >= 9,
    ensures
        Some(r) == (if seqs_view(t@).len() < 9 { None } else { Some(CpuTimes {
            busy: wadd(
                wadd(
                    wadd(
                        wadd(
                            wadd(tok_or_zero(seqs_view(t@)[1]), tok_or_zero(seqs_view(t@)[2])),
                            tok_or_zero(seqs_view(t@)[3]),
                        ),
                        tok_or_zero(seqs_view(t@)[6]),
                    ),
                    tok_or_zero(seqs_view(t@)[7]),
                ),
                tok_or_zero(seqs_view(t@)[8]),
            ),
            idle: wadd(tok_or_zero(seqs_view(t@)[4]), tok_or_zero(seqs_view(t@)[5])),
        }) }),
{
    let v1 = tok_or_zero_exec(&t[1]);
    let v2 = tok_or_zero_exec(&t[2]);
    let v3 = tok_or_zero_exec(&t[3]);
    let v4 = tok_or_zero_exec(&t[4]);
    let v5 = tok_or_zero_exec(&t[5]);
    let v6 = tok_or_zero_exec(&t[6]);
    let v7 = tok_or_zero_exec(&t[7]);
    let v8 = tok_or_zero_exec(&t[8]);
    CpuTimes {
        busy: v1.wrapping_add(v2).wrapping_add(v3).wrapping_add(v6).wrapping_add(v7).wrapping_add(
            v8,
        ),
        idle: v4.wrapping_add(v5),
    }
}

/// Parses /proc/stat: the `cpu` line gives the totals, each `cpuN` line one
/// core; other lines are ignored.
pub fn parse_proc_stat(s: &str) -> (r: Result<CpuSnapshot, CollectError>)
    ensures
        match r {
            Ok(c) => proc_stat_spec(s@) == Ok::<_, Seq<char>>((c.total, c.per_core@)),
            Err(CollectError::Parse(m)) => proc_stat_spec(s@) == Err::<(CpuTimes, Seq<CpuTimes>), _>(m@),
        },
{
    let chars = to_chars(s);
    let ls = split_lines(&chars);
    let ghost lv = seqs_view(ls@);
    let cpu = vec!['c', 'p', 'u'];
    let mut total: Option<CpuTimes> = None;
    let mut per_core: Vec<CpuTimes> = Vec::new();
    let mut i: usize = 0;
    while i < ls.len()
        invariant
            i <= ls.len(),
            lv == seqs_view(ls@),
            lv == lines(s@),
            cpu@ == cpu_word(),
            stat_scan(lv.take(i as int)) == Ok::<_, Seq<char>>((total, per_core@)),
        decreases ls.len() - i,
    {
        let line = &ls[i];
        assert(lv.take(i + 1).drop_last() == lv.take(i as int));
        assert(lv[i as int] == line@);
        if starts_with(line, &cpu) {
            let t = split_words(line, false);
            if t.len() < 9 {
                let m = message("short cpu line: ", line);
                proof {
                    lemma_stat_scan_err(lv, i + 1, line@);
                }
                return Err(CollectError::Parse(m));
            }
            let ct = cpu_times_of(&t);
            if chars_eq(&t[0], &cpu) {
                total = Some(ct);
            } else {
                per_core.push(ct);
            }
        }
        i += 1;
    }
    assert(lv.take(ls.len() as int) == lv);
    match total {
        Some(t) => Ok(CpuSnapshot { total: t, per_core }),
        None => Err(CollectError::Parse(String::from_str("no cpu line in /proc/stat"))),
    }
}


pub open spec fn kb_suffix() -> Seq<char> {
    seq!['k', 'B']
}

/// `trim_end_matches("kB")`: every trailing `kB` removed.
pub open spec fn strip_kb(s: Seq<char>) -> Seq<char>
    decreases s.len(),
{
    if has_suffix(s, kb_suffix()) {
        strip_kb(s.take(s.len() - 2))
    } else {
        s
    }
}

/// The kB count of a /proc/meminfo value, 0 when it does not parse.
pub open spec fn meminfo_kb(rest: Seq<char>) -> u64 {
    tok_or_zero(trim(strip_kb(trim(rest))))
}

/// (MemTotal, MemAvailable, SwapTotal, SwapFree) in bytes as last set by the
/// lines seen so far; products wrap at 2^64.
pub open spec fn meminfo_scan(ls: Seq<Seq<char>>) -> (u64, u64, u64, u64)
    decreases ls.len(),
{
    if ls.len() == 0 {
        (0, 0, 0, 0)
    } else {
        let (t, a, st, sf) = meminfo_scan(ls.drop_last());
        match split_once(ls.last(), ':') {
            None => (t, a, st, sf),
            Some((key, rest)) => {
                let b = wmul(meminfo_kb(rest), 1024);
                if key == "MemTotal"@ {
                    (b, a, st, sf)
                } else if key == "MemAvailable"@ {
                    (t, b, st, sf)
                } else if key == "SwapTotal"@ {
                    (t, a, b, sf)
                } else if key == "SwapFree"@ {
                    (t, a, st, b)
                } else {
                    (t, a, st, sf)
                }
            },
        }
    }
}

pub open spec fn sat_sub(a: u64, b: u64) -> u64 {
    if a >= b {
        (a - b) as u64
    } else {
        0
    }
}

/// What /proc/meminfo text yields: the memory figures in bytes, or an error
/// when there is no (non-zero) MemTotal.
pub open spec fn meminfo_spec(s: Seq<char>) -> Option<MemSnapshot> {
    let (t, a, st, sf) = meminfo_scan(lines(s));
    if t == 0 {
        None
    } else {
        Some(
            MemSnapshot {
                total: t,
                used: sat_sub(t, a),
                available: a,
                swap_total: st,
                swap_used: sat_sub(st, sf),
            },
        )
    }
}

fn strip_kb_exec(s: &Vec<char>) -> (r: Vec<char>)
    ensures
        r@ == strip_kb(s@),
{
    let kb = vec!['k', 'B'];
    let mut r = slice_chars(s, 0, s.len());
    assert(r@ == s@);
    while ends_with(&r, &kb)
        invariant
            kb@ == kb_suffix(),
            strip_kb(s@) == strip_kb(r@),
        decreases r.len(),
    {
        let ghost before = r@;
        r.pop();
        r.pop();
        assert(r@ == before.take(before.len() - 2));
    }
    r
}

/// Parses /proc/meminfo into bytes.
pub fn parse_meminfo(s: &str) -> (r: Result<MemSnapshot, CollectError>)
    ensures
        match r {
            Ok(m) => meminfo_spec(s@) == Some(m),
            Err(CollectError::Parse(msg)) => meminfo_spec(s@) is None && msg@
                == "no MemTotal in /proc/meminfo"@,
        },
{
    let chars = to_chars(s);
    let ls = split_lines(&chars);
    let ghost lv = seqs_view(ls@);
    let k_total = to_chars("MemTotal");
    let k_avail = to_chars("MemAvailable");
    let k_stotal = to_chars("SwapTotal");
    let k_sfree = to_chars("SwapFree");
    let mut total: u64 = 0;
    let mut available: u64 = 0;
    let mut swap_total: u64 = 0;
    let mut swap_free: u64 = 0;
    let mut i: usize = 0;
    while i < ls.len()
        invariant
            i <= ls.len(),
            lv == seqs_view(ls@),
            lv == lines(s@),
            k_total@ == "MemTotal"@,
            k_avail@ == "MemAvailable"@,
            k_stotal@ == "SwapTotal"@,
            k_sfree@ == "SwapFree"@,
            meminfo_scan(lv.take(i as int)) == (total, available, swap_total, swap_free),
        decreases ls.len() - i,
    {
        assert(lv.take(i + 1).drop_last() == lv.take(i as int));
        assert(lv[i as int] == ls@[i as int]@);
        match split_once_char(&ls[i], ':') {
            None => {},
            Some((key, rest)) => {
                let v = tok_or_zero_exec(&trim_chars(&strip_kb_exec(&trim_chars(&rest))));
                let b = v.wrapping_mul(1024);
                if chars_eq(&key, &k_total) {
                    total = b;
                } else if chars_eq(&key, &k_avail) {
                    available = b;
                } else if chars_eq(&key, &k_stotal) {
                    swap_total = b;
                } else if chars_eq(&key, &k_sfree) {
                    swap_free = b;
                }
            },
        }
        i += 1;
    }
    assert(lv.take(ls.len() as int) == lv);
    if total == 0 {
        return Err(CollectError::Parse(String::from_str("no MemTotal in /proc/meminfo")));
    }
    Ok(
        MemSnapshot {
            total,
            used: total.saturating_sub(available),
            available,
            swap_total,
            swap_used: swap_total.saturating_sub(swap_free),
        },
    )
}


pub open spec fn opt_view(o: Option<String>) -> Option<Seq<char>> {
    match o {
        Some(x) => Some(x@),
        None => None,
    }
}

impl View for NetIface {
    type V = (Seq<char>, u64, u64);

    open spec fn view(&self) -> (Seq<char>, u64, u64) {
        (self.name@, self.rx_bytes, self.tx_bytes)
    }
}

impl View for MountInfo {
    type V = (Seq<char>, u64, u64);

    open spec fn view(&self) -> (Seq<char>, u64, u64) {
        (self.mount_point@, self.total, self.available)
    }
}

impl MountInfo {
    /// A copy of the mount.
    pub fn dup(&self) -> (r: MountInfo)
        ensures
            r@ == self@,
    {
        MountInfo { mount_point: self.mount_point.clone(), total: self.total, available: self.available }
    }
}

impl NetIface {
    /// A copy of the counters.
    pub fn dup(&self) -> (r: NetIface)
        ensures
            r@ == self@,
    {
        NetIface { name: self.name.clone(), rx_bytes: self.rx_bytes, tx_bytes: self.tx_bytes }
    }
}

pub open spec fn lo_word() -> Seq<char> {
    seq!['l', 'o']
}

/// One /proc/net/dev interface line (`iface: <8 rx fields> <8 tx fields>`):
/// its name and rx/tx byte counters; None for loopback, a line without `:`,
/// or one with fewer than nine fields.
pub open spec fn net_dev_line(line: Seq<char>) -> Option<(Seq<char>, u64, u64)> {
    match split_once(line, ':') {
        None => None,
        Some((n, rest)) => {
            let name = trim(n);
            let f = words(rest, false);
            if name == lo_word() || f.len() < 9 {
                None
            } else {
                Some((name, tok_or_zero(f[0]), tok_or_zero(f[8])))
            }
        },
    }
}

/// (rx sum, tx sum, busiest traffic, busiest name, interfaces) over the
/// interface lines seen so far; sums wrap at 2^64.
pub open spec fn net_dev_scan(ls: Seq<Seq<char>>) -> (
    u64,
    u64,
    u64,
    Option<Seq<char>>,
    Seq<(Seq<char>, u64, u64)>,
)
    decreases ls.len(),
{
    if ls.len() == 0 {
        (0, 0, 0, None, seq![])
    } else {
        let (rx, tx, best, iface, all) = net_dev_scan(ls.drop_last());
        match net_dev_line(ls.last()) {
            None => (rx, tx, best, iface, all),
            Some((name, r, t)) => {
                let sum = wadd(r, t);
                if sum > best {
                    (wadd(rx, r), wadd(tx, t), sum, Some(name), all.push((name, r, t)))
                } else {
                    (wadd(rx, r), wadd(tx, t), best, iface, all.push((name, r, t)))
                }
            },
        }
    }
}

/// The interface lines of /proc/net/dev: everything after the two header lines.
pub open spec fn net_dev_body(s: Seq<char>) -> Seq<Seq<char>> {
    let ls = lines(s);
    if ls.len() >= 2 {
        ls.skip(2)
    } else {
        seq![]
    }
}

/// Parses /proc/net/dev: rx bytes is field 1, tx bytes field 9; loopback is
/// excluded from the sums, the busiest interface and the interface list.
pub fn parse_net_dev(s: &str) -> (r: NetSnapshot)
    ensures
        (r.rx_bytes, r.tx_bytes, opt_view(r.iface), r.interfaces@.map_values(|i: NetIface| i@))
            == ({
            let (rx, tx, _best, iface, all) = net_dev_scan(net_dev_body(s@));
            (rx, tx, iface, all)
        }),
{
    let chars = to_chars(s);
    let ls = split_lines(&chars);
    let ghost lv = seqs_view(ls@);
    let ghost body = net_dev_body(s@);
    let lo = vec!['l', 'o'];
    let mut rx: u64 = 0;
    let mut tx: u64 = 0;
    let mut best: u64 = 0;
    let mut iface: Option<String> = None;
    let mut all: Vec<NetIface> = Vec::new();
    if ls.len() < 2 {
        assert(body == Seq::<Seq<char>>::empty());
        return NetSnapshot { rx_bytes: 0, tx_bytes: 0, iface: None, interfaces: all };
    }
    let mut i: usize = 2;
    while i < ls.len()
        invariant
            2 <= i <= ls.len(),
            lv == seqs_view(ls@),
            lv == lines(s@),
            body == lv.skip(2),
            lo@ == lo_word(),
            net_dev_scan(body.take(i - 2)) == (
                rx,
                tx,
                best,
                opt_view(iface),
                all@.map_values(|x: NetIface| x@),
            ),
        decreases ls.len() - i,
    {
        assert(body.take(i - 2 + 1).drop_last() == body.take(i - 2));
        assert(body[i - 2] == ls@[i as int]@);
        match split_once_char(&ls[i], ':') {
            None => {},
            Some((n, rest)) => {
                let name = trim_chars(&n);
                let f = split_words(&rest, false);
                if !chars_eq(&name, &lo) && f.len() >= 9 {
                    let r = tok_or_zero_exec(&f[0]);
                    let t = tok_or_zero_exec(&f[8]);
                    let sum = r.wrapping_add(t);
                    rx = rx.wrapping_add(r);
                    tx = tx.wrapping_add(t);
                    if sum > best {
                        best = sum;
                        iface = Some(string_from_chars(&name));
                    }
                    let ghost before = all@;
                    all.push(NetIface { name: string_from_chars(&name), rx_bytes: r, tx_bytes: t });
                    assert(all@.map_values(|x: NetIface| x@) == before.map_values(
                        |x: NetIface| x@,
                    ).push((name@, r, t)));
                }
            },
        }
        i += 1;
    }
    assert(body.take(ls.len() - 2) == body);
    NetSnapshot { rx_bytes: rx, tx_bytes: tx, iface, interfaces: all }
}

/// The comm between the first `(` and the last `)` of a stat line, and the
/// whitespace-separated fields after that `)`.
pub open spec fn stat_fields(s: Seq<char>) -> Option<(Seq<char>, Seq<Seq<char>>)> {
    let open = first_index(s, '(');
    let close = last_index(s, ')');
    if open < 0 || close < 0 || open + 1 > close {
        None
    } else {
        Some((s.subrange(open + 1, close), words(s.skip(close + 1), false)))
    }
}

fn stat_fields_exec(s: &Vec<char>) -> (r: Option<(Vec<char>, Vec<Vec<char>>)>)
    ensures
        match r {
            Some((n, f)) => stat_fields(s@) == Some((n@, seqs_view(f@))),
            None => stat_fields(s@) is None,
        },
{
    proof {
        lemma_first_index_bounds(s@, '(');
        lemma_last_index_bounds(s@, ')');
    }
    let open = match find_char(s, '(') {
        Some(o) => o,
        None => return None,
    };
    let close = match rfind_char(s, ')') {
        Some(c) => c,
        None => return None,
    };
    assert(first_index(s@, '(') < s@.len());
    assert(open < s.len());
    if open >= close {
        return None;
    }
    let name = slice_chars(s, open + 1, close);
    let tail = slice_chars(s, close + 1, s.len());
    assert(tail@ == s@.skip(close + 1));
    let f = split_words(&tail, false);
    Some((name, f))
}

pub open spec fn sat_mul(a: u64, b: u64) -> u64 {
    if a * b > u64::MAX {
        u64::MAX
    } else {
        (a * b) as u64
    }
}

fn sat_mul_exec(a: u64, b: u64) -> (r: u64)
    ensures
        r == sat_mul(a, b),
{
    match a.checked_mul(b) {
        Some(v) => v,
        None => u64::MAX,
    }
}

/// utime + stime clock ticks as nanoseconds: the sum wraps, the scaling saturates.
pub open spec fn ticks_ns(utime: u64, stime: u64, clk_tck: u64) -> u64 {
    sat_mul(wadd(utime, stime), (1_000_000_000u64 / (if clk_tck >= 1 { clk_tck } else { 1u64 })) as u64)
}

fn ticks_ns_exec(utime: u64, stime: u64, clk_tck: u64) -> (r: u64)
    ensures
        r == ticks_ns(utime, stime, clk_tck),
{
    let clk = if clk_tck >= 1 {
        clk_tck
    } else {
        1
    };
    sat_mul_exec(utime.wrapping_add(stime), 1_000_000_000 / clk)
}

/// The parent pid field: a decimal that fits an i32, else 0 (unknown).
pub open spec fn ppid_of(t: Seq<char>) -> i32 {
    match parse_u64(t) {
        Some(v) => if v <= i32::MAX {
            v as i32
        } else {
            0
        },
        None => 0,
    }
}

/// What one /proc/[pid]/stat line yields: (comm, ppid, cpu ns, rss bytes),
/// None when the comm parens or the utime, stime or rss fields are missing
/// or malformed.
pub open spec fn pid_stat_spec(s: Seq<char>, clk_tck: u64, page_size: u64) -> Option<
    (Seq<char>, i32, u64, u64),
> {
    match stat_fields(s) {
        None => None,
        Some((name, rest)) => {
            if rest.len() < 22 || parse_u64(rest[11]) is None || parse_u64(rest[12]) is None
                || parse_u64(rest[21]) is None {
                None
            } else {
                Some(
                    (
                        name,
                        ppid_of(rest[1]),
                        ticks_ns(parse_u64(rest[11]).unwrap(), parse_u64(rest[12]).unwrap(), clk_tck),
                        wmul(parse_u64(rest[21]).unwrap(), page_size),
                    ),
                )
            }
        },
    }
}

/// Parses one /proc/[pid]/stat line; the comm sits in parens and may contain
/// anything, so it ends at the LAST `)`.
pub fn parse_pid_stat(pid: i32, s: &str, clk_tck: u64, page_size: u64) -> (r: Option<ProcessInfo>)
    ensures
        match r {
            Some(p) => pid_stat_spec(s@, clk_tck, page_size) == Some((p.name@, p.ppid, p.cpu_ns, p.rss))
                && p.pid == pid && p.disk_read is None && p.disk_written is None && p.threads@.len()
                == 0,
            None => pid_stat_spec(s@, clk_tck, page_size) is None,
        },
{
    let chars = to_chars(s);
    let (name, rest) = match stat_fields_exec(&chars) {
        Some(x) => x,
        None => return None,
    };
    if rest.len() < 22 {
        return None;
    }
    let utime = match parse_u64_chars(&rest[11]) {
        Some(v) => v,
        None => return None,
    };
    let stime = match parse_u64_chars(&rest[12]) {
        Some(v) => v,
        None => return None,
    };
    let rss_pages = match parse_u64_chars(&rest[21]) {
        Some(v) => v,
        None => return None,
    };
    let ppid: i32 = match parse_u64_chars(&rest[1]) {
        Some(v) => if v <= 2147483647 {
            v as i32
        } else {
            0
        },
        None => 0,
    };
    Some(
        ProcessInfo {
            pid,
            ppid,
            name: string_from_chars(&name),
            cpu_ns: ticks_ns_exec(utime, stime, clk_tck),
            rss: rss_pages.wrapping_mul(page_size),
            disk_read: None,
            disk_written: None,
            threads: Vec::new(),
        },
    )
}

/// What one /proc/[pid]/task/[tid]/stat line yields: (comm, cpu ns).
pub open spec fn tid_stat_spec(s: Seq<char>, clk_tck: u64) -> Option<(Seq<char>, u64)> {
    match stat_fields(s) {
        None => None,
        Some((name, rest)) => {
            if rest.len() < 13 || parse_u64(rest[11]) is None || parse_u64(rest[12]) is None {
                None
            } else {
                Some(
                    (
                        name,
                        ticks_ns(parse_u64(rest[11]).unwrap(), parse_u64(rest[12]).unwrap(), clk_tck),
                    ),
                )
            }
        },
    }
}

/// Parses one /proc/[pid]/task/[tid]/stat line; same layout as the pid stat.
pub fn parse_tid_stat(tid: u64, s: &str, clk_tck: u64) -> (r: Option<ThreadInfo>)
    ensures
        match r {
            Some(t) => tid_stat_spec(s@, clk_tck) == Some((t.name@, t.cpu_ns)) && t.tid == tid,
            None => tid_stat_spec(s@, clk_tck) is None,
        },
{
    let chars = to_chars(s);
    let (name, rest) = match stat_fields_exec(&chars) {
        Some(x) => x,
        None => return None,
    };
    if rest.len() < 13 {
        return None;
    }
    let utime = match parse_u64_chars(&rest[11]) {
        Some(v) => v,
        None => return None,
    };
    let stime = match parse_u64_chars(&rest[12]) {
        Some(v) => v,
        None => return None,
    };
    Some(ThreadInfo { tid, name: string_from_chars(&name), cpu_ns: ticks_ns_exec(utime, stime, clk_tck) })
}

/// (read_bytes, write_bytes) as last set by the /proc/[pid]/io lines seen so far.
pub open spec fn pid_io_scan(ls: Seq<Seq<char>>) -> (Option<u64>, Option<u64>)
    decreases ls.len(),
{
    if ls.len() == 0 {
        (None, None)
    } else {
        let (r, w) = pid_io_scan(ls.drop_last());
        match split_once(ls.last(), ':') {
            None => (r, w),
            Some((k, v)) => if k == "read_bytes"@ {
                (parse_u64(trim(v)), w)
            } else if k == "write_bytes"@ {
                (r, parse_u64(trim(v)))
            } else {
                (r, w)
            },
        }
    }
}

/// Parses /proc/[pid]/io: the block-layer `read_bytes` and `write_bytes`,
/// None unless both are present and numeric.
pub fn parse_pid_io(s: &str) -> (r: Option<(u64, u64)>)
    ensures
        r == (match pid_io_scan(lines(s@)) {
            (Some(a), Some(b)) => Some((a, b)),
            _ => None,
        }),
{
    let chars = to_chars(s);
    let ls = split_lines(&chars);
    let ghost lv = seqs_view(ls@);
    let k_read = to_chars("read_bytes");
    let k_write = to_chars("write_bytes");
    let mut read: Option<u64> = None;
    let mut write: Option<u64> = None;
    let mut i: usize = 0;
    while i < ls.len()
        invariant
            i <= ls.len(),
            lv == seqs_view(ls@),
            lv == lines(s@),
            k_read@ == "read_bytes"@,
            k_write@ == "write_bytes"@,
            pid_io_scan(lv.take(i as int)) == (read, write),
        decreases ls.len() - i,
    {
        assert(lv.take(i + 1).drop_last() == lv.take(i as int));
        assert(lv[i as int] == ls@[i as int]@);
        match split_once_char(&ls[i], ':') {
            None => {},
            Some((k, v)) => {
                if chars_eq(&k, &k_read) {
                    read = parse_u64_chars(&trim_chars(&v));
                } else if chars_eq(&k, &k_write) {
                    write = parse_u64_chars(&trim_chars(&v));
                }
            },
        }
        i += 1;
    }
    assert(lv.take(ls.len() as int) == lv);
    match (read, write) {
        (Some(a), Some(b)) => Some((a, b)),
        _ => None,
    }
}

/// A disk's counters with the name as characters.
pub struct DiskStatsModel {
    pub name: Seq<char>,
    pub read_bytes: u64,
    pub written_bytes: u64,
    pub read_ops: u64,
    pub write_ops: u64,
    pub busy_time_ns: Option<u64>,
    pub io_time_ns: Option<u64>,
    pub weighted_ns: Option<u64>,
}

impl View for DiskStats {
    type V = DiskStatsModel;

    open spec fn view(&self) -> DiskStatsModel {
        DiskStatsModel {
            name: self.name@,
            read_bytes: self.read_bytes,
            written_bytes: self.written_bytes,
            read_ops: self.read_ops,
            write_ops: self.write_ops,
            busy_time_ns: self.busy_time_ns,
            io_time_ns: self.io_time_ns,
            weighted_ns: self.weighted_ns,
        }
    }
}

/// One /proc/diskstats line (major minor name, then at least 11 counters):
/// sectors are 512 bytes, times milliseconds; products wrap at 2^64.
pub open spec fn diskstats_line(line: Seq<char>) -> Option<DiskStatsModel> {
    let f = words(line, false);
    if f.len() < 14 {
        None
    } else {
        Some(
            DiskStatsModel {
                name: f[2],
                read_ops: tok_or_zero(f[3]),
                read_bytes: wmul(tok_or_zero(f[5]), 512),
                written_bytes: wmul(tok_or_zero(f[9]), 512),
                write_ops: tok_or_zero(f[7]),
                io_time_ns: Some(wmul(wadd(tok_or_zero(f[6]), tok_or_zero(f[10])), 1_000_000)),
                busy_time_ns: Some(wmul(tok_or_zero(f[12]), 1_000_000)),
                weighted_ns: Some(wmul(tok_or_zero(f[13]), 1_000_000)),
            },
        )
    }
}

/// The disks of the /proc/diskstats lines seen so far, in order.
pub open spec fn diskstats_scan(ls: Seq<Seq<char>>) -> Seq<DiskStatsModel>
    decreases ls.len(),
{
    if ls.len() == 0 {
        seq![]
    } else {
        match diskstats_line(ls.last()) {
            None => diskstats_scan(ls.drop_last()),
            Some(d) => diskstats_scan(ls.drop_last()).push(d),
        }
    }
}

/// Parses /proc/diskstats; short lines are skipped.
pub fn parse_diskstats(s: &str) -> (r: Vec<DiskStats>)
    ensures
        r@.map_values(|d: DiskStats| d@) == diskstats_scan(lines(s@)),
{
    let chars = to_chars(s);
    let ls = split_lines(&chars);
    let ghost lv = seqs_view(ls@);
    let mut out: Vec<DiskStats> = Vec::new();
    let mut i: usize = 0;
    while i < ls.len()
        invariant
            i <= ls.len(),
            lv == seqs_view(ls@),
            lv == lines(s@),
            out@.map_values(|d: DiskStats| d@) == diskstats_scan(lv.take(i as int)),
        decreases ls.len() - i,
    {
        assert(lv.take(i + 1).drop_last() == lv.take(i as int));
        assert(lv[i as int] == ls@[i as int]@);
        let f = split_words(&ls[i], false);
        if f.len() >= 14 {
            let n3 = tok_or_zero_exec(&f[3]);
            let n5 = tok_or_zero_exec(&f[5]);
            let n6 = tok_or_zero_exec(&f[6]);
            let n7 = tok_or_zero_exec(&f[7]);
            let n9 = tok_or_zero_exec(&f[9]);
            let n10 = tok_or_zero_exec(&f[10]);
            let n12 = tok_or_zero_exec(&f[12]);
            let n13 = tok_or_zero_exec(&f[13]);
            let d = DiskStats {
                name: string_from_chars(&f[2]),
                read_ops: n3,
                read_bytes: n5.wrapping_mul(512),
                written_bytes: n9.wrapping_mul(512),
                write_ops: n7,
                io_time_ns: Some(n6.wrapping_add(n10).wrapping_mul(1_000_000)),
                busy_time_ns: Some(n12.wrapping_mul(1_000_000)),
                weighted_ns: Some(n13.wrapping_mul(1_000_000)),
            };
            let ghost before = out@;
            out.push(d);
            assert(out@.map_values(|d: DiskStats| d@) == before.map_values(|d: DiskStats| d@).push(
                d@,
            ));
        }
        i += 1;
    }
    assert(lv.take(ls.len() as int) == lv);
    out
}

/// The value of a /proc/cpuinfo `model name` line.
pub open spec fn model_line(line: Seq<char>) -> Option<Seq<char>> {
    match split_once(line, ':') {
        None => None,
        Some((k, v)) => if trim(k) == "model name"@ {
            Some(trim(v))
        } else {
            None
        },
    }
}

/// The first `model name` value among the lines.
pub open spec fn cpuinfo_scan(ls: Seq<Seq<char>>) -> Option<Seq<char>>
    decreases ls.len(),
{
    if ls.len() == 0 {
        None
    } else {
        match model_line(ls[0]) {
            Some(v) => Some(v),
            None => cpuinfo_scan(ls.drop_first()),
        }
    }
}

/// The /proc/cpuinfo `model name` value; None when absent (arm SBCs).
pub fn parse_cpuinfo_model(s: &str) -> (r: Option<String>)
    ensures
        opt_view(r) == cpuinfo_scan(lines(s@)),
{
    let chars = to_chars(s);
    let ls = split_lines(&chars);
    let ghost lv = seqs_view(ls@);
    let key = to_chars("model name");
    let mut i: usize = 0;
    assert(lv.skip(0) == lv);
    while i < ls.len()
        invariant
            i <= ls.len(),
            lv == seqs_view(ls@),
            lv == lines(s@),
            key@ == "model name"@,
            cpuinfo_scan(lv) == cpuinfo_scan(lv.skip(i as int)),
        decreases ls.len() - i,
    {
        assert(lv.skip(i as int)[0] == ls@[i as int]@);
        assert(lv.skip(i as int).drop_first() == lv.skip(i + 1));
        match split_once_char(&ls[i], ':') {
            None => {},
            Some((k, v)) => {
                if chars_eq(&trim_chars(&k), &key) {
                    return Some(string_from_chars(&trim_chars(&v)));
                }
            },
        }
        i += 1;
    }
    None
}

/// `s` without its leading non-digit characters.
pub open spec fn skip_nondigits(s: Seq<char>) -> Seq<char>
    decreases s.len(),
{
    if s.len() > 0 && !is_digit(s[0]) {
        skip_nondigits(s.drop_first())
    } else {
        s
    }
}

/// Numeric suffix of a hwmon directory name (`hwmon12` -> 12); names that do
/// not end in a number sort last.
pub fn hwmon_index(name: &str) -> (r: u64)
    ensures
        r == (match parse_u64(skip_nondigits(name@)) {
            Some(v) => v,
            None => u64::MAX,
        }),
{
    let chars = to_chars(name);
    let mut lo: usize = 0;
    assert(chars@.skip(0) == chars@);
    while lo < chars.len() && !('0' <= chars[lo] && chars[lo] <= '9')
        invariant
            lo <= chars.len(),
            skip_nondigits(name@) == skip_nondigits(chars@.skip(lo as int)),
            chars@ == name@,
        decreases chars.len() - lo,
    {
        assert(chars@.skip(lo as int).drop_first() == chars@.skip(lo + 1));
        lo += 1;
    }
    let rest = slice_chars(&chars, lo, chars.len());
    assert(rest@ == chars@.skip(lo as int));
    match parse_u64_chars(&rest) {
        Some(v) => v,
        None => u64::MAX,
    }
}


pub open spec fn is_octal(b: u8) -> bool {
    48 <= b && b <= 55
}

/// /proc/self/mounts octal escapes (`\040` = space) undone on the raw bytes;
/// an escape's value is taken modulo 256 and a backslash without three octal
/// digits after it stays as it is.
pub open spec fn unescape_bytes(b: Seq<u8>) -> Seq<u8>
    decreases b.len(),
{
    if b.len() == 0 {
        seq![]
    } else if b[0] == 92 && 3 < b.len() && is_octal(b[1]) && is_octal(b[2]) && is_octal(b[3]) {
        seq![((((b[1] - 48) * 64 + (b[2] - 48) * 8 + (b[3] - 48)) % 256) as u8)] + unescape_bytes(
            b.skip(4),
        )
    } else {
        seq![b[0]] + unescape_bytes(b.drop_first())
    }
}

/// What `String::from_utf8_lossy` makes of a byte string.
pub uninterp spec fn utf8_lossy(b: Seq<u8>) -> Seq<char>;

/// `String::from_utf8_lossy`: the bytes decoded as UTF-8, invalid sequences
/// replaced by U+FFFD; the contract names that result and states that valid
/// UTF-8 decodes exactly.
#[verifier::external_body]
pub(crate) fn string_from_utf8_lossy(b: &Vec<u8>) -> (s: String)
    ensures
        s@ == utf8_lossy(b@),
        vstd::utf8::valid_utf8(b@) ==> s@ == vstd::utf8::decode_utf8(b@),
{
    String::from_utf8_lossy(b).into_owned()
}

/// Undoes the octal escapes /proc/self/mounts puts in paths, so the path can
/// be handed to statvfs.
pub fn unescape_mount(s: &str) -> (r: String)
    ensures
        r@ == utf8_lossy(unescape_bytes(s.spec_bytes())),
        vstd::utf8::valid_utf8(unescape_bytes(s.spec_bytes())) ==> r@ == vstd::utf8::decode_utf8(
            unescape_bytes(s.spec_bytes()),
        ),
{
    let b = s.as_bytes();
    let mut out: Vec<u8> = Vec::new();
    let mut i: usize = 0;
    assert(b@.skip(0) == b@);
    while i < b.len()
        invariant
            i <= b@.len(),
            b@ == s.spec_bytes(),
            unescape_bytes(b@) == out@ + unescape_bytes(b@.skip(i as int)),
        decreases b@.len() - i,
    {
        let ghost rest = b@.skip(i as int);
        if b[i] == 92 && b.len() - i > 3 && 48 <= b[i + 1] && b[i + 1] <= 55 && 48 <= b[i + 2]
            && b[i + 2] <= 55 && 48 <= b[i + 3] && b[i + 3] <= 55 {
            let v: u32 = ((b[i + 1] - 48) as u32) * 64 + ((b[i + 2] - 48) as u32) * 8 + ((b[i + 3]
                - 48) as u32);
            let byte = (v % 256) as u8;
            assert(rest.skip(4) == b@.skip(i + 4));
            assert(rest[1] == b@[i + 1] && rest[2] == b@[i + 2] && rest[3] == b@[i + 3]);
            out.push(byte);
            i += 4;
        } else {
            assert(rest.drop_first() == b@.skip(i + 1));
            out.push(b[i]);
            i += 1;
        }
    }
    assert(b@.skip(i as int) == Seq::<u8>::empty());
    assert(out@ + Seq::<u8>::empty() == out@);
    string_from_utf8_lossy(&out)
}

/// File systems worth showing; pseudo and overlay mounts are noise.
pub open spec fn is_real_fs(fs: Seq<char>) -> bool {
    fs == "ext2"@ || fs == "ext3"@ || fs == "ext4"@ || fs == "xfs"@ || fs == "btrfs"@ || fs
        == "zfs"@ || fs == "f2fs"@ || fs == "vfat"@ || fs == "ntfs"@
}

fn is_real_fs_exec(fs: &Vec<char>) -> (r: bool)
    ensures
        r == is_real_fs(fs@),
{
    chars_eq(fs, &to_chars("ext2")) || chars_eq(fs, &to_chars("ext3")) || chars_eq(
        fs,
        &to_chars("ext4"),
    ) || chars_eq(fs, &to_chars("xfs")) || chars_eq(fs, &to_chars("btrfs")) || chars_eq(
        fs,
        &to_chars("zfs"),
    ) || chars_eq(fs, &to_chars("f2fs")) || chars_eq(fs, &to_chars("vfat")) || chars_eq(
        fs,
        &to_chars("ntfs"),
    )
}

/// A mount line's (device, unescaped mount point, fs type), if its fs is real.
pub open spec fn mount_line(line: Seq<char>) -> Option<(Seq<char>, Seq<char>, Seq<char>)> {
    let w = words(line, false);
    if w.len() < 3 || !is_real_fs(w[2]) {
        None
    } else {
        Some((w[0], utf8_lossy(unescape_bytes(vstd::utf8::encode_utf8(w[1]))), w[2]))
    }
}

pub open spec fn mounts_scan(ls: Seq<Seq<char>>) -> Seq<(Seq<char>, Seq<char>, Seq<char>)>
    decreases ls.len(),
{
    if ls.len() == 0 {
        seq![]
    } else {
        match mount_line(ls.last()) {
            None => mounts_scan(ls.drop_last()),
            Some(m) => mounts_scan(ls.drop_last()).push(m),
        }
    }
}

pub open spec fn triple_view(t: (String, String, String)) -> (Seq<char>, Seq<char>, Seq<char>) {
    (t.0@, t.1@, t.2@)
}

/// Parses /proc/self/mounts into (device, mount point, fs type), keeping
/// real file systems only.
pub fn parse_mounts(s: &str) -> (r: Vec<(String, String, String)>)
    ensures
        r@.map_values(|t: (String, String, String)| triple_view(t)) == mounts_scan(lines(s@)),
{
    let chars = to_chars(s);
    let ls = split_lines(&chars);
    let ghost lv = seqs_view(ls@);
    let mut out: Vec<(String, String, String)> = Vec::new();
    let mut i: usize = 0;
    while i < ls.len()
        invariant
            i <= ls.len(),
            lv == seqs_view(ls@),
            lv == lines(s@),
            out@.map_values(|t: (String, String, String)| triple_view(t)) == mounts_scan(
                lv.take(i as int),
            ),
        decreases ls.len() - i,
    {
        assert(lv.take(i + 1).drop_last() == lv.take(i as int));
        assert(lv[i as int] == ls@[i as int]@);
        let w = split_words(&ls[i], false);
        if w.len() >= 3 && is_real_fs_exec(&w[2]) {
            let point = string_from_chars(&w[1]);
            let t = (string_from_chars(&w[0]), unescape_mount(point.as_str()), string_from_chars(&w[2]));
            let ghost before = out@;
            out.push(t);
            assert(out@.map_values(|t: (String, String, String)| triple_view(t)) == before.map_values(
                |t: (String, String, String)| triple_view(t),
            ).push(triple_view(t)));
        }
        i += 1;
    }
    assert(lv.take(ls.len() as int) == lv);
    out
}

/// 10 to the power `n`.
pub open spec fn pow10(n: nat) -> nat
    decreases n,
{
    if n == 0 {
        1
    } else {
        10 * pow10((n - 1) as nat)
    }
}

/// `x` kept to u64, saturating.
pub open spec fn sat64(x: nat) -> u64 {
    if x > u64::MAX {
        u64::MAX
    } else {
        x as u64
    }
}

/// The code of `c` with ASCII capitals lowercased.
pub open spec fn ascii_lower(c: char) -> u32 {
    if 'A' <= c && c <= 'Z' {
        (c as u32 + 32) as u32
    } else {
        c as u32
    }
}

/// `s` equals the lowercase word `w`, letter case aside.
pub open spec fn eq_ignore_case(s: Seq<char>, w: Seq<char>) -> bool {
    s.len() == w.len() && forall|i: int| 0 <= i < s.len() ==> ascii_lower(#[trigger] s[i]) == w[i] as u32
}

/// The integer part of the decimal whose digits are `all` with the point
/// after `point` of them (before the first when `point` is not positive).
pub open spec fn int_part(all: Seq<char>, point: int) -> nat {
    if point <= 0 {
        0
    } else if point <= all.len() {
        digits_value(all.take(point))
    } else {
        digits_value(all) * pow10((point - all.len()) as nat)
    }
}

/// Where the exponent marker of a float stands, or -1.
pub open spec fn exp_index(b: Seq<char>) -> int {
    if first_index(b, 'e') >= 0 {
        first_index(b, 'e')
    } else {
        first_index(b, 'E')
    }
}

/// The digits before and after the point of a mantissa.
pub open spec fn split_point(mant: Seq<char>) -> (Seq<char>, Seq<char>) {
    let d = first_index(mant, '.');
    if d < 0 {
        (mant, Seq::<char>::empty())
    } else {
        (mant.take(d), mant.skip(d + 1))
    }
}

/// A number's text split at its exponent marker: the mantissa, whether an
/// exponent is there, whether it is negative, and its digits.
pub open spec fn split_exp(b: Seq<char>) -> (Seq<char>, bool, bool, Seq<char>) {
    let k = exp_index(b);
    if k < 0 {
        (b, false, false, Seq::<char>::empty())
    } else {
        let ex = b.skip(k + 1);
        let eneg = ex.len() > 0 && ex[0] == '-';
        let ed = if ex.len() > 0 && (ex[0] == '+' || ex[0] == '-') { ex.drop_first() } else { ex };
        (b.take(k), true, eneg, ed)
    }
}

/// An unsigned finite number's whole part, saturating: digits with at most
/// one point and at least one digit, then an optional exponent `e`/`E`,
/// `[+-]`, digits. Other text is None.
pub open spec fn finite_secs(b: Seq<char>) -> Option<u64> {
    let (mant, has_exp, eneg, ed) = split_exp(b);
    let (ip, fp) = split_point(mant);
    let e: int = if !has_exp { 0 } else if eneg { -digits_value(ed) } else { digits_value(ed) as int };
    if all_digits(ip) && all_digits(fp) && ip.len() + fp.len() > 0 && (!has_exp || (all_digits(ed) && ed.len() > 0)) {
        Some(sat64(int_part(ip + fp, ip.len() + e)))
    } else {
        None
    }
}

/// The whole seconds that parsing `t` as f64 and casting to u64 gives:
/// `[+-]` then `inf`, `infinity` or `nan` in any case (infinity saturates,
/// NaN and negatives give 0), or a finite number (see `finite_secs`),
/// truncated toward zero and saturating at u64::MAX. Other text is None.
pub open spec fn float_secs(t: Seq<char>) -> Option<u64> {
    let neg = t.len() > 0 && t[0] == '-';
    let b = if t.len() > 0 && (t[0] == '+' || t[0] == '-') {
        t.drop_first()
    } else {
        t
    };
    if eq_ignore_case(b, seq!['i', 'n', 'f']) || eq_ignore_case(b, seq!['i', 'n', 'f', 'i', 'n', 'i', 't', 'y']) {
        Some(if neg { 0 } else { u64::MAX })
    } else if eq_ignore_case(b, seq!['n', 'a', 'n']) {
        Some(0)
    } else if neg {
        match finite_secs(b) {
            Some(_) => Some(0),
            None => None,
        }
    } else {
        finite_secs(b)
    }
}

fn eq_ignore_case_exec(s: &Vec<char>, w: &Vec<char>) -> (r: bool)
    ensures
        r == eq_ignore_case(s@, w@),
{
    if s.len() != w.len() {
        return false;
    }
    let mut i: usize = 0;
    while i < s.len()
        invariant
            i <= s.len() == w.len(),
            forall|j: int| 0 <= j < i ==> ascii_lower(#[trigger] s@[j]) == w@[j] as u32,
        decreases s.len() - i,
    {
        let c = s[i];
        let l: u32 = if 'A' <= c && c <= 'Z' { c as u32 + 32 } else { c as u32 };
        if l != w[i] as u32 {
            assert(ascii_lower(s@[i as int]) != w@[i as int] as u32);
            return false;
        }
        i += 1;
    }
    true
}

proof fn lemma_pow10_pos(n: nat)
    ensures
        pow10(n) >= 1,
    decreases n,
{
    if n > 0 {
        lemma_pow10_pos((n - 1) as nat);
    }
}

proof fn lemma_pow10_mono(a: nat, b: nat)
    requires
        a <= b,
    ensures
        pow10(a) <= pow10(b),
    decreases b,
{
    if a < b {
        lemma_pow10_mono(a, (b - 1) as nat);
        lemma_pow10_pos((b - 1) as nat);
    }
}

proof fn lemma_pow10_20()
    ensures
        pow10(20) > u64::MAX,
{
    reveal_with_fuel(pow10, 21);
}

/// The value of a digit string, saturating at u128::MAX.
fn digits_sat128(s: &Vec<char>) -> (r: u128)
    requires
        all_digits(s@),
    ensures
        r == (if digits_value(s@) > u128::MAX { u128::MAX } else { digits_value(s@) as u128 }),
{
    let mut v: u128 = 0;
    let mut i: usize = 0;
    while i < s.len()
        invariant
            i <= s.len(),
            all_digits(s@),
            v == (if digits_value(s@.take(i as int)) > u128::MAX {
                u128::MAX
            } else {
                digits_value(s@.take(i as int)) as u128
            }),
        decreases s.len() - i,
    {
        assert(s@.take(i + 1).drop_last() == s@.take(i as int));
        assert(is_digit(s@[i as int]));
        let d = (s[i] as u32 - '0' as u32) as u128;
        assert(digits_value(s@.take(i + 1)) == digits_value(s@.take(i as int)) * 10 + d);
        if v == u128::MAX {
            v = u128::MAX;
        } else {
            v = match v.checked_mul(10) {
                Some(m) => match m.checked_add(d) {
                    Some(n) => n,
                    None => u128::MAX,
                },
                None => u128::MAX,
            };
        }
        i += 1;
    }
    assert(s@.take(s.len() as int) == s@);
    v
}

/// The integer part, saturating, of the digits `all` with the point after
/// the first `ipl` moved by the exponent `e` (given saturated as `ev`).
fn int_part_sat(all: &Vec<char>, ipl: usize, eneg: bool, ev: u128, Ghost(e): Ghost<nat>) -> (r: u64)
    requires
        ipl <= all.len(),
        all_digits(all@),
        ev == (if e > u128::MAX { u128::MAX } else { e as u128 }),
    ensures
        r == sat64(int_part(all@, if eneg { ipl - e } else { ipl + e })),
{
    if eneg {
        if ev >= ipl as u128 {
            return 0;
        }
        let point = ipl - ev as usize;
        let head = slice_chars(all, 0, point);
        assert(head@ == all@.take(point as int));
        return digits_sat(&head);
    }
    let d = digits_sat(all);
    if ev >= 0x10_0000_0000_0000_0000_0000_0000u128 {
        proof {
            let z = (ipl + e - all.len()) as nat;
            lemma_pow10_mono(20, z);
            lemma_pow10_20();
            let x = digits_value(all@);
            if x > 0 {
                assert(x * pow10(z) >= pow10(z)) by (nonlinear_arith)
                    requires
                        x >= 1,
                ;
            } else {
                assert(x * pow10(z) == 0) by (nonlinear_arith)
                    requires
                        x == 0,
                ;
            }
        }
        return if d == 0 { 0 } else { u64::MAX };
    }
    let point: u128 = ipl as u128 + ev;
    if point <= all.len() as u128 {
        let head = slice_chars(all, 0, point as usize);
        assert(head@ == all@.take(point as int));
        return digits_sat(&head);
    }
    let z: u128 = point - all.len() as u128;
    let ghost x = digits_value(all@);
    let mut v = d;
    let mut j: u128 = 0;
    proof {
        assert(pow10(0) == 1);
        assert(x * pow10(0) == x) by (nonlinear_arith)
            requires
                pow10(0) == 1,
        ;
    }
    while j < z && v != 0 && v != u64::MAX
        invariant
            j <= z,
            v == sat64(x * pow10(j as nat)),
        decreases z - j,
    {
        proof {
            assert(pow10((j + 1) as nat) == 10 * pow10(j as nat));
            assert(x * pow10((j + 1) as nat) == (x * pow10(j as nat)) * 10) by (nonlinear_arith)
                requires
                    pow10((j + 1) as nat) == 10 * pow10(j as nat),
            ;
        }
        v = if v > u64::MAX / 10 { u64::MAX } else { v * 10 };
        j = j + 1;
    }
    proof {
        lemma_pow10_mono(j as nat, z as nat);
        lemma_pow10_pos(j as nat);
        if v == 0 {
            assert(x == 0) by (nonlinear_arith)
                requires
                    x * pow10(j as nat) == 0,
                    pow10(j as nat) >= 1,
            ;
        } else if v == u64::MAX {
            assert(x * pow10(z as nat) >= x * pow10(j as nat)) by (nonlinear_arith)
                requires
                    pow10(j as nat) <= pow10(z as nat),
            ;
        }
    }
    v
}

fn all_digits_exec(s: &Vec<char>) -> (r: bool)
    ensures
        r == all_digits(s@),
{
    let mut i: usize = 0;
    while i < s.len()
        invariant
            i <= s.len(),
            all_digits(s@.take(i as int)),
        decreases s.len() - i,
    {
        if !('0' <= s[i] && s[i] <= '9') {
            assert(!is_digit(s@[i as int]));
            return false;
        }
        assert(s@.take(i + 1) =~= s@.take(i as int).push(s@[i as int]));
        i += 1;
    }
    assert(s@.take(s.len() as int) == s@);
    true
}

/// The value of a digit string, saturating at u64::MAX.
fn digits_sat(s: &Vec<char>) -> (r: u64)
    requires
        all_digits(s@),
    ensures
        r == (if digits_value(s@) > u64::MAX { u64::MAX } else { digits_value(s@) as u64 }),
{
    let mut v: u64 = 0;
    let mut i: usize = 0;
    while i < s.len()
        invariant
            i <= s.len(),
            all_digits(s@),
            v == (if digits_value(s@.take(i as int)) > u64::MAX {
                u64::MAX
            } else {
                digits_value(s@.take(i as int)) as u64
            }),
        decreases s.len() - i,
    {
        assert(s@.take(i + 1).drop_last() == s@.take(i as int));
        assert(is_digit(s@[i as int]));
        let d = (s[i] as u32 - '0' as u32) as u64;
        assert(digits_value(s@.take(i + 1)) == digits_value(s@.take(i as int)) * 10 + d);
        if v == u64::MAX {
            v = u64::MAX;
        } else {
            v = match v.checked_mul(10) {
                Some(m) => match m.checked_add(d) {
                    Some(n) => n,
                    None => u64::MAX,
                },
                None => u64::MAX,
            };
        }
        i += 1;
    }
    assert(s@.take(s.len() as int) == s@);
    v
}

fn split_exp_exec(b: &Vec<char>) -> (r: (Vec<char>, bool, bool, Vec<char>))
    ensures
        (r.0@, r.1, r.2, r.3@) == split_exp(b@),
{
    proof {
        lemma_first_index_bounds(b@, 'e');
        lemma_first_index_bounds(b@, 'E');
    }
    let ke = find_char(b, 'e');
    let k: Option<usize> = match ke {
        Some(i) => Some(i),
        None => find_char(b, 'E'),
    };
    assert(k matches Some(i) ==> i < b.len() && i == exp_index(b@));
    assert(k is None ==> exp_index(b@) < 0);
    match k {
        None => (slice_chars(b, 0, b.len()), false, false, Vec::new()),
        Some(i) => {
            let ex = slice_chars(b, i + 1, b.len());
            let eneg = ex.len() > 0 && ex[0] == '-';
            let estart: usize = if ex.len() > 0 && (ex[0] == '+' || ex[0] == '-') {
                1
            } else {
                0
            };
            let ed = slice_chars(&ex, estart, ex.len());
            assert(ed@ == (if ex@.len() > 0 && (ex@[0] == '+' || ex@[0] == '-') {
                ex@.drop_first()
            } else {
                ex@
            }));
            (slice_chars(b, 0, i), true, eneg, ed)
        },
    }
}

fn split_point_exec(mant: &Vec<char>) -> (r: (Vec<char>, Vec<char>))
    ensures
        (r.0@, r.1@) == split_point(mant@),
{
    proof {
        lemma_first_index_bounds(mant@, '.');
    }
    let fd = find_char(mant, '.');
    assert(fd matches Some(d) ==> d < mant.len());
    match fd {
        Some(d) => (slice_chars(mant, 0, d), slice_chars(mant, d + 1, mant.len())),
        None => (slice_chars(mant, 0, mant.len()), Vec::new()),
    }
}

fn finite_secs_exec(b: &Vec<char>) -> (r: Option<u64>)
    ensures
        r == finite_secs(b@),
{
    let (mant, has_exp, eneg, ed) = split_exp_exec(b);
    let (ip, fp) = split_point_exec(&mant);
    let exp_ok = !has_exp || (all_digits_exec(&ed) && ed.len() > 0);
    if !(all_digits_exec(&ip) && all_digits_exec(&fp) && (ip.len() > 0 || fp.len() > 0) && exp_ok) {
        return None;
    }
    let all = concat_chars(&ip, &fp);
    assert(all_digits(all@)) by {
        assert forall|i: int| 0 <= i < all@.len() implies is_digit(#[trigger] all@[i]) by {
            if i < ip@.len() {
                assert(all@[i] == ip@[i]);
            } else {
                assert(all@[i] == fp@[i - ip@.len()]);
            }
        }
    }
    let ev: u128 = if has_exp { digits_sat128(&ed) } else { 0 };
    let ghost e: nat = if has_exp { digits_value(ed@) } else { 0 };
    Some(int_part_sat(&all, ip.len(), eneg && has_exp, ev, Ghost(e)))
}

/// A float's text as whole seconds (see `float_secs`).
fn float_secs_exec(t: &Vec<char>) -> (r: Option<u64>)
    ensures
        r == float_secs(t@),
{
    let neg = t.len() > 0 && t[0] == '-';
    let start: usize = if t.len() > 0 && (t[0] == '+' || t[0] == '-') {
        1
    } else {
        0
    };
    let b = slice_chars(t, start, t.len());
    assert(b@ == (if t@.len() > 0 && (t@[0] == '+' || t@[0] == '-') {
        t@.drop_first()
    } else {
        t@
    }));
    let inf = vec!['i', 'n', 'f'];
    let infinity = vec!['i', 'n', 'f', 'i', 'n', 'i', 't', 'y'];
    let nan = vec!['n', 'a', 'n'];
    assert(inf@ =~= seq!['i', 'n', 'f']);
    assert(infinity@ =~= seq!['i', 'n', 'f', 'i', 'n', 'i', 't', 'y']);
    assert(nan@ =~= seq!['n', 'a', 'n']);
    if eq_ignore_case_exec(&b, &inf) || eq_ignore_case_exec(&b, &infinity) {
        return Some(if neg { 0 } else { u64::MAX });
    }
    if eq_ignore_case_exec(&b, &nan) {
        return Some(0);
    }
    match finite_secs_exec(&b) {
        Some(v) => if neg {
            Some(0)
        } else {
            Some(v)
        },
        None => None,
    }
}

/// /proc/uptime (`<uptime seconds> <idle seconds>`): whole seconds since
/// boot, the first field read as a float and truncated.
pub fn parse_uptime(s: &str) -> (r: Option<u64>)
    ensures
        r == (if words(s@, true).len() == 0 {
            None
        } else {
            float_secs(words(s@, true)[0])
        }),
{
    let chars = to_chars(s);
    let w = split_words(&chars, true);
    if w.len() == 0 {
        return None;
    }
    assert(seqs_view(w@)[0] == w@[0]@);
    float_secs_exec(&w[0])
}


/// A hwmon chip that measures the cpu, by the name in its `name` file.
pub open spec fn is_cpu_chip(n: Seq<char>) -> bool {
    n == seq!['c', 'o', 'r', 'e', 't', 'e', 'm', 'p'] || n == seq!['k', '1', '0', 't', 'e', 'm', 'p']
        || n == seq!['z', 'e', 'n', 'p', 'o', 'w', 'e', 'r'] || n == seq![
        'c',
        'p',
        'u',
        '_',
        't',
        'h',
        'e',
        'r',
        'm',
        'a',
        'l',
    ]
}

/// Whether a hwmon `name` file names a cpu chip (coretemp, k10temp,
/// zenpower, cpu_thermal).
pub fn is_cpu_hwmon(name: &str) -> (r: bool)
    ensures
        r == is_cpu_chip(trim(name@)),
{
    let t = trim_chars(&to_chars(name));
    chars_eq(&t, &vec!['c', 'o', 'r', 'e', 't', 'e', 'm', 'p']) || chars_eq(
        &t,
        &vec!['k', '1', '0', 't', 'e', 'm', 'p'],
    ) || chars_eq(&t, &vec!['z', 'e', 'n', 'p', 'o', 'w', 'e', 'r']) || chars_eq(
        &t,
        &vec!['c', 'p', 'u', '_', 't', 'h', 'e', 'r', 'm', 'a', 'l'],
    )
}

pub open spec fn card_word() -> Seq<char> {
    seq!['c', 'a', 'r', 'd']
}

/// A drm card directory (`card0`, `card1`, ...), not a connector entry
/// such as `card0-eDP-1`.
pub fn is_card_name(name: &str) -> (r: bool)
    ensures
        r == (name@.len() > 4 && has_prefix(name@, card_word()) && all_digits(name@.skip(4))),
{
    let v = to_chars(name);
    if v.len() <= 4 || !starts_with(&v, &vec!['c', 'a', 'r', 'd']) {
        return false;
    }
    let mut i: usize = 4;
    while i < v.len()
        invariant
            4 <= i <= v@.len(),
            v@ == name@,
            forall|j: int| 4 <= j < i ==> is_digit(#[trigger] v@[j]),
        decreases v@.len() - i,
    {
        if !('0' <= v[i] && v[i] <= '9') {
            assert(!is_digit(v@.skip(4)[i - 4]));
            return false;
        }
        i += 1;
    }
    assert forall|j: int| 0 <= j < v@.skip(4).len() implies is_digit(#[trigger] v@.skip(4)[j]) by {
        assert(v@.skip(4)[j] == v@[j + 4]);
    }
    true
}

pub open spec fn temp_word() -> Seq<char> {
    seq!['t', 'e', 'm', 'p']
}

pub open spec fn label_word() -> Seq<char> {
    seq!['_', 'l', 'a', 'b', 'e', 'l']
}

/// The sensor number of a `temp<N>_label` file name.
pub open spec fn temp_label_spec(f: Seq<char>) -> Option<Seq<char>> {
    if has_prefix(f, temp_word()) && has_suffix(f.skip(4), label_word()) {
        Some(f.skip(4).take(f.len() - 10))
    } else {
        None
    }
}

/// `temp3_label` -> `3`: the sensor whose `temp<N>_input` the label names.
pub fn temp_label_input(fname: &str) -> (r: Option<String>)
    ensures
        opt_view(r) == temp_label_spec(fname@),
{
    let v = to_chars(fname);
    if !starts_with(&v, &vec!['t', 'e', 'm', 'p']) {
        return None;
    }
    let rest = slice_chars(&v, 4, v.len());
    assert(rest@ == v@.skip(4));
    if !ends_with(&rest, &vec!['_', 'l', 'a', 'b', 'e', 'l']) {
        return None;
    }
    let mid = slice_chars(&rest, 0, rest.len() - 6);
    assert(mid@ == v@.skip(4).take(v@.len() - 10));
    Some(string_from_chars(&mid))
}

pub open spec fn core_word() -> Seq<char> {
    seq!['C', 'o', 'r', 'e', ' ']
}

/// The core a hwmon label names (`Core 3` -> 3).
pub open spec fn core_label_spec(label: Seq<char>) -> Option<u32> {
    let t = trim(label);
    if has_prefix(t, core_word()) {
        match parse_u64(t.skip(5)) {
            Some(v) => if v <= u32::MAX {
                Some(v as u32)
            } else {
                None
            },
            None => None,
        }
    } else {
        None
    }
}

/// The core index of a coretemp label (`Core 3` -> 3); other labels
/// (Package id, Tctl) give None.
pub fn core_label_index(label: &str) -> (r: Option<u32>)
    ensures
        r == core_label_spec(label@),
{
    let t = trim_chars(&to_chars(label));
    if !starts_with(&t, &vec!['C', 'o', 'r', 'e', ' ']) {
        return None;
    }
    let rest = slice_chars(&t, 5, t.len());
    assert(rest@ == t@.skip(5));
    match parse_u64_chars(&rest) {
        Some(v) => if v <= 4294967295 {
            Some(v as u32)
        } else {
            None
        },
        None => None,
    }
}

pub open spec fn driver_word() -> Seq<char> {
    seq!['D', 'R', 'I', 'V', 'E', 'R', '=']
}

/// The first `DRIVER=` line's value, trimmed.
pub open spec fn driver_scan(ls: Seq<Seq<char>>) -> Option<Seq<char>>
    decreases ls.len(),
{
    if ls.len() == 0 {
        None
    } else if has_prefix(ls[0], driver_word()) {
        Some(trim(ls[0].skip(7)))
    } else {
        driver_scan(ls.drop_first())
    }
}

/// The kernel driver a drm device's `uevent` file names.
pub fn uevent_driver(text: &str) -> (r: Option<String>)
    ensures
        opt_view(r) == driver_scan(lines(text@)),
{
    let ls = split_lines(&to_chars(text));
    let ghost lv = seqs_view(ls@);
    let key = vec!['D', 'R', 'I', 'V', 'E', 'R', '='];
    let mut i: usize = 0;
    assert(lv.skip(0) == lv);
    while i < ls.len()
        invariant
            i <= ls@.len(),
            lv == seqs_view(ls@),
            lv == lines(text@),
            key@ == driver_word(),
            driver_scan(lv) == driver_scan(lv.skip(i as int)),
        decreases ls@.len() - i,
    {
        assert(lv.skip(i as int)[0] == ls@[i as int]@);
        assert(lv.skip(i as int).drop_first() == lv.skip(i + 1));
        if starts_with(&ls[i], &key) {
            let rest = slice_chars(&ls[i], 7, ls[i].len());
            assert(rest@ == ls@[i as int]@.skip(7));
            return Some(string_from_chars(&trim_chars(&rest)));
        }
        i += 1;
    }
    None
}

/// One hwmon chip as read: its directory's index (`hwmon<N>`), its `name`
/// file, its `temp1_input` in millidegrees (None when unreadable), and per
/// `Core <i>` label the core index and that sensor's reading.
pub struct HwmonChip {
    pub index: u64,
    pub name: String,
    pub temp_milli: Option<i64>,
    pub cores: Vec<(u32, Option<i64>)>,
}

pub struct HwmonChipModel {
    pub index: u64,
    pub name: Seq<char>,
    pub temp_milli: Option<i64>,
    pub cores: Seq<(u32, Option<i64>)>,
}

impl View for HwmonChip {
    type V = HwmonChipModel;

    open spec fn view(&self) -> HwmonChipModel {
        HwmonChipModel { index: self.index, name: self.name@, temp_milli: self.temp_milli, cores: self.cores@ }
    }
}

pub open spec fn chips_view(v: Seq<HwmonChip>) -> Seq<HwmonChipModel> {
    v.map_values(|c: HwmonChip| c@)
}

/// A sane reading: from 0 up to, not including, 150 degrees.
pub open spec fn sane_milli(m: i64) -> bool {
    0 <= m < 150000
}

/// A cpu chip whose package reading is sane.
pub open spec fn cpu_chip_ok(c: HwmonChipModel) -> bool {
    &&& is_cpu_chip(trim(c.name))
    &&& c.temp_milli matches Some(t) && sane_milli(t)
}

/// The chip the cpu temperature comes from: of the usable cpu chips, the
/// one with the lowest directory index (`hwmon2` before `hwmon10`), the
/// earlier listed on a tie.
pub open spec fn best_chip(s: Seq<HwmonChipModel>) -> Option<HwmonChipModel>
    decreases s.len(),
{
    if s.len() == 0 {
        None
    } else {
        let b = best_chip(s.drop_last());
        if cpu_chip_ok(s.last()) && (b is None || s.last().index < b->0.index) {
            Some(s.last())
        } else {
            b
        }
    }
}

/// `x` placed after every reading whose core index is not above its own.
pub open spec fn insert_core(acc: Seq<(u32, i64)>, x: (u32, i64)) -> Seq<(u32, i64)>
    decreases acc.len(),
{
    if acc.len() == 0 || acc.last().0 <= x.0 {
        acc.push(x)
    } else {
        insert_core(acc.drop_last(), x).push(acc.last())
    }
}

/// The sane per-core readings ordered by core index, readings of one index
/// in the order listed.
pub open spec fn core_order(cores: Seq<(u32, Option<i64>)>) -> Seq<(u32, i64)>
    decreases cores.len(),
{
    if cores.len() == 0 {
        seq![]
    } else {
        let acc = core_order(cores.drop_last());
        match cores.last().1 {
            Some(m) if sane_milli(m) => insert_core(acc, (cores.last().0, m)),
            _ => acc,
        }
    }
}

/// The package reading and the ordered core readings of the chosen chip.
pub open spec fn cpu_chip_spec(s: Seq<HwmonChipModel>) -> Option<(i64, Seq<i64>)> {
    match best_chip(s) {
        Some(c) => Some((c.temp_milli->0, core_order(c.cores).map_values(|p: (u32, i64)| p.1))),
        None => None,
    }
}

proof fn lemma_best_chip_ok(s: Seq<HwmonChipModel>)
    ensures
        best_chip(s) matches Some(c) ==> cpu_chip_ok(c),
    decreases s.len(),
{
    if s.len() > 0 {
        lemma_best_chip_ok(s.drop_last());
    }
}

proof fn lemma_insert_core_at(acc: Seq<(u32, i64)>, x: (u32, i64), i: int)
    requires
        0 <= i <= acc.len(),
        forall|j: int| i <= j < acc.len() ==> (#[trigger] acc[j]).0 > x.0,
        i > 0 ==> acc[i - 1].0 <= x.0,
    ensures
        insert_core(acc, x) == acc.insert(i, x),
    decreases acc.len(),
{
    if acc.len() == i {
        assert(acc.insert(i, x) =~= acc.push(x));
    } else {
        lemma_insert_core_at(acc.drop_last(), x, i);
        assert(acc.insert(i, x) =~= acc.drop_last().insert(i, x).push(acc.last()));
    }
}

fn insert_core_exec(acc: &mut Vec<(u32, i64)>, x: (u32, i64))
    ensures
        final(acc)@ == insert_core(old(acc)@, x),
{
    let mut i = acc.len();
    while i > 0 && acc[i - 1].0 > x.0
        invariant
            i <= acc.len(),
            forall|j: int| i <= j < acc.len() ==> (#[trigger] acc@[j]).0 > x.0,
        decreases i,
    {
        i -= 1;
    }
    proof {
        lemma_insert_core_at(acc@, x, i as int);
    }
    acc.insert(i, x);
}

/// The cpu temperature from the hwmon chips read: the chosen chip's package
/// reading and its per-core readings in core order, all in millidegrees;
/// None when no cpu chip has a sane reading.
pub fn cpu_chip(chips: &Vec<HwmonChip>) -> (r: Option<(i64, Vec<i64>)>)
    ensures
        match r {
            Some((t, cs)) => cpu_chip_spec(chips_view(chips@)) == Some((t, cs@)),
            None => cpu_chip_spec(chips_view(chips@)) is None,
        },
{
    let ghost cv = chips_view(chips@);
    let mut best: Option<usize> = None;
    let mut i: usize = 0;
    while i < chips.len()
        invariant
            i <= chips.len(),
            cv == chips_view(chips@),
            match best {
                Some(b) => b < i && best_chip(cv.take(i as int)) == Some(cv[b as int]),
                None => best_chip(cv.take(i as int)) is None,
            },
        decreases chips.len() - i,
    {
        assert(cv.take(i + 1).drop_last() == cv.take(i as int));
        assert(cv.take(i + 1).last() == cv[i as int]);
        let c = &chips[i];
        let ok = is_cpu_hwmon(c.name.as_str()) && match c.temp_milli {
            Some(t) => 0 <= t && t < 150000,
            None => false,
        };
        let better = match best {
            None => true,
            Some(b) => c.index < chips[b].index,
        };
        if ok && better {
            best = Some(i);
        }
        i += 1;
    }
    assert(cv.take(chips.len() as int) == cv);
    let b = match best {
        Some(b) => b,
        None => return None,
    };
    let c = &chips[b];
    proof {
        lemma_best_chip_ok(cv);
    }
    let ghost cores = c.cores@;
    let mut order: Vec<(u32, i64)> = Vec::new();
    let mut k: usize = 0;
    while k < c.cores.len()
        invariant
            k <= cores.len(),
            cores == c.cores@,
            order@ == core_order(cores.take(k as int)),
        decreases cores.len() - k,
    {
        assert(cores.take(k + 1).drop_last() == cores.take(k as int));
        let (ix, reading) = c.cores[k];
        match reading {
            Some(m) => if 0 <= m && m < 150000 {
                insert_core_exec(&mut order, (ix, m));
            },
            None => {},
        }
        k += 1;
    }
    assert(cores.take(cores.len() as int) == cores);
    let mut out: Vec<i64> = Vec::new();
    let mut j: usize = 0;
    while j < order.len()
        invariant
            j <= order.len(),
            out@ == order@.take(j as int).map_values(|p: (u32, i64)| p.1),
        decreases order.len() - j,
    {
        out.push(order[j].1);
        j += 1;
        assert(out@ =~= order@.take(j as int).map_values(|p: (u32, i64)| p.1));
    }
    assert(order@.take(order.len() as int) == order@);
    Some((c.temp_milli.unwrap(), out))
}

/// A /proc/self/mounts line is kept exactly when it has at least three
/// fields and its file system type (the third field) is one of ext2, ext3,
/// ext4, xfs, btrfs, zfs, f2fs, vfat and ntfs; a kept line gives its device,
/// its mount point with the octal escapes undone, and its type. Every line
/// of the text is read in order, so the mounts listed are the kept lines'
/// entries in the order of the lines.
pub proof fn law_real_mounts_are_kept(line: Seq<char>, ls: Seq<Seq<char>>)
    ensures
        ({
            let w = words(line, false);
            let known = w.len() >= 3 && (w[2] == "ext2"@ || w[2] == "ext3"@ || w[2] == "ext4"@
                || w[2] == "xfs"@ || w[2] == "btrfs"@ || w[2] == "zfs"@ || w[2] == "f2fs"@
                || w[2] == "vfat"@ || w[2] == "ntfs"@);
            &&& known ==> mount_line(line) == Some(
                (w[0], utf8_lossy(unescape_bytes(vstd::utf8::encode_utf8(w[1]))), w[2]),
            )
            &&& !known ==> mount_line(line) is None
        }),
        mounts_scan(ls.push(line)) == match mount_line(line) {
            Some(m) => mounts_scan(ls).push(m),
            None => mounts_scan(ls),
        },
{
    assert(ls.push(line).drop_last() == ls);
}

/// The received bytes of the interfaces, summed.
pub open spec fn rx_total(all: Seq<(Seq<char>, u64, u64)>) -> int
    decreases all.len(),
{
    if all.len() == 0 {
        0
    } else {
        rx_total(all.drop_last()) + all.last().1
    }
}

/// The sent bytes of the interfaces, summed.
pub open spec fn tx_total(all: Seq<(Seq<char>, u64, u64)>) -> int
    decreases all.len(),
{
    if all.len() == 0 {
        0
    } else {
        tx_total(all.drop_last()) + all.last().2
    }
}

proof fn lemma_net_dev_scan_totals(ls: Seq<Seq<char>>)
    ensures
        ({
            let (rx, tx, best, iface, all) = net_dev_scan(ls);
            &&& rx as int == rx_total(all) % 0x1_0000_0000_0000_0000
            &&& tx as int == tx_total(all) % 0x1_0000_0000_0000_0000
            &&& forall|j: int| 0 <= j < all.len() ==> (#[trigger] all[j]).0 != seq!['l', 'o']
            &&& forall|j: int| 0 <= j < all.len() ==> wadd((#[trigger] all[j]).1, all[j].2) <= best
            &&& iface is None ==> best == 0
            &&& iface is Some ==> exists|j: int|
                0 <= j < all.len() && (#[trigger] all[j]).0 == iface->0 && wadd(all[j].1, all[j].2)
                    == best
        }),
    decreases ls.len(),
{
    if ls.len() > 0 {
        lemma_net_dev_scan_totals(ls.drop_last());
        let (rx, tx, best, iface, all) = net_dev_scan(ls.drop_last());
        match net_dev_line(ls.last()) {
            None => {},
            Some((name, r, t)) => {
                let all2 = all.push((name, r, t));
                assert(all2.drop_last() == all);
                vstd::arithmetic::div_mod::lemma_add_mod_noop_right(
                    r as int,
                    rx_total(all),
                    0x1_0000_0000_0000_0000,
                );
                vstd::arithmetic::div_mod::lemma_add_mod_noop_right(
                    t as int,
                    tx_total(all),
                    0x1_0000_0000_0000_0000,
                );
                assert(wadd(rx, r) as int == (rx as int + r as int) % 0x1_0000_0000_0000_0000);
                assert(wadd(tx, t) as int == (tx as int + t as int) % 0x1_0000_0000_0000_0000);
                assert forall|j: int| 0 <= j < all2.len() implies (#[trigger] all2[j]).0 != seq!['l', 'o'] by {
                    if j < all.len() {
                        assert(all2[j] == all[j]);
                    } else {
                        assert(name != lo_word());
                    }
                }
                let (_, _, best2, iface2, _) = net_dev_scan(ls);
                assert forall|j: int| 0 <= j < all2.len() implies wadd((#[trigger] all2[j]).1, all2[j].2)
                    <= best2 by {
                    if j < all.len() {
                        assert(all2[j] == all[j]);
                    }
                }
                if iface2 is Some {
                    if wadd(r, t) > best {
                        assert(all2[all.len() as int].0 == iface2->0);
                    } else {
                        let j = choose|j: int|
                            0 <= j < all.len() && (#[trigger] all[j]).0 == iface->0 && wadd(all[j].1, all[j].2)
                                == best;
                        assert(all2[j] == all[j]);
                    }
                }
            },
        }
    }
}

/// /proc/net/dev read whole: the received and sent totals are the sums of
/// the listed interfaces' counters (wrapping at 2^64), loopback is never
/// listed, and the busiest interface named is a listed one whose traffic
/// (received plus sent) no listed interface exceeds; none is named only
/// when no interface moved a byte.
pub proof fn law_net_totals_sum_interfaces(s: Seq<char>)
    ensures
        ({
            let (rx, tx, _best, iface, all) = net_dev_scan(net_dev_body(s));
            &&& rx as int == rx_total(all) % 0x1_0000_0000_0000_0000
            &&& tx as int == tx_total(all) % 0x1_0000_0000_0000_0000
            &&& forall|j: int| 0 <= j < all.len() ==> (#[trigger] all[j]).0 != seq!['l', 'o']
            &&& iface is None ==> forall|j: int|
                0 <= j < all.len() ==> ((#[trigger] all[j]).1 + all[j].2) % 0x1_0000_0000_0000_0000 == 0
            &&& iface is Some ==> exists|j: int|
                0 <= j < all.len() && (#[trigger] all[j]).0 == iface->0 && forall|m: int|
                    0 <= m < all.len() ==> ((#[trigger] all[m]).1 + all[m].2) % 0x1_0000_0000_0000_0000
                        <= (all[j].1 + all[j].2) % 0x1_0000_0000_0000_0000
        }),
{
    let ls = net_dev_body(s);
    lemma_net_dev_scan_totals(ls);
    let (rx, tx, best, iface, all) = net_dev_scan(ls);
    assert forall|j: int| 0 <= j < all.len() implies wadd(all[j].1, all[j].2) as int == (
    (#[trigger] all[j]).1 + all[j].2) % 0x1_0000_0000_0000_0000 by {}
    if iface is Some {
        let j = choose|j: int|
            0 <= j < all.len() && (#[trigger] all[j]).0 == iface->0 && wadd(all[j].1, all[j].2) == best;
        assert(all[j].0 == iface->0);
    }
}

/// Each /proc/meminfo line `key: value kB` sets the figure its key names, in
/// bytes (the kB count times 1024, wrapping at 2^64): MemTotal the total,
/// MemAvailable the available memory, SwapTotal and SwapFree the swap
/// figures; any other line leaves all four as they were. Of the text read
/// whole, used memory is total less available and used swap is swap total
/// less swap free (0 where that would go below 0), and the text is refused
/// exactly when it sets no non-zero total.
pub proof fn law_meminfo_keys(ls: Seq<Seq<char>>, line: Seq<char>, s: Seq<char>)
    ensures
        ({
            let (t, a, st, sf) = meminfo_scan(ls);
            let r = meminfo_scan(ls.push(line));
            match split_once(line, ':') {
                None => r == (t, a, st, sf),
                Some((key, rest)) => {
                    let b = ((meminfo_kb(rest) as int * 1024) % 0x1_0000_0000_0000_0000) as u64;
                    &&& key == "MemTotal"@ ==> r == (b, a, st, sf)
                    &&& key == "MemAvailable"@ ==> r == (t, b, st, sf)
                    &&& key == "SwapTotal"@ ==> r == (t, a, b, sf)
                    &&& key == "SwapFree"@ ==> r == (t, a, st, b)
                    &&& key != "MemTotal"@ && key != "MemAvailable"@ && key != "SwapTotal"@ && key
                        != "SwapFree"@ ==> r == (t, a, st, sf)
                }
            }
        }),
        ({
            let (t, a, st, sf) = meminfo_scan(lines(s));
            &&& (meminfo_spec(s) is None <==> t == 0)
            &&& meminfo_spec(s) is Some ==> {
                let m = meminfo_spec(s)->0;
                &&& m.total == t && m.available == a && m.swap_total == st
                &&& m.used as int == if t >= a { t - a } else { 0 }
                &&& m.swap_used as int == if st >= sf { st - sf } else { 0 }
            }
        }),
{
    reveal_strlit("MemTotal");
    reveal_strlit("MemAvailable");
    reveal_strlit("SwapTotal");
    reveal_strlit("SwapFree");
    assert("MemTotal"@[0] != "SwapTotal"@[0] && "MemTotal"@[0] != "SwapFree"@[0]);
    assert("MemAvailable"@[0] != "SwapTotal"@[0] && "MemAvailable"@[0] != "SwapFree"@[0]);
    assert("MemTotal"@.len() != "MemAvailable"@.len() && "SwapTotal"@.len() != "SwapFree"@.len());
    assert("MemTotal"@ != "SwapTotal"@ && "MemTotal"@ != "SwapFree"@ && "MemTotal"@ != "MemAvailable"@);
    assert("MemAvailable"@ != "SwapTotal"@ && "MemAvailable"@ != "SwapFree"@ && "SwapTotal"@ != "SwapFree"@);
    assert(ls.push(line).drop_last() == ls);
    match split_once(line, ':') {
        None => {},
        Some((key, rest)) => {
            let v = meminfo_kb(rest);
            assert(wmul(v, 1024) as int == (v as int * 1024) % 0x1_0000_0000_0000_0000) by (nonlinear_arith);
        },
    }
}

/// A stat line's comm runs from the first `(` to the LAST `)`: whatever the
/// comm holds, parens and spaces included, it is read whole, provided the pid
/// before it has no `(` and the fields after it no `)`; the fields are the
/// words after that `)`.
pub proof fn law_comm_ends_at_last_paren(p: Seq<char>, n: Seq<char>, t: Seq<char>)
    requires
        forall|j: int| 0 <= j < p.len() ==> p[j] != '(',
        forall|j: int| 0 <= j < t.len() ==> t[j] != ')',
    ensures
        stat_fields(p + seq!['('] + n + seq![')'] + t) == Some((n, words(t, false))),
{
    let s = p + seq!['('] + n + seq![')'] + t;
    let open = p.len() as int;
    let close: int = p.len() as int + 1 + n.len() as int;
    assert(s[open] == '(');
    assert forall|j: int| 0 <= j < open implies s[j] != '(' by {
        assert(s[j] == p[j]);
    }
    crate::text::lemma_first_index(s, '(', open);
    lemma_last_index_bounds(s, ')');
    assert(s[close] == ')');
    assert forall|j: int| close < j < s.len() implies s[j] != ')' by {
        assert(s[j] == t[j - close - 1]);
    }
    assert(last_index(s, ')') == close);
    assert(s.subrange(open + 1, close) =~= n);
    assert(s.skip(close + 1) =~= t);
}

/// One /proc/stat `cpu` line (the name, then user nice system idle iowait
/// irq softirq steal ...): busy time is user + nice + system + irq +
/// softirq + steal and idle time is idle + iowait (sums wrapping at 2^64,
/// a field that is not a number counting 0); a line with fewer than eight
/// counters gives nothing.
#[verifier::rlimit(50)]
pub proof fn law_cpu_line_fields(line: Seq<char>)
    ensures
        ({
            let f = words(line, false);
            &&& (stat_line_times(line) is None <==> f.len() < 9)
            &&& stat_line_times(line) is Some ==> {
                let c = stat_line_times(line)->0;
                &&& c.busy as int == (tok_or_zero(f[1]) + tok_or_zero(f[2]) + tok_or_zero(f[3]) + tok_or_zero(f[6]) + tok_or_zero(f[7]) + tok_or_zero(f[8])) % 0x1_0000_0000_0000_0000
                &&& c.idle as int == (tok_or_zero(f[4]) + tok_or_zero(f[5])) % 0x1_0000_0000_0000_0000
            }
        }),
{
    let f = words(line, false);
    if f.len() >= 9 {
        let m: int = 0x1_0000_0000_0000_0000;
        let a = tok_or_zero(f[1]);
        let b = tok_or_zero(f[2]);
        let c = tok_or_zero(f[3]);
        let d = tok_or_zero(f[6]);
        let e = tok_or_zero(f[7]);
        let g = tok_or_zero(f[8]);
        let s1 = wadd(a, b);
        let s2 = wadd(s1, c);
        let s3 = wadd(s2, d);
        let s4 = wadd(s3, e);
        let s5 = wadd(s4, g);
        assert(s1 as int == (a + b) % m);
        vstd::arithmetic::div_mod::lemma_add_mod_noop_right(c as int, a + b, m);
        assert(s2 as int == (a + b + c) % m);
        vstd::arithmetic::div_mod::lemma_add_mod_noop_right(d as int, a + b + c, m);
        assert(s3 as int == (a + b + c + d) % m);
        vstd::arithmetic::div_mod::lemma_add_mod_noop_right(e as int, a + b + c + d, m);
        assert(s4 as int == (a + b + c + d + e) % m);
        vstd::arithmetic::div_mod::lemma_add_mod_noop_right(g as int, a + b + c + d + e, m);
        assert(s5 as int == (a + b + c + d + e + g) % m);
    }
}

/// /proc/[pid]/io is read by its `read_bytes` and `write_bytes` lines (the
/// block-layer counters, not `rchar`/`wchar`): each such line sets its
/// counter to the number after the colon, any other line changes nothing.
pub proof fn law_pid_io_keys(ls: Seq<Seq<char>>, line: Seq<char>)
    ensures
        ({
            let (r, w) = pid_io_scan(ls);
            let after = pid_io_scan(ls.push(line));
            match split_once(line, ':') {
                None => after == (r, w),
                Some((k, v)) => {
                    &&& k == "read_bytes"@ ==> after == (parse_u64(trim(v)), w)
                    &&& k == "write_bytes"@ ==> after == (r, parse_u64(trim(v)))
                    &&& k != "read_bytes"@ && k != "write_bytes"@ ==> after == (r, w)
                }
            }
        }),
{
    reveal_strlit("read_bytes");
    reveal_strlit("write_bytes");
    assert("read_bytes"@[0] != "write_bytes"@[0]);
    assert(ls.push(line).drop_last() == ls);
}

/// One /proc/diskstats line (major, minor, name, then the counters): the
/// device is the third field; reads completed the fourth, sectors read
/// (512 bytes each) the sixth, read time the seventh, writes completed the
/// eighth, sectors written the tenth, write time the eleventh, time busy the
/// thirteenth and weighted time the fourteenth, times in ms turned to ns
/// (products and sums wrap at 2^64); a line with fewer fields gives nothing.
pub proof fn law_diskstats_fields(line: Seq<char>)
    ensures
        ({
            let f = words(line, false);
            let m: int = 0x1_0000_0000_0000_0000;
            &&& (diskstats_line(line) is None <==> f.len() < 14)
            &&& diskstats_line(line) is Some ==> {
                let d = diskstats_line(line)->0;
                &&& d.name == f[2]
                &&& d.read_ops as int == tok_or_zero(f[3])
                &&& d.read_bytes as int == (tok_or_zero(f[5]) * 512) % m
                &&& d.write_ops as int == tok_or_zero(f[7])
                &&& d.written_bytes as int == (tok_or_zero(f[9]) * 512) % m
                &&& d.io_time_ns is Some && d.busy_time_ns is Some && d.weighted_ns is Some
                &&& d.io_time_ns->0 as int == (((tok_or_zero(f[6]) + tok_or_zero(f[10])) % m) * 1_000_000) % m
                &&& d.busy_time_ns->0 as int == (tok_or_zero(f[12]) * 1_000_000) % m
                &&& d.weighted_ns->0 as int == (tok_or_zero(f[13]) * 1_000_000) % m
            }
        }),
{
    let f = words(line, false);
    if f.len() >= 14 {
        let s = wadd(tok_or_zero(f[6]), tok_or_zero(f[10]));
        assert(s as int == (tok_or_zero(f[6]) + tok_or_zero(f[10])) % 0x1_0000_0000_0000_0000);
    }
}

} // verus!
