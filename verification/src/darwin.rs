//! The computing side of the macOS collectors: what the kernel hands back
//! (a routing-message byte stream, processor tick arrays, vm page counts,
//! statfs records, task info) turned into snapshot values. The system calls
//! themselves belong to the caller.

use vstd::prelude::*;
use crate::collect::{
    string_from_utf8_lossy, utf8_lossy, wadd, CpuSnapshot, CpuTimes, DiskStats, DiskStatsModel, MemSnapshot,
    MountInfo, ProcessInfo, ThreadInfo,
};
use crate::text::{chars_eq, has_prefix, starts_with, string_from_chars, to_chars, trim, trim_chars};

verus! {

/// Size of the fixed `if_msghdr2` head that starts every routing message.
pub const MSGHDR_LEN: usize = 32;

/// Size of the leading `if_data64` fields up to and including the byte counters.
pub const IFDATA_LEN: usize = 80;

/// `RTM_IFINFO2`: the message type that carries interface counters.
pub const RTM_IFINFO2: u8 = 0x12;

/// `IFT_LOOP`: the interface type of the loopback device.
pub const IFT_LOOP: u8 = 0x18;

/// Little-endian u16 at byte `i`.
pub open spec fn le16(b: Seq<u8>, i: int) -> nat {
    (b[i] + 256 * b[i + 1]) as nat
}

/// Little-endian u64 at byte `i`.
pub open spec fn le64(b: Seq<u8>, i: int) -> nat {
    (b[i] + 256 * (b[i + 1] + 256 * (b[i + 2] + 256 * (b[i + 3] + 256 * (b[i + 4] + 256 * (b[i
        + 5] + 256 * (b[i + 6] + 256 * b[i + 7]))))))) as nat
}

fn read_le16(b: &Vec<u8>, i: usize) -> (r: u16)
    requires
        i + 2 <= b.len(),
    ensures
        r == le16(b@, i as int),
{
    let v = b[i + 1] as u16 * 256 + b[i] as u16;
    v
}

fn read_le64(b: &Vec<u8>, i: usize) -> (r: u64)
    requires
        i + 8 <= b.len(),
    ensures
        r == le64(b@, i as int),
{
    let v = b[i + 7] as u64;
    let v = v * 256 + b[i + 6] as u64;
    let v = v * 256 + b[i + 5] as u64;
    let v = v * 256 + b[i + 4] as u64;
    let v = v * 256 + b[i + 3] as u64;
    let v = v * 256 + b[i + 2] as u64;
    let v = v * 256 + b[i + 1] as u64;
    let v = v * 256 + b[i] as u64;
    v
}

/// The received and sent byte counters one routing message adds: those of
/// an `RTM_IFINFO2` message whose counters lie inside the stream and whose
/// interface is not the loopback.
pub open spec fn iflist_counters(b: Seq<u8>, off: nat) -> (u64, u64) {
    let o = off as int;
    if b[o + 3] == RTM_IFINFO2 && o + MSGHDR_LEN + IFDATA_LEN <= b.len() && b[o + MSGHDR_LEN]
        != IFT_LOOP {
        (le64(b, o + MSGHDR_LEN + 64) as u64, le64(b, o + MSGHDR_LEN + 72) as u64)
    } else {
        (0, 0)
    }
}

/// The walk over the routing messages from byte `off` with the totals
/// `acc` so far: message by message, each `ifm_msglen` long, until a
/// message head no longer fits or a message claims length zero. Totals
/// wrap at 2^64.
pub open spec fn iflist_walk(b: Seq<u8>, off: nat, acc: (u64, u64)) -> (u64, u64)
    decreases b.len() - off,
{
    if off + MSGHDR_LEN > b.len() || le16(b, off as int) == 0 {
        acc
    } else {
        let c = iflist_counters(b, off);
        let acc2 = (wadd(acc.0, c.0), wadd(acc.1, c.1));
        let next = off + le16(b, off as int);
        if next > b.len() {
            acc2
        } else {
            iflist_walk(b, next, acc2)
        }
    }
}

/// The received and sent byte totals over the non-loopback interfaces of a
/// `NET_RT_IFLIST2` routing-message stream (native little-endian layout).
pub fn iflist_totals(b: &Vec<u8>) -> (r: (u64, u64))
    ensures
        r == iflist_walk(b@, 0, (0, 0)),
{
    let mut off: usize = 0;
    let mut rx: u64 = 0;
    let mut tx: u64 = 0;
    while off <= b.len() && MSGHDR_LEN <= b.len() - off
        invariant
            off <= b.len(),
            iflist_walk(b@, off as nat, (rx, tx)) == iflist_walk(b@, 0, (0, 0)),
        decreases b.len() - off,
    {
        let len = read_le16(b, off);
        if len == 0 {
            return (rx, tx);
        }
        if b[off + 3] == RTM_IFINFO2 && IFDATA_LEN <= b.len() - off - MSGHDR_LEN && b[off
            + MSGHDR_LEN] != IFT_LOOP {
            rx = rx.wrapping_add(read_le64(b, off + MSGHDR_LEN + 64));
            tx = tx.wrapping_add(read_le64(b, off + MSGHDR_LEN + 72));
        }
        if len as usize > b.len() - off {
            return (rx, tx);
        }
        off = off + len as usize;
    }
    assert(iflist_walk(b@, off as nat, (rx, tx)) == (rx, tx));
    (rx, tx)
}

/// One core's times from its four `processor_cpu_load_info` tick counters
/// (user, system, idle, nice), each read as the kernel's unsigned 32 bits.
pub open spec fn core_times(t: Seq<i32>, k: int) -> CpuTimes {
    CpuTimes {
        busy: (t[4 * k] as u32 + t[4 * k + 1] as u32 + t[4 * k + 3] as u32) as u64,
        idle: t[4 * k + 2] as u32 as u64,
    }
}

/// Every whole group of four counters, one core each; a trailing partial
/// group is ignored.
pub open spec fn cores(t: Seq<i32>) -> Seq<CpuTimes> {
    Seq::new(t.len() / 4, |k: int| core_times(t, k))
}

pub open spec fn sum_busy(s: Seq<CpuTimes>) -> nat
    decreases s.len(),
{
    if s.len() == 0 {
        0
    } else {
        sum_busy(s.drop_last()) + s.last().busy as nat
    }
}

pub open spec fn sum_idle(s: Seq<CpuTimes>) -> nat
    decreases s.len(),
{
    if s.len() == 0 {
        0
    } else {
        sum_idle(s.drop_last()) + s.last().idle as nat
    }
}

/// The cpu snapshot from the kernel's flat tick array (at most `u32::MAX`
/// counters, the width of its count): per-core times and their sums.
pub fn processor_ticks(ticks: &Vec<i32>) -> (r: CpuSnapshot)
    requires
        ticks.len() <= u32::MAX,
    ensures
        r.per_core@ == cores(ticks@),
        r.total.busy == sum_busy(cores(ticks@)),
        r.total.idle == sum_idle(cores(ticks@)),
{
    let n = ticks.len() / 4;
    let ghost cs = cores(ticks@);
    let mut per_core: Vec<CpuTimes> = Vec::new();
    let mut busy: u64 = 0;
    let mut idle: u64 = 0;
    let mut k: usize = 0;
    while k < n
        invariant
            n == ticks.len() / 4,
            n <= 0x4000_0000,
            cs == cores(ticks@),
            k <= n,
            per_core@ == cs.take(k as int),
            busy == sum_busy(cs.take(k as int)),
            idle == sum_idle(cs.take(k as int)),
            busy <= k * 0x3_0000_0000,
            idle <= k * 0x1_0000_0000,
        decreases n - k,
    {
        let u = ticks[4 * k] as u32 as u64;
        let s = ticks[4 * k + 1] as u32 as u64;
        let i = ticks[4 * k + 2] as u32 as u64;
        let ni = ticks[4 * k + 3] as u32 as u64;
        let t = CpuTimes { busy: u + s + ni, idle: i };
        assert(t == cs[k as int]);
        assert(cs.take(k + 1).drop_last() == cs.take(k as int));
        busy = busy + t.busy;
        idle = idle + t.idle;
        per_core.push(t);
        k = k + 1;
    }
    assert(cs.take(n as int) == cs);
    CpuSnapshot { total: CpuTimes { busy, idle }, per_core }
}

/// The memory snapshot from `hw.memsize`, the active, wired and compressor
/// page counts of `host_statistics64`, the page size, and `vm.swapusage`'s
/// total and used bytes when that read succeeded: used memory is the three
/// page counts in bytes, capped at the total.
pub open spec fn vm_memory_spec(
    total: u64,
    active: u32,
    wire: u32,
    compressor: u32,
    page: u64,
    swap: Option<(u64, u64)>,
) -> MemSnapshot {
    let used = (active + wire + compressor) * page;
    let (swap_total, swap_used) = match swap {
        Some(p) => p,
        None => (0u64, 0u64),
    };
    MemSnapshot {
        total,
        used: if used < total { used as u64 } else { total },
        available: if used < total { (total - used) as u64 } else { 0 },
        swap_total,
        swap_used,
    }
}

pub fn vm_memory(
    total: u64,
    active: u32,
    wire: u32,
    compressor: u32,
    page: u64,
    swap: Option<(u64, u64)>,
) -> (r: MemSnapshot)
    requires
        (active + wire + compressor) * page <= u64::MAX,
    ensures
        r == vm_memory_spec(total, active, wire, compressor, page, swap),
{
    let pages = active as u64 + wire as u64 + compressor as u64;
    let used = pages * page;
    let (swap_total, swap_used) = match swap {
        Some(p) => p,
        None => (0u64, 0u64),
    };
    MemSnapshot {
        total,
        used: if used < total { used } else { total },
        available: if used < total { total - used } else { 0 },
        swap_total,
        swap_used,
    }
}

pub open spec fn volumes_prefix() -> Seq<char> {
    seq!['/', 'V', 'o', 'l', 'u', 'm', 'e', 's', '/']
}

/// The root volume and the user volumes under `/Volumes/` are shown; the
/// system's own mounts are not.
pub open spec fn shown_volume(point: Seq<char>) -> bool {
    point == seq!['/'] || has_prefix(point, volumes_prefix())
}

/// The file systems of real disks.
pub open spec fn disk_fs(fs: Seq<char>) -> bool {
    fs == seq!['a', 'p', 'f', 's'] || fs == seq!['h', 'f', 's'] || fs == seq!['e', 'x', 'f', 'a', 't']
        || fs == seq!['m', 's', 'd', 'o', 's']
}

/// One `getfsstat` record as a mount row: kept when the volume is shown,
/// its file system is a disk's, and its size is not zero.
pub open spec fn volume_spec(point: Seq<char>, fs: Seq<char>, blocks: u64, bsize: u32, bavail: u64) -> Option<
    (Seq<char>, u64, u64),
> {
    if shown_volume(point) && disk_fs(fs) && blocks * bsize != 0 {
        Some((point, (blocks * bsize) as u64, (bavail * bsize) as u64))
    } else {
        None
    }
}

pub fn volume(point: &str, fs: &str, blocks: u64, bsize: u32, bavail: u64) -> (r: Option<MountInfo>)
    requires
        blocks * bsize <= u64::MAX,
        bavail * bsize <= u64::MAX,
    ensures
        match r {
            Some(m) => volume_spec(point@, fs@, blocks, bsize, bavail) == Some(m@),
            None => volume_spec(point@, fs@, blocks, bsize, bavail) is None,
        },
{
    let p = to_chars(point);
    let f = to_chars(fs);
    let root = vec!['/'];
    let vols = vec!['/', 'V', 'o', 'l', 'u', 'm', 'e', 's', '/'];
    let apfs = vec!['a', 'p', 'f', 's'];
    let hfs = vec!['h', 'f', 's'];
    let exfat = vec!['e', 'x', 'f', 'a', 't'];
    let msdos = vec!['m', 's', 'd', 'o', 's'];
    assert(root@ =~= seq!['/']);
    assert(vols@ =~= volumes_prefix());
    assert(apfs@ =~= seq!['a', 'p', 'f', 's']);
    assert(hfs@ =~= seq!['h', 'f', 's']);
    assert(exfat@ =~= seq!['e', 'x', 'f', 'a', 't']);
    assert(msdos@ =~= seq!['m', 's', 'd', 'o', 's']);
    let keep = chars_eq(&p, &root) || starts_with(&p, &vols);
    let disk = chars_eq(&f, &apfs) || chars_eq(&f, &hfs) || chars_eq(&f, &exfat) || chars_eq(&f, &msdos);
    if !keep || !disk {
        return None;
    }
    let total = blocks * bsize as u64;
    if total == 0 {
        return None;
    }
    Some(MountInfo { mount_point: string_from_chars(&p), total, available: bavail * bsize as u64 })
}

/// Seconds since boot from `kern.boottime`'s seconds and the wall clock's:
/// none for a boot time that is not positive or lies in the future.
pub fn boot_uptime(boot_sec: i64, now_sec: u64) -> (r: Option<u64>)
    ensures
        r == (if boot_sec <= 0 || now_sec < boot_sec {
            None
        } else {
            Some((now_sec - boot_sec) as u64)
        }),
{
    if boot_sec <= 0 {
        return None;
    }
    let b = boot_sec as u64;
    if now_sec < b {
        None
    } else {
        Some(now_sec - b)
    }
}

/// `b` holds no NUL before byte `k`, and `k` is its end or a NUL.
pub open spec fn nul_cut(b: Seq<u8>, k: int) -> bool {
    &&& 0 <= k <= b.len()
    &&& forall|j: int| 0 <= j < k ==> b[j] != 0
    &&& (k == b.len() || b[k] == 0)
}

/// The bytes of a fixed C buffer up to its first NUL (all of it when there
/// is none); what follows the NUL is left behind, not trimmed.
pub open spec fn before_nul(b: Seq<u8>) -> Seq<u8> {
    b.take(choose|k: int| nul_cut(b, k))
}

proof fn lemma_nul_cut_unique(b: Seq<u8>, k: int)
    requires
        nul_cut(b, k),
    ensures
        before_nul(b) == b.take(k),
{
    let c = choose|k2: int| nul_cut(b, k2);
    assert(nul_cut(b, c));
    if c < k {
        assert(b[c] != 0);
    } else if k < c {
        assert(b[k] != 0);
    }
}

fn cut_at_nul(b: &Vec<u8>) -> (r: Vec<u8>)
    ensures
        r@ == before_nul(b@),
{
    let mut out: Vec<u8> = Vec::new();
    let mut i: usize = 0;
    while i < b.len() && b[i] != 0
        invariant
            i <= b.len(),
            out@ == b@.take(i as int),
            forall|j: int| 0 <= j < i ==> b@[j] != 0,
        decreases b.len() - i,
    {
        out.push(b[i]);
        i += 1;
        assert(out@ =~= b@.take(i as int));
    }
    proof {
        lemma_nul_cut_unique(b@, i as int);
    }
    out
}

/// A timebase term of zero counts as one.
pub open spec fn at_least_one(x: u32) -> nat {
    if x == 0 { 1 } else { x as nat }
}

/// Mach absolute-time ticks in nanoseconds at the timebase `numer / denom`,
/// capped at `u64::MAX`.
pub open spec fn mach_ns(ticks: nat, numer: u32, denom: u32) -> u64 {
    let ns = ticks * at_least_one(numer) / at_least_one(denom);
    if ns > u64::MAX { u64::MAX } else { ns as u64 }
}

/// One process from its `proc_pidinfo` task info and `proc_name` buffer:
/// the name is the buffer up to its first NUL, decoded leniently; cpu time
/// is user plus system time through the timebase; the disk counters come
/// from `proc_pid_rusage` when that read succeeded. The task info names no
/// parent, so `ppid` is 0, and no threads are listed.
pub fn task_process(
    pid: i32,
    name_buf: &Vec<u8>,
    user: u64,
    system: u64,
    numer: u32,
    denom: u32,
    rss: u64,
    rusage: Option<(u64, u64)>,
) -> (r: ProcessInfo)
    ensures
        r.pid == pid,
        r.ppid == 0,
        r.name@ == utf8_lossy(before_nul(name_buf@)),
        r.cpu_ns == mach_ns((user + system) as nat, numer, denom),
        r.rss == rss,
        r.disk_read == (match rusage {
            Some(p) => Some(p.0),
            None => None::<u64>,
        }),
        r.disk_written == (match rusage {
            Some(p) => Some(p.1),
            None => None::<u64>,
        }),
        r.threads@.len() == 0,
{
    let name = string_from_utf8_lossy(&cut_at_nul(name_buf));
    let n: u128 = if numer == 0 { 1 } else { numer as u128 };
    let d: u128 = if denom == 0 { 1 } else { denom as u128 };
    let t: u128 = user as u128 + system as u128;
    assert(t * n <= 0x1_ffff_ffff_ffff_fffe * 0xffff_ffff) by (nonlinear_arith)
        requires
            t <= 0x1_ffff_ffff_ffff_fffe,
            n <= 0xffff_ffff,
    ;
    let ns = t * n / d;
    let cpu_ns: u64 = if ns > u64::MAX as u128 { u64::MAX } else { ns as u64 };
    let (disk_read, disk_written) = match rusage {
        Some(p) => (Some(p.0), Some(p.1)),
        None => (None, None),
    };
    let threads: Vec<ThreadInfo> = Vec::new();
    ProcessInfo { pid, ppid: 0, name, cpu_ns, rss, disk_read, disk_written, threads }
}

pub open spec fn unknown_disk() -> Seq<char> {
    seq!['d', 'i', 's', 'k', '?']
}

/// One whole-disk IOMedia entry from its `BSD Name` and its driver's
/// `Statistics` numbers (None where a key was missing): absent counters
/// read as zero, and the service time is the read plus the write time when
/// both are there (synthetic volumes lack them); busy time is that same
/// sum and there is no weighted time.
pub open spec fn media_disk_spec(
    name: Option<Seq<char>>,
    read_bytes: Option<u64>,
    written_bytes: Option<u64>,
    read_ops: Option<u64>,
    write_ops: Option<u64>,
    read_time: Option<u64>,
    write_time: Option<u64>,
) -> DiskStatsModel {
    let io = match (read_time, write_time) {
        (Some(r), Some(w)) => Some((r + w) as u64),
        _ => None,
    };
    DiskStatsModel {
        name: match name {
            Some(n) => n,
            None => unknown_disk(),
        },
        read_bytes: match read_bytes { Some(v) => v, None => 0 },
        written_bytes: match written_bytes { Some(v) => v, None => 0 },
        read_ops: match read_ops { Some(v) => v, None => 0 },
        write_ops: match write_ops { Some(v) => v, None => 0 },
        busy_time_ns: io,
        io_time_ns: io,
        weighted_ns: None,
    }
}

fn or_zero(v: Option<u64>) -> (r: u64)
    ensures
        r == (match v { Some(x) => x, None => 0 }),
{
    match v {
        Some(x) => x,
        None => 0,
    }
}

pub fn media_disk(
    name: Option<String>,
    read_bytes: Option<u64>,
    written_bytes: Option<u64>,
    read_ops: Option<u64>,
    write_ops: Option<u64>,
    read_time: Option<u64>,
    write_time: Option<u64>,
) -> (r: DiskStats)
    requires
        (read_time, write_time) matches (Some(rt), Some(wt)) ==> rt + wt <= u64::MAX,
    ensures
        r@ == media_disk_spec(
            match name {
                Some(n) => Some(n@),
                None => None,
            },
            read_bytes,
            written_bytes,
            read_ops,
            write_ops,
            read_time,
            write_time,
        ),
{
    let io = match (read_time, write_time) {
        (Some(rt), Some(wt)) => Some(rt + wt),
        _ => None,
    };
    let name = match name {
        Some(n) => n,
        None => {
            let v = vec!['d', 'i', 's', 'k', '?'];
            assert(v@ =~= unknown_disk());
            string_from_chars(&v)
        },
    };
    DiskStats {
        name,
        read_bytes: or_zero(read_bytes),
        written_bytes: or_zero(written_bytes),
        read_ops: or_zero(read_ops),
        write_ops: or_zero(write_ops),
        busy_time_ns: io,
        io_time_ns: io,
        weighted_ns: None,
    }
}

/// `std::str::from_utf8`: the bytes as text exactly when they are valid
/// UTF-8, decoded.
#[verifier::external_body]
fn str_from_utf8(b: &Vec<u8>) -> (r: Option<String>)
    ensures
        r is Some <==> vstd::utf8::valid_utf8(b@),
        r matches Some(s) ==> s@ == vstd::utf8::decode_utf8(b@),
{
    std::str::from_utf8(b.as_slice()).ok().map(|s| s.to_string())
}

/// The cpu brand from the `machdep.cpu.brand_string` buffer: the bytes up
/// to the first NUL, which must be valid UTF-8, trimmed; none when empty.
pub open spec fn brand_spec(buf: Seq<u8>) -> Option<Seq<char>> {
    let b = before_nul(buf);
    if vstd::utf8::valid_utf8(b) && trim(vstd::utf8::decode_utf8(b)).len() > 0 {
        Some(trim(vstd::utf8::decode_utf8(b)))
    } else {
        None
    }
}

pub fn brand_from_buf(buf: &Vec<u8>) -> (r: Option<String>)
    ensures
        match r {
            Some(s) => brand_spec(buf@) == Some(s@),
            None => brand_spec(buf@) is None,
        },
{
    let text = match str_from_utf8(&cut_at_nul(buf)) {
        Some(t) => t,
        None => return None,
    };
    let t = trim_chars(&to_chars(text.as_str()));
    if t.len() == 0 {
        None
    } else {
        Some(string_from_chars(&t))
    }
}

/// The temperature sensors the cpu reading averages, in order of preference.
#[derive(Debug, Clone, Copy, PartialEq, Eq, Structural)]
pub enum SensorGroup {
    /// `PMU tdie*`: the die sensors
    Die,
    /// `eACC*` / `pACC*`: the efficiency and performance clusters
    Cluster,
    /// `SOC MTR Temp Sensor*`
    Soc,
}

pub open spec fn sensor_group_spec(name: Seq<char>) -> Option<SensorGroup> {
    if has_prefix(name, seq!['P', 'M', 'U', ' ', 't', 'd', 'i', 'e']) {
        Some(SensorGroup::Die)
    } else if has_prefix(name, seq!['e', 'A', 'C', 'C']) || has_prefix(name, seq!['p', 'A', 'C', 'C']) {
        Some(SensorGroup::Cluster)
    } else if has_prefix(
        name,
        seq!['S', 'O', 'C', ' ', 'M', 'T', 'R', ' ', 'T', 'e', 'm', 'p', ' ', 'S', 'e', 'n', 's', 'o', 'r'],
    ) {
        Some(SensorGroup::Soc)
    } else {
        None
    }
}

/// Which group an HID temperature service belongs to, by its `Product`
/// name; none for the sensors the cpu reading ignores.
pub fn sensor_group(name: &str) -> (r: Option<SensorGroup>)
    ensures
        r == sensor_group_spec(name@),
{
    let n = to_chars(name);
    let die = vec!['P', 'M', 'U', ' ', 't', 'd', 'i', 'e'];
    let e = vec!['e', 'A', 'C', 'C'];
    let p = vec!['p', 'A', 'C', 'C'];
    let soc = vec!['S', 'O', 'C', ' ', 'M', 'T', 'R', ' ', 'T', 'e', 'm', 'p', ' ', 'S', 'e', 'n', 's', 'o', 'r'];
    assert(die@ =~= seq!['P', 'M', 'U', ' ', 't', 'd', 'i', 'e']);
    assert(e@ =~= seq!['e', 'A', 'C', 'C']);
    assert(p@ =~= seq!['p', 'A', 'C', 'C']);
    assert(soc@ =~= seq!['S', 'O', 'C', ' ', 'M', 'T', 'R', ' ', 'T', 'e', 'm', 'p', ' ', 'S', 'e', 'n', 's', 'o', 'r']);
    if starts_with(&n, &die) {
        Some(SensorGroup::Die)
    } else if starts_with(&n, &e) || starts_with(&n, &p) {
        Some(SensorGroup::Cluster)
    } else if starts_with(&n, &soc) {
        Some(SensorGroup::Soc)
    } else {
        None
    }
}

/// The group whose readings make the cpu temperature: the first of die,
/// cluster and SoC sensors that produced any reading in range.
pub fn temp_source(die: usize, cluster: usize, soc: usize) -> (r: Option<SensorGroup>)
    ensures
        r == (if die > 0 {
            Some(SensorGroup::Die)
        } else if cluster > 0 {
            Some(SensorGroup::Cluster)
        } else if soc > 0 {
            Some(SensorGroup::Soc)
        } else {
            None
        }),
{
    if die > 0 {
        Some(SensorGroup::Die)
    } else if cluster > 0 {
        Some(SensorGroup::Cluster)
    } else if soc > 0 {
        Some(SensorGroup::Soc)
    } else {
        None
    }
}

} // verus!
