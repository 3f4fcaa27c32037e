//! The monitor's state machine: the process list with its sort, filter,
//! thread and tree views, the selection that follows a row across resorts,
//! the modal prompts, and the deltas a new snapshot yields.

use vstd::prelude::*;
use crate::text::{concat_chars, decimal, string_from_chars, to_chars, u64_decimal};
use crate::update::occurs_at;

verus! {

/// How the process list is ordered.
#[derive(Debug, Clone, Copy, PartialEq, Eq, Structural)]
pub enum SortBy {
    Cpu,
    Mem,
    Io,
    Name,
}

/// One row of the process list: a process, or (with `tid`) one of its threads.
#[derive(Debug)]
pub struct ProcRow {
    pub pid: i32,
    /// parent pid, 0 = none/unknown; thread rows carry their owner's pid
    pub ppid: i32,
    pub name: String,
    /// cpu time burned since the previous snapshot, in ns (the cpu column is
    /// this over the snapshot interval)
    pub cpu_ns: u64,
    pub rss: u64,
    /// bytes read plus written since the previous snapshot; None when the
    /// counters are not ours to read
    pub io_bytes: Option<u64>,
    /// Some = this row is a thread of `pid`, not a process
    pub tid: Option<u64>,
    /// pre-rendered tree rail ("├─ ", "│  └─ ", ...); empty for flat proc rows
    pub prefix: String,
}

pub struct RowModel {
    pub pid: i32,
    pub ppid: i32,
    pub name: Seq<char>,
    pub cpu_ns: u64,
    pub rss: u64,
    pub io_bytes: Option<u64>,
    pub tid: Option<u64>,
    pub prefix: Seq<char>,
}

impl View for ProcRow {
    type V = RowModel;

    open spec fn view(&self) -> RowModel {
        RowModel {
            pid: self.pid,
            ppid: self.ppid,
            name: self.name@,
            cpu_ns: self.cpu_ns,
            rss: self.rss,
            io_bytes: self.io_bytes,
            tid: self.tid,
            prefix: self.prefix@,
        }
    }
}

impl ProcRow {
    /// A copy of the row.
    pub fn dup(&self) -> (r: ProcRow)
        ensures
            r@ == self@,
    {
        ProcRow {
            pid: self.pid,
            ppid: self.ppid,
            name: self.name.clone(),
            cpu_ns: self.cpu_ns,
            rss: self.rss,
            io_bytes: self.io_bytes,
            tid: self.tid,
            prefix: self.prefix.clone(),
        }
    }

    /// The same row with another rail prefix.
    pub fn with_prefix(&self, prefix: Vec<char>) -> (r: ProcRow)
        ensures
            r@ == (RowModel { prefix: prefix@, ..self@ }),
    {
        ProcRow {
            pid: self.pid,
            ppid: self.ppid,
            name: self.name.clone(),
            cpu_ns: self.cpu_ns,
            rss: self.rss,
            io_bytes: self.io_bytes,
            tid: self.tid,
            prefix: string_from_chars(&prefix),
        }
    }
}

pub open spec fn rows_view(v: Seq<ProcRow>) -> Seq<RowModel> {
    v.map_values(|r: ProcRow| r@)
}

/// The identity the selection is anchored to: (pid, tid).
pub open spec fn row_id(r: RowModel) -> (i32, Option<u64>) {
    (r.pid, r.tid)
}

/// The first index of a row with the given identity, or -1.
pub open spec fn index_of_id(rows: Seq<RowModel>, id: (i32, Option<u64>)) -> int
    decreases rows.len(),
{
    if rows.len() == 0 {
        -1
    } else if row_id(rows[0]) == id {
        0
    } else {
        let r = index_of_id(rows.drop_first(), id);
        if r < 0 {
            -1
        } else {
            r + 1
        }
    }
}

pub proof fn lemma_index_of_id(rows: Seq<RowModel>, id: (i32, Option<u64>), i: int)
    requires
        0 <= i <= rows.len(),
        forall|j: int| 0 <= j < i ==> row_id(#[trigger] rows[j]) != id,
    ensures
        i < rows.len() && row_id(rows[i]) == id ==> index_of_id(rows, id) == i,
        i == rows.len() ==> index_of_id(rows, id) == -1,
    decreases i,
{
    if i > 0 {
        assert forall|j: int| 0 <= j < i - 1 implies row_id(#[trigger] rows.drop_first()[j])
            != id by {
            assert(rows.drop_first()[j] == rows[j + 1]);
        }
        lemma_index_of_id(rows.drop_first(), id, i - 1);
    }
}

pub proof fn lemma_index_of_id_bounds(rows: Seq<RowModel>, id: (i32, Option<u64>))
    ensures
        -1 <= index_of_id(rows, id) < rows.len(),
        index_of_id(rows, id) >= 0 ==> row_id(rows[index_of_id(rows, id)]) == id,
    decreases rows.len(),
{
    if rows.len() > 0 && row_id(rows[0]) != id {
        lemma_index_of_id_bounds(rows.drop_first(), id);
    }
}

/// The row the monitor can find an identity at.
pub fn find_row(rows: &Vec<ProcRow>, id: (i32, Option<u64>)) -> (r: Option<usize>)
    ensures
        match r {
            Some(i) => index_of_id(rows_view(rows@), id) == i as int && i < rows@.len(),
            None => index_of_id(rows_view(rows@), id) == -1,
        },
{
    let ghost rv = rows_view(rows@);
    let mut i: usize = 0;
    while i < rows.len()
        invariant
            i <= rows@.len(),
            rv == rows_view(rows@),
            forall|j: int| 0 <= j < i ==> row_id(#[trigger] rv[j]) != id,
        decreases rows@.len() - i,
    {
        assert(rv[i as int] == rows@[i as int]@);
        if rows[i].pid == id.0 && rows[i].tid == id.1 {
            proof {
                lemma_index_of_id(rv, id, i as int);
            }
            return Some(i);
        }
        i += 1;
    }
    proof {
        lemma_index_of_id(rv, id, i as int);
    }
    None
}


/// What `str::to_lowercase` makes of a string.
pub uninterp spec fn lowercase(s: Seq<char>) -> Seq<char>;

/// `str::to_lowercase` on the characters of `s`.
#[verifier::external_body]
pub fn to_lowercase_chars(s: &Vec<char>) -> (r: Vec<char>)
    ensures
        r@ == lowercase(s@),
{
    let t: String = s.iter().collect();
    t.to_lowercase().chars().collect()
}

/// Lexicographic order on character strings (`a < b` as `String`s compare).
pub open spec fn lex_lt(a: Seq<char>, b: Seq<char>) -> bool
    decreases a.len(),
{
    if a.len() == 0 {
        b.len() > 0
    } else if b.len() == 0 {
        false
    } else if a[0] != b[0] {
        (a[0] as u32) < (b[0] as u32)
    } else {
        lex_lt(a.drop_first(), b.drop_first())
    }
}

pub fn lex_lt_exec(a: &Vec<char>, b: &Vec<char>) -> (r: bool)
    ensures
        r == lex_lt(a@, b@),
{
    let mut i: usize = 0;
    assert(a@.skip(0) == a@ && b@.skip(0) == b@);
    loop
        invariant
            i <= a@.len(),
            i <= b@.len(),
            lex_lt(a@, b@) == lex_lt(a@.skip(i as int), b@.skip(i as int)),
        decreases a@.len() - i,
    {
        if i == a.len() {
            return i < b.len();
        }
        if i == b.len() {
            return false;
        }
        if a[i] != b[i] {
            return (a[i] as u32) < (b[i] as u32);
        }
        assert(a@.skip(i as int).drop_first() == a@.skip(i + 1));
        assert(b@.skip(i as int).drop_first() == b@.skip(i + 1));
        i += 1;
    }
}

/// Option order as `Ord` defines it: None first, then by value.
pub open spec fn tid_lt(a: Option<u64>, b: Option<u64>) -> bool {
    match (a, b) {
        (None, Some(_)) => true,
        (Some(x), Some(y)) => x < y,
        _ => false,
    }
}

/// Whether row `a` sorts strictly before row `b`; `la`/`lb` are their
/// lowercased names. Process rows: cpu and rss descending for Cpu, rss
/// descending for Mem, io descending (None last) then rss for Io, name
/// ascending for Name. Thread rows (`threads`): name then tid ascending for
/// Name, otherwise cpu descending then tid ascending.
pub open spec fn row_lt(
    sort: SortBy,
    threads: bool,
    a: RowModel,
    b: RowModel,
    la: Seq<char>,
    lb: Seq<char>,
) -> bool {
    if threads {
        match sort {
            SortBy::Name => lex_lt(la, lb) || (la == lb && tid_lt(a.tid, b.tid)),
            _ => a.cpu_ns > b.cpu_ns || (a.cpu_ns == b.cpu_ns && tid_lt(a.tid, b.tid)),
        }
    } else {
        match sort {
            SortBy::Cpu => a.cpu_ns > b.cpu_ns || (a.cpu_ns == b.cpu_ns && a.rss > b.rss),
            SortBy::Mem => a.rss > b.rss,
            SortBy::Io => match (a.io_bytes, b.io_bytes) {
                (Some(x), Some(y)) => x > y || (x == y && a.rss > b.rss),
                (Some(_), None) => true,
                (None, Some(_)) => false,
                (None, None) => a.rss > b.rss,
            },
            SortBy::Name => lex_lt(la, lb),
        }
    }
}

pub open spec fn row_before(sort: SortBy, threads: bool, a: RowModel, b: RowModel) -> bool {
    row_lt(sort, threads, a, b, lowercase(a.name), lowercase(b.name))
}

fn row_lt_exec(
    sort: SortBy,
    threads: bool,
    a: &ProcRow,
    b: &ProcRow,
    la: &Vec<char>,
    lb: &Vec<char>,
) -> (r: bool)
    ensures
        r == row_lt(sort, threads, a@, b@, la@, lb@),
{
    let tid_less = match (a.tid, b.tid) {
        (None, Some(_)) => true,
        (Some(x), Some(y)) => x < y,
        _ => false,
    };
    if threads {
        match sort {
            SortBy::Name => lex_lt_exec(la, lb) || (crate::text::chars_eq(la, lb) && tid_less),
            _ => a.cpu_ns > b.cpu_ns || (a.cpu_ns == b.cpu_ns && tid_less),
        }
    } else {
        match sort {
            SortBy::Cpu => a.cpu_ns > b.cpu_ns || (a.cpu_ns == b.cpu_ns && a.rss > b.rss),
            SortBy::Mem => a.rss > b.rss,
            SortBy::Io => match (a.io_bytes, b.io_bytes) {
                (Some(x), Some(y)) => x > y || (x == y && a.rss > b.rss),
                (Some(_), None) => true,
                (None, Some(_)) => false,
                (None, None) => a.rss > b.rss,
            },
            SortBy::Name => lex_lt_exec(la, lb),
        }
    }
}

/// `x` inserted into `s` before the first row it sorts strictly before, so
/// that it lands after every row it ties with.
pub open spec fn insert_row(sort: SortBy, threads: bool, s: Seq<RowModel>, x: RowModel) -> Seq<
    RowModel,
>
    decreases s.len(),
{
    if s.len() == 0 {
        seq![x]
    } else if row_before(sort, threads, x, s[0]) {
        seq![x] + s
    } else {
        seq![s[0]] + insert_row(sort, threads, s.drop_first(), x)
    }
}

/// The stable sort of `s` under the row order (`slice::sort_by`).
pub open spec fn sort_rows(sort: SortBy, threads: bool, s: Seq<RowModel>) -> Seq<RowModel>
    decreases s.len(),
{
    if s.len() == 0 {
        seq![]
    } else {
        insert_row(sort, threads, sort_rows(sort, threads, s.drop_last()), s.last())
    }
}

proof fn lemma_insert_row_at(sort: SortBy, threads: bool, s: Seq<RowModel>, x: RowModel, k: int)
    requires
        0 <= k <= s.len(),
        forall|j: int| 0 <= j < k ==> !row_before(sort, threads, x, #[trigger] s[j]),
        k < s.len() ==> row_before(sort, threads, x, s[k]),
    ensures
        insert_row(sort, threads, s, x) == s.take(k) + seq![x] + s.skip(k),
    decreases k,
{
    if s.len() == 0 {
        assert(s.take(k) + seq![x] + s.skip(k) =~= seq![x]);
    } else if k == 0 {
        assert(s.take(0) + seq![x] + s.skip(0) =~= seq![x] + s);
    } else {
        assert forall|j: int| 0 <= j < k - 1 implies !row_before(
            sort,
            threads,
            x,
            #[trigger] s.drop_first()[j],
        ) by {
            assert(s.drop_first()[j] == s[j + 1]);
        }
        lemma_insert_row_at(sort, threads, s.drop_first(), x, k - 1);
        assert(seq![s[0]] + (s.drop_first().take(k - 1) + seq![x] + s.drop_first().skip(k - 1))
            =~= s.take(k) + seq![x] + s.skip(k));
    }
}

/// Sorts rows stably under the row order.
pub fn sort_rows_exec(sort: SortBy, threads: bool, rows: &Vec<ProcRow>) -> (r: Vec<ProcRow>)
    ensures
        rows_view(r@) == sort_rows(sort, threads, rows_view(rows@)),
{
    let ghost input = rows_view(rows@);
    let mut out: Vec<ProcRow> = Vec::new();
    let mut keys: Vec<Vec<char>> = Vec::new();
    let mut i: usize = 0;
    while i < rows.len()
        invariant
            i <= rows@.len(),
            input == rows_view(rows@),
            rows_view(out@) == sort_rows(sort, threads, input.take(i as int)),
            keys@.len() == out@.len(),
            forall|j: int| 0 <= j < out@.len() ==> (#[trigger] keys@[j])@ == lowercase(out@[j].name@),
        decreases rows@.len() - i,
    {
        let x = rows[i].dup();
        let lx = to_lowercase_chars(&crate::text::to_chars(x.name.as_str()));
        assert(input.take(i + 1).drop_last() == input.take(i as int));
        assert(input[i as int] == x@);
        let ghost s = rows_view(out@);
        let mut k: usize = 0;
        while k < out.len() && !row_lt_exec(sort, threads, &x, &out[k], &lx, &keys[k])
            invariant
                k <= out@.len(),
                s == rows_view(out@),
                keys@.len() == out@.len(),
                forall|j: int| 0 <= j < out@.len() ==> (#[trigger] keys@[j])@ == lowercase(
                    out@[j].name@,
                ),
                lx@ == lowercase(x@.name),
                forall|j: int| 0 <= j < k ==> !row_before(sort, threads, x@, #[trigger] s[j]),
            decreases out@.len() - k,
        {
            assert(s[k as int] == out@[k as int]@);
            k += 1;
        }
        proof {
            if k < out@.len() {
                assert(s[k as int] == out@[k as int]@);
            }
            lemma_insert_row_at(sort, threads, s, x@, k as int);
        }
        let ghost old_keys = keys@;
        out.insert(k, x);
        keys.insert(k, lx);
        assert(rows_view(out@) =~= s.take(k as int) + seq![x@] + s.skip(k as int));
        assert forall|j: int| 0 <= j < out@.len() implies (#[trigger] keys@[j])@ == lowercase(
            out@[j].name@,
        ) by {
            if j < k {
                assert(keys@[j] == old_keys[j]);
            } else if j > k {
                assert(keys@[j] == old_keys[j - 1]);
            }
        }
        i += 1;
    }
    assert(input.take(rows@.len() as int) == input);
    out
}


/// `needle` occurs somewhere in `hay` (`str::contains`).
pub open spec fn contains(hay: Seq<char>, needle: Seq<char>) -> bool {
    exists|i: int| occurs_at(hay, needle, i)
}

pub fn contains_exec(hay: &Vec<char>, needle: &Vec<char>) -> (r: bool)
    ensures
        r == contains(hay@, needle@),
{
    if needle.len() > hay.len() {
        assert forall|i: int| !occurs_at(hay@, needle@, i) by {}
        return false;
    }
    let mut i: usize = 0;
    while i <= hay.len() - needle.len()
        invariant
            needle.len() <= hay.len(),
            i <= hay.len() - needle.len() + 1,
            forall|j: int| 0 <= j < i ==> !occurs_at(hay@, needle@, j),
        decreases hay.len() - needle.len() + 1 - i,
    {
        let mut j: usize = 0;
        let mut ok = true;
        while j < needle.len()
            invariant
                j <= needle.len(),
                i + needle.len() <= hay.len(),
                ok == (forall|t: int| 0 <= t < j ==> hay@[i + t] == needle@[t]),
            decreases needle.len() - j,
        {
            if hay[i + j] != needle[j] {
                ok = false;
            }
            j += 1;
        }
        if ok {
            assert(hay@.subrange(i as int, i + needle.len()) =~= needle@);
            assert(occurs_at(hay@, needle@, i as int));
            return true;
        }
        assert(!(hay@.subrange(i as int, i + needle.len()) =~= needle@));
        i += 1;
    }
    assert forall|j: int| !occurs_at(hay@, needle@, j) by {
        if 0 <= j && j + needle@.len() <= hay@.len() {
            assert(j < i);
        }
    }
    false
}

/// The decimal text of a pid (`i32::to_string`).
pub open spec fn i32_decimal(n: i32) -> Seq<char> {
    if n < 0 {
        seq!['-'] + decimal((-n) as nat)
    } else {
        decimal(n as nat)
    }
}

pub fn i32_decimal_exec(n: i32) -> (r: Vec<char>)
    ensures
        r@ == i32_decimal(n),
{
    if n < 0 {
        let m: u64 = (-(n as i64)) as u64;
        concat_chars(&vec!['-'], &u64_decimal(m))
    } else {
        u64_decimal(n as u64)
    }
}

/// A row passes the (lowercased) filter when its lowercased name or its pid
/// digits contain it.
pub open spec fn row_matches(r: RowModel, needle: Seq<char>) -> bool {
    contains(lowercase(r.name), needle) || contains(i32_decimal(r.pid), needle)
}

/// The rows that pass the filter, in order.
pub open spec fn filter_rows(rows: Seq<RowModel>, needle: Seq<char>) -> Seq<RowModel>
    decreases rows.len(),
{
    if rows.len() == 0 {
        seq![]
    } else if row_matches(rows.last(), needle) {
        filter_rows(rows.drop_last(), needle).push(rows.last())
    } else {
        filter_rows(rows.drop_last(), needle)
    }
}

/// What the process panel shows before sorting: every row for an empty
/// filter, else the rows matching the lowercased filter.
pub open spec fn visible_rows(all: Seq<RowModel>, filter: Seq<char>) -> Seq<RowModel> {
    if filter.len() == 0 {
        all
    } else {
        filter_rows(all, lowercase(filter))
    }
}

pub fn visible_rows_exec(all: &Vec<ProcRow>, filter: &Vec<char>) -> (r: Vec<ProcRow>)
    ensures
        rows_view(r@) == visible_rows(rows_view(all@), filter@),
{
    let ghost av = rows_view(all@);
    let needle = to_lowercase_chars(filter);
    let mut out: Vec<ProcRow> = Vec::new();
    let mut i: usize = 0;
    while i < all.len()
        invariant
            i <= all@.len(),
            av == rows_view(all@),
            needle@ == lowercase(filter@),
            filter@.len() == 0 ==> rows_view(out@) == av.take(i as int),
            filter@.len() > 0 ==> rows_view(out@) == filter_rows(av.take(i as int), needle@),
        decreases all@.len() - i,
    {
        assert(av.take(i + 1).drop_last() == av.take(i as int));
        assert(av[i as int] == all@[i as int]@);
        let r = &all[i];
        let keep = if filter.len() == 0 {
            true
        } else {
            let lname = to_lowercase_chars(&to_chars(r.name.as_str()));
            contains_exec(&lname, &needle) || contains_exec(&i32_decimal_exec(r.pid), &needle)
        };
        if keep {
            let ghost before = out@;
            out.push(r.dup());
            assert(rows_view(out@) == rows_view(before).push(r@));
        }
        assert(av.take(i + 1) == av.take(i as int).push(av[i as int]));
        i += 1;
    }
    assert(av.take(all@.len() as int) == av);
    out
}

/// The thread rows kept for `pid`: the last entry with that pid.
pub open spec fn threads_for(tb: Seq<(i32, Seq<RowModel>)>, pid: i32) -> Option<Seq<RowModel>>
    decreases tb.len(),
{
    if tb.len() == 0 {
        None
    } else if tb.last().0 == pid {
        Some(tb.last().1)
    } else {
        threads_for(tb.drop_last(), pid)
    }
}

pub open spec fn tb_view(tb: Seq<(i32, Vec<ProcRow>)>) -> Seq<(i32, Seq<RowModel>)> {
    tb.map_values(|e: (i32, Vec<ProcRow>)| (e.0, rows_view(e.1@)))
}

fn threads_for_exec(tb: &Vec<(i32, Vec<ProcRow>)>, pid: i32) -> (r: Option<usize>)
    ensures
        match r {
            Some(k) => k < tb@.len() && threads_for(tb_view(tb@), pid) == Some(
                rows_view(tb@[k as int].1@),
            ),
            None => threads_for(tb_view(tb@), pid) is None,
        },
{
    let ghost v = tb_view(tb@);
    let mut i: usize = tb.len();
    assert(v.take(tb@.len() as int) == v);
    while i > 0
        invariant
            i <= tb@.len(),
            v == tb_view(tb@),
            threads_for(v, pid) == threads_for(v.take(i as int), pid),
        decreases i,
    {
        assert(v.take(i as int).last() == v[i - 1]);
        assert(v.take(i as int).drop_last() == v.take(i - 1));
        if tb[i - 1].0 == pid {
            return Some(i - 1);
        }
        i -= 1;
    }
    None
}

pub open spec fn tee() -> Seq<char> {
    seq!['├', '─', ' ']
}

pub open spec fn elbow() -> Seq<char> {
    seq!['└', '─', ' ']
}

/// Rails a run of thread rows under their process: `├─ ` each, `└─ ` on the last.
pub open spec fn rail_threads(ts: Seq<RowModel>) -> Seq<RowModel> {
    Seq::new(
        ts.len(),
        |i: int| RowModel { prefix: if i + 1 == ts.len() { elbow() } else { tee() }, ..ts[i] },
    )
}

/// Flat list with threads: each process followed by its sorted, railed threads.
pub open spec fn weave(sort: SortBy, parents: Seq<RowModel>, tb: Seq<(i32, Seq<RowModel>)>) -> Seq<
    RowModel,
>
    decreases parents.len(),
{
    if parents.len() == 0 {
        seq![]
    } else {
        let p = parents.last();
        let rest = weave(sort, parents.drop_last(), tb);
        match threads_for(tb, p.pid) {
            None => rest.push(p),
            Some(ts) => rest.push(p) + rail_threads(sort_rows(sort, true, ts)),
        }
    }
}

fn rail_threads_exec(ts: &Vec<ProcRow>, out: &mut Vec<ProcRow>)
    ensures
        rows_view(final(out)@) == rows_view(old(out)@) + rail_threads(rows_view(ts@)),
{
    let ghost start = rows_view(out@);
    let ghost tv = rows_view(ts@);
    let mut i: usize = 0;
    while i < ts.len()
        invariant
            i <= ts@.len(),
            tv == rows_view(ts@),
            rows_view(out@) == start + rail_threads(tv).take(i as int),
        decreases ts@.len() - i,
    {
        let pre = if i + 1 == ts.len() {
            vec!['└', '─', ' ']
        } else {
            vec!['├', '─', ' ']
        };
        let row = ts[i].with_prefix(pre);
        let ghost before = rows_view(out@);
        out.push(row);
        assert(rail_threads(tv)[i as int] == row@);
        assert(rows_view(out@) == before.push(row@));
        assert(rail_threads(tv).take(i + 1) == rail_threads(tv).take(i as int).push(row@));
        i += 1;
    }
    assert(rail_threads(tv).take(ts@.len() as int) == rail_threads(tv));
}

pub fn weave_exec(sort: SortBy, parents: &Vec<ProcRow>, tb: &Vec<(i32, Vec<ProcRow>)>) -> (r: Vec<
    ProcRow,
>)
    ensures
        rows_view(r@) == weave(sort, rows_view(parents@), tb_view(tb@)),
{
    let ghost pv = rows_view(parents@);
    let mut out: Vec<ProcRow> = Vec::new();
    let mut i: usize = 0;
    while i < parents.len()
        invariant
            i <= parents@.len(),
            pv == rows_view(parents@),
            rows_view(out@) == weave(sort, pv.take(i as int), tb_view(tb@)),
        decreases parents@.len() - i,
    {
        assert(pv.take(i + 1).drop_last() == pv.take(i as int));
        assert(pv.take(i + 1).last() == parents@[i as int]@);
        let p = &parents[i];
        let ghost before = rows_view(out@);
        out.push(p.dup());
        assert(rows_view(out@) == before.push(p@));
        match threads_for_exec(tb, p.pid) {
            None => {},
            Some(k) => {
                let ts = sort_rows_exec(sort, true, &tb[k].1);
                rail_threads_exec(&ts, &mut out);
            },
        }
        i += 1;
    }
    assert(pv.take(parents@.len() as int) == pv);
    out
}


/// Some row of `procs` has this pid.
pub open spec fn has_pid(procs: Seq<RowModel>, pid: i32) -> bool {
    exists|j: int| 0 <= j < procs.len() && (#[trigger] procs[j]).pid == pid
}

/// A row starts a tree when it has no parent, is its own parent, or its
/// parent is not in the list.
pub open spec fn is_root(procs: Seq<RowModel>, i: int) -> bool {
    procs[i].ppid <= 0 || procs[i].ppid == procs[i].pid || !has_pid(procs, procs[i].ppid)
}

/// The indices below `k` of the not-yet-seen non-root rows whose parent is `pid`.
pub open spec fn kids_upto(procs: Seq<RowModel>, seen: Seq<bool>, pid: i32, k: int) -> Seq<int>
    decreases k,
{
    if k <= 0 {
        seq![]
    } else {
        let rest = kids_upto(procs, seen, pid, k - 1);
        if !is_root(procs, k - 1) && procs[k - 1].ppid == pid && !seen[k - 1] {
            rest.push(k - 1)
        } else {
            rest
        }
    }
}

/// Every row sharing `pid` marked seen.
pub open spec fn mark_pid(procs: Seq<RowModel>, seen: Seq<bool>, pid: i32) -> Seq<bool> {
    Seq::new(seen.len(), |j: int| seen[j] || procs[j].pid == pid)
}

/// The rail the children of a row see: `│` keeps it alive past a `├─`,
/// blanks past a `└─`, nothing is added under a root.
pub open spec fn child_rail(rail: Seq<char>, glyph: Seq<char>) -> Seq<char> {
    if glyph.len() == 0 {
        rail
    } else if glyph == tee() {
        rail + seq!['│', ' ', ' ']
    } else {
        rail + seq![' ', ' ', ' ']
    }
}

pub open spec fn branch_glyph(last: bool) -> Seq<char> {
    if last {
        elbow()
    } else {
        tee()
    }
}

/// Thread rows railed under a tree row: `rail` then `├─ `, or `└─ ` on the
/// very last of the row's children (threads first, then child processes).
pub open spec fn tree_threads(ts: Seq<RowModel>, rail: Seq<char>, total: int) -> Seq<RowModel> {
    Seq::new(
        ts.len(),
        |j: int| RowModel { prefix: rail + branch_glyph(j + 1 == total), ..ts[j] },
    )
}

/// What the tree walk reads but never changes.
pub struct TreeCtx {
    pub procs: Seq<RowModel>,
    pub tb: Seq<(i32, Seq<RowModel>)>,
    pub show_threads: bool,
    pub sort: SortBy,
}

/// The sorted thread rows a process shows in the tree.
pub open spec fn tree_thread_rows(c: TreeCtx, pid: i32) -> Seq<RowModel> {
    if c.show_threads {
        match threads_for(c.tb, pid) {
            Some(ts) => sort_rows(c.sort, true, ts),
            None => seq![],
        }
    } else {
        seq![]
    }
}

/// The depth-first walk from row `idx`: the row with its rail and glyph,
/// then its threads, then each unseen child process; a row whose pid was
/// already seen (a ppid cycle) is skipped. `fuel` bounds the depth.
pub open spec fn walk_spec(
    fuel: nat,
    c: TreeCtx,
    out: Seq<RowModel>,
    seen: Seq<bool>,
    idx: int,
    rail: Seq<char>,
    glyph: Seq<char>,
) -> (Seq<RowModel>, Seq<bool>)
    decreases fuel, 0nat,
{
    if fuel == 0 || seen[idx] {
        (out, seen)
    } else {
        let p = c.procs[idx];
        let seen1 = mark_pid(c.procs, seen, p.pid);
        let out1 = out.push(RowModel { prefix: rail + glyph, ..p });
        let rail2 = child_rail(rail, glyph);
        let kids = kids_upto(c.procs, seen1, p.pid, c.procs.len() as int);
        let ts = tree_thread_rows(c, p.pid);
        let total = (ts.len() + kids.len()) as int;
        let out2 = out1 + tree_threads(ts, rail2, total);
        walk_kids_spec((fuel - 1) as nat, c, out2, seen1, kids, 0, ts.len() as int, total, rail2)
    }
}

/// Walks the children `kids[j..]` in order, each with `├─ `, the last
/// child of the row with `└─ `.
pub open spec fn walk_kids_spec(
    fuel: nat,
    c: TreeCtx,
    out: Seq<RowModel>,
    seen: Seq<bool>,
    kids: Seq<int>,
    j: int,
    nt: int,
    total: int,
    rail: Seq<char>,
) -> (Seq<RowModel>, Seq<bool>)
    decreases fuel, kids.len() - j + 1,
{
    if j < 0 || j >= kids.len() {
        (out, seen)
    } else {
        let (out1, seen1) = walk_spec(
            fuel,
            c,
            out,
            seen,
            kids[j],
            rail,
            branch_glyph(nt + j + 1 == total),
        );
        walk_kids_spec(fuel, c, out1, seen1, kids, j + 1, nt, total, rail)
    }
}

/// The roots walked in index order, then every row still unseen (cycle
/// members) walked as an extra root.
pub open spec fn sweep_spec(
    fuel: nat,
    c: TreeCtx,
    out: Seq<RowModel>,
    seen: Seq<bool>,
    i: int,
    roots_only: bool,
) -> (Seq<RowModel>, Seq<bool>)
    decreases c.procs.len() - i,
{
    if i < 0 || i >= c.procs.len() {
        (out, seen)
    } else if roots_only && !is_root(c.procs, i) {
        sweep_spec(fuel, c, out, seen, i + 1, roots_only)
    } else {
        let (out1, seen1) = walk_spec(fuel, c, out, seen, i, seq![], seq![]);
        sweep_spec(fuel, c, out1, seen1, i + 1, roots_only)
    }
}

/// The ppid tree flattened depth-first (roots in list order, children in
/// list order, threads before child processes), with rails.
pub open spec fn tree_spec(c: TreeCtx) -> Seq<RowModel> {
    let n = c.procs.len();
    let (out1, seen1) = sweep_spec(
        (n + 1) as nat,
        c,
        seq![],
        Seq::new(n, |j: int| false),
        0,
        true,
    );
    sweep_spec((n + 1) as nat, c, out1, seen1, 0, false).0
}


/// Number of rows not yet seen.
pub open spec fn unseen(seen: Seq<bool>) -> nat
    decreases seen.len(),
{
    if seen.len() == 0 {
        0
    } else {
        unseen(seen.drop_last()) + (if seen.last() {
            0nat
        } else {
            1nat
        })
    }
}

proof fn lemma_unseen_le_len(s: Seq<bool>)
    ensures
        unseen(s) <= s.len(),
    decreases s.len(),
{
    if s.len() > 0 {
        lemma_unseen_le_len(s.drop_last());
    }
}

proof fn lemma_unseen_mono(s1: Seq<bool>, s2: Seq<bool>)
    requires
        s1.len() == s2.len(),
        forall|j: int| 0 <= j < s1.len() && #[trigger] s1[j] ==> s2[j],
    ensures
        unseen(s2) <= unseen(s1),
        (exists|i: int| 0 <= i < s1.len() && !s1[i] && s2[i]) ==> unseen(s2) < unseen(s1),
    decreases s1.len(),
{
    if s1.len() > 0 {
        let a = s1.drop_last();
        let b = s2.drop_last();
        assert forall|j: int| 0 <= j < a.len() && #[trigger] a[j] implies b[j] by {
            assert(a[j] == s1[j] && b[j] == s2[j]);
        }
        lemma_unseen_mono(a, b);
        if exists|i: int| 0 <= i < s1.len() && !s1[i] && s2[i] {
            let i = choose|i: int| 0 <= i < s1.len() && !s1[i] && s2[i];
            if i < s1.len() - 1 {
                assert(!a[i] && b[i]);
            }
        }
    }
}

/// The tree walk's bookkeeping: process rows and seen rows agree one to one
/// by pid, and seen-ness is shared by every row with the same pid.
pub open spec fn tree_inv(procs: Seq<RowModel>, out: Seq<RowModel>, seen: Seq<bool>) -> bool {
    &&& seen.len() == procs.len()
    &&& forall|i: int|
        0 <= i < procs.len() && #[trigger] seen[i] ==> exists|k: int|
            0 <= k < out.len() && out[k].tid is None && (#[trigger] out[k]).pid == procs[i].pid
    &&& forall|k: int|
        0 <= k < out.len() && (#[trigger] out[k]).tid is None ==> exists|i: int|
            0 <= i < procs.len() && seen[i] && (#[trigger] procs[i]).pid == out[k].pid
    &&& forall|k1: int, k2: int|
        0 <= k1 < out.len() && 0 <= k2 < out.len() && k1 != k2 && (#[trigger] out[k1]).tid is None
            && (#[trigger] out[k2]).tid is None ==> out[k1].pid != out[k2].pid
    &&& forall|i: int, j: int|
        0 <= i < procs.len() && 0 <= j < procs.len() && #[trigger] seen[i] && (#[trigger] procs[j]).pid
            == procs[i].pid ==> seen[j]
}

pub open spec fn all_procs_rows(v: Seq<RowModel>) -> bool {
    forall|i: int| 0 <= i < v.len() ==> (#[trigger] v[i]).tid is None
}

pub open spec fn all_thread_rows(v: Seq<RowModel>) -> bool {
    forall|i: int| 0 <= i < v.len() ==> (#[trigger] v[i]).tid is Some
}

pub open spec fn tb_threads_only(tb: Seq<(i32, Seq<RowModel>)>) -> bool {
    forall|k: int| 0 <= k < tb.len() ==> all_thread_rows(#[trigger] tb[k].1)
}

pub proof fn lemma_threads_for_only(tb: Seq<(i32, Seq<RowModel>)>, pid: i32)
    requires
        tb_threads_only(tb),
    ensures
        threads_for(tb, pid) matches Some(ts) ==> all_thread_rows(ts),
    decreases tb.len(),
{
    if tb.len() > 0 && tb.last().0 != pid {
        assert forall|k: int| 0 <= k < tb.drop_last().len() implies all_thread_rows(
            #[trigger] tb.drop_last()[k].1,
        ) by {
            assert(tb.drop_last()[k] == tb[k]);
        }
        lemma_threads_for_only(tb.drop_last(), pid);
    } else if tb.len() > 0 {
        assert(all_thread_rows(tb[tb.len() - 1].1));
    }
}

proof fn lemma_insert_row_threads(sort: SortBy, th: bool, s: Seq<RowModel>, x: RowModel)
    requires
        all_thread_rows(s),
        x.tid is Some,
    ensures
        all_thread_rows(insert_row(sort, th, s, x)),
    decreases s.len(),
{
    if s.len() > 0 && !row_before(sort, th, x, s[0]) {
        assert forall|i: int| 0 <= i < s.drop_first().len() implies (#[trigger] s.drop_first()[
            i
        ]).tid is Some by {
            assert(s.drop_first()[i] == s[i + 1]);
        }
        lemma_insert_row_threads(sort, th, s.drop_first(), x);
        let r = insert_row(sort, th, s.drop_first(), x);
        assert forall|i: int| 0 <= i < (seq![s[0]] + r).len() implies (#[trigger] (seq![s[0]]
            + r)[i]).tid is Some by {
            if i > 0 {
                assert((seq![s[0]] + r)[i] == r[i - 1]);
            }
        }
    } else if s.len() > 0 {
        assert forall|i: int| 0 <= i < (seq![x] + s).len() implies (#[trigger] (seq![x]
            + s)[i]).tid is Some by {
            if i > 0 {
                assert((seq![x] + s)[i] == s[i - 1]);
            }
        }
    }
}

pub proof fn lemma_sort_rows_threads(sort: SortBy, th: bool, s: Seq<RowModel>)
    requires
        all_thread_rows(s),
    ensures
        all_thread_rows(sort_rows(sort, th, s)),
    decreases s.len(),
{
    if s.len() > 0 {
        assert forall|i: int| 0 <= i < s.drop_last().len() implies (#[trigger] s.drop_last()[
            i
        ]).tid is Some by {
            assert(s.drop_last()[i] == s[i]);
        }
        lemma_sort_rows_threads(sort, th, s.drop_last());
        lemma_insert_row_threads(sort, th, sort_rows(sort, th, s.drop_last()), s.last());
    }
}

proof fn lemma_kids_bounds(procs: Seq<RowModel>, seen: Seq<bool>, pid: i32, k: int)
    requires
        0 <= k <= procs.len(),
    ensures
        forall|j: int|
            0 <= j < kids_upto(procs, seen, pid, k).len() ==> 0 <= #[trigger] kids_upto(
                procs,
                seen,
                pid,
                k,
            )[j] < k,
    decreases k,
{
    if k > 0 {
        lemma_kids_bounds(procs, seen, pid, k - 1);
        let rest = kids_upto(procs, seen, pid, k - 1);
        let all = kids_upto(procs, seen, pid, k);
        assert forall|j: int| 0 <= j < all.len() implies 0 <= #[trigger] all[j] < k by {
            if j < rest.len() {
                assert(all[j] == rest[j]);
            }
        }
    }
}

proof fn lemma_rows_view_push(v: Seq<ProcRow>, x: ProcRow)
    ensures
        rows_view(v.push(x)) == rows_view(v).push(x@),
{
    assert(rows_view(v.push(x)) =~= rows_view(v).push(x@));
}

/// Marking a new row's pid and emitting its row keeps the bookkeeping.
proof fn lemma_inv_after_row(
    pv: Seq<RowModel>,
    out0: Seq<RowModel>,
    seen0: Seq<bool>,
    idx: int,
    prow: RowModel,
)
    requires
        tree_inv(pv, out0, seen0),
        0 <= idx < pv.len(),
        !seen0[idx],
        prow.tid is None,
        prow.pid == pv[idx].pid,
    ensures
        tree_inv(pv, out0.push(prow), mark_pid(pv, seen0, pv[idx].pid)),
{
    let pid = pv[idx].pid;
    let out1 = out0.push(prow);
    let seen1 = mark_pid(pv, seen0, pid);
    assert forall|i: int| 0 <= i < pv.len() && #[trigger] seen1[i] implies exists|k: int|
        0 <= k < out1.len() && out1[k].tid is None && (#[trigger] out1[k]).pid == pv[i].pid by {
        if seen0[i] {
            let k = choose|k: int|
                0 <= k < out0.len() && out0[k].tid is None && (#[trigger] out0[k]).pid == pv[i].pid;
            assert(out1[k] == out0[k]);
        } else {
            assert(out1[out0.len() as int] == prow);
        }
    }
    assert forall|k: int| 0 <= k < out1.len() && (#[trigger] out1[k]).tid is None implies exists|
        i: int,
    | 0 <= i < pv.len() && seen1[i] && (#[trigger] pv[i]).pid == out1[k].pid by {
        if k < out0.len() {
            assert(out1[k] == out0[k]);
            let i = choose|i: int|
                0 <= i < pv.len() && seen0[i] && (#[trigger] pv[i]).pid == out0[k].pid;
            assert(seen1[i]);
        } else {
            assert(seen1[idx]);
        }
    }
    assert forall|k1: int, k2: int|
        0 <= k1 < out1.len() && 0 <= k2 < out1.len() && k1 != k2 && (#[trigger] out1[k1]).tid is None
            && (#[trigger] out1[k2]).tid is None implies out1[k1].pid != out1[k2].pid by {
        if k1 < out0.len() && k2 < out0.len() {
            assert(out1[k1] == out0[k1] && out1[k2] == out0[k2]);
        } else if k1 < out0.len() {
            assert(out1[k1] == out0[k1]);
            if out0[k1].pid == pid {
                let i = choose|i: int|
                    0 <= i < pv.len() && seen0[i] && (#[trigger] pv[i]).pid == out0[k1].pid;
                assert(seen0[idx]);
            }
        } else if k2 < out0.len() {
            assert(out1[k2] == out0[k2]);
            if out0[k2].pid == pid {
                let i = choose|i: int|
                    0 <= i < pv.len() && seen0[i] && (#[trigger] pv[i]).pid == out0[k2].pid;
                assert(seen0[idx]);
            }
        }
    }
    assert forall|i: int, j: int|
        0 <= i < pv.len() && 0 <= j < pv.len() && #[trigger] seen1[i] && (#[trigger] pv[j]).pid
            == pv[i].pid implies seen1[j] by {
        if seen0[i] {
            assert(seen0[j]);
        }
    }
}

/// Emitting thread rows keeps the bookkeeping.
#[verifier::rlimit(60)]
proof fn lemma_inv_after_threads(
    pv: Seq<RowModel>,
    out1: Seq<RowModel>,
    seen1: Seq<bool>,
    extra: Seq<RowModel>,
)
    requires
        tree_inv(pv, out1, seen1),
        all_thread_rows(extra),
    ensures
        tree_inv(pv, out1 + extra, seen1),
{
    let out2 = out1 + extra;
    assert forall|i: int| 0 <= i < pv.len() && #[trigger] seen1[i] implies exists|k: int|
        0 <= k < out2.len() && out2[k].tid is None && (#[trigger] out2[k]).pid == pv[i].pid by {
        let k = choose|k: int|
            0 <= k < out1.len() && out1[k].tid is None && (#[trigger] out1[k]).pid == pv[i].pid;
        assert(out2[k] == out1[k]);
    }
    assert forall|k: int| 0 <= k < out2.len() && (#[trigger] out2[k]).tid is None implies exists|
        i: int,
    | 0 <= i < pv.len() && seen1[i] && (#[trigger] pv[i]).pid == out2[k].pid by {
        if k >= out1.len() {
            assert(out2[k] == extra[k - out1.len()]);
        } else {
            assert(out2[k] == out1[k]);
        }
    }
    assert forall|k1: int, k2: int|
        0 <= k1 < out2.len() && 0 <= k2 < out2.len() && k1 != k2 && (#[trigger] out2[k1]).tid is None
            && (#[trigger] out2[k2]).tid is None implies out2[k1].pid != out2[k2].pid by {
        if k1 >= out1.len() {
            assert(out2[k1] == extra[k1 - out1.len()]);
        } else if k2 >= out1.len() {
            assert(out2[k2] == extra[k2 - out1.len()]);
        } else {
            assert(out2[k1] == out1[k1] && out2[k2] == out1[k2]);
        }
    }
}

proof fn lemma_tree_threads_only(ts: Seq<RowModel>, rail: Seq<char>, total: int)
    requires
        all_thread_rows(ts),
    ensures
        all_thread_rows(tree_threads(ts, rail, total)),
{
    let e = tree_threads(ts, rail, total);
    assert forall|k: int| 0 <= k < e.len() implies (#[trigger] e[k]).tid is Some by {
        assert(e[k].tid == ts[k].tid);
    }
}

/// The tree walk's mutable state: the rows emitted so far and which rows
/// have been seen.
pub struct TreeState {
    pub out: Vec<ProcRow>,
    pub seen: Vec<bool>,
}

pub open spec fn ctx_of(
    procs: Seq<ProcRow>,
    tb: Seq<(i32, Vec<ProcRow>)>,
    show_threads: bool,
    sort: SortBy,
) -> TreeCtx {
    TreeCtx { procs: rows_view(procs), tb: tb_view(tb), show_threads, sort }
}

fn tree_thread_rows_exec(
    tb: &Vec<(i32, Vec<ProcRow>)>,
    show_threads: bool,
    sort: SortBy,
    pid: i32,
    Ghost(c): Ghost<TreeCtx>,
) -> (r: Vec<ProcRow>)
    requires
        c.tb == tb_view(tb@),
        c.show_threads == show_threads,
        c.sort == sort,
    ensures
        rows_view(r@) == tree_thread_rows(c, pid),
{
    if show_threads {
        match threads_for_exec(tb, pid) {
            Some(k) => sort_rows_exec(sort, true, &tb[k].1),
            None => Vec::new(),
        }
    } else {
        Vec::new()
    }
}

fn mark_seen(procs: &Vec<ProcRow>, seen: &mut Vec<bool>, pid: i32)
    requires
        old(seen)@.len() == procs@.len(),
    ensures
        final(seen)@ == mark_pid(rows_view(procs@), old(seen)@, pid),
{
    let ghost pv = rows_view(procs@);
    let ghost seen0 = seen@;
    let n = procs.len();
    let mut j: usize = 0;
    while j < n
        invariant
            j <= n == procs@.len(),
            seen@.len() == n,
            seen0.len() == n,
            pv == rows_view(procs@),
            forall|t: int| 0 <= t < j ==> seen@[t] == (seen0[t] || pv[t].pid == pid),
            forall|t: int| j <= t < n ==> seen@[t] == seen0[t],
        decreases n - j,
    {
        assert(pv[j as int] == procs@[j as int]@);
        let ghost before = seen@;
        assert(forall|t: int| 0 <= t < j ==> before[t] == (seen0[t] || pv[t].pid == pid));
        if procs[j].pid == pid {
            seen.set(j, true);
        }
        assert(seen@[j as int] == (seen0[j as int] || pv[j as int].pid == pid));
        assert forall|t: int| 0 <= t < j + 1 implies seen@[t] == (seen0[t] || pv[t].pid == pid) by {
            if t < j {
                assert(seen@[t] == before[t]);
                assert(before[t] == (seen0[t] || pv[t].pid == pid));
            }
        }
        j += 1;
    }
    assert(seen@ =~= mark_pid(pv, seen0, pid));
}

fn collect_kids(procs: &Vec<ProcRow>, roots: &Vec<bool>, seen: &Vec<bool>, pid: i32) -> (r: Vec<
    usize,
>)
    requires
        roots@.len() == procs@.len(),
        seen@.len() == procs@.len(),
        forall|i: int| 0 <= i < procs@.len() ==> roots@[i] == is_root(rows_view(procs@), i),
    ensures
        r@.map_values(|x: usize| x as int) == kids_upto(
            rows_view(procs@),
            seen@,
            pid,
            procs@.len() as int,
        ),
{
    let ghost pv = rows_view(procs@);
    let n = procs.len();
    let mut kids: Vec<usize> = Vec::new();
    let mut k: usize = 0;
    while k < n
        invariant
            k <= n == procs@.len(),
            pv == rows_view(procs@),
            roots@.len() == n,
            seen@.len() == n,
            forall|i: int| 0 <= i < n ==> roots@[i] == is_root(pv, i),
            kids@.map_values(|x: usize| x as int) == kids_upto(pv, seen@, pid, k as int),
        decreases n - k,
    {
        assert(pv[k as int] == procs@[k as int]@);
        if !roots[k] && procs[k].ppid == pid && !seen[k] {
            kids.push(k);
            assert(kids@.map_values(|x: usize| x as int) =~= kids_upto(pv, seen@, pid, k as int).push(
                k as int,
            ));
        }
        k += 1;
    }
    kids
}

fn push_tree_threads(
    ts: &Vec<ProcRow>,
    rail2: &Vec<char>,
    kids_empty: bool,
    Ghost(total): Ghost<int>,
    out: &mut Vec<ProcRow>,
)
    requires
        kids_empty ==> total == ts@.len(),
        !kids_empty ==> total > ts@.len(),
    ensures
        rows_view(final(out)@) == rows_view(old(out)@) + tree_threads(rows_view(ts@), rail2@, total),
{
    let ghost start = rows_view(out@);
    let ghost tv = rows_view(ts@);
    let ghost extra = tree_threads(tv, rail2@, total);
    let mut t: usize = 0;
    while t < ts.len()
        invariant
            t <= ts@.len(),
            tv == rows_view(ts@),
            extra == tree_threads(tv, rail2@, total),
            kids_empty ==> total == ts@.len(),
            !kids_empty ==> total > ts@.len(),
            rows_view(out@) == start + extra.take(t as int),
        decreases ts@.len() - t,
    {
        let g = if kids_empty && t + 1 == ts.len() {
            vec!['└', '─', ' ']
        } else {
            vec!['├', '─', ' ']
        };
        let row = ts[t].with_prefix(concat_chars(rail2, &g));
        let ghost before = out@;
        out.push(row);
        proof {
            lemma_rows_view_push(before, row);
        }
        assert(extra[t as int] == row@);
        assert(extra.take(t + 1) == extra.take(t as int).push(row@));
        t += 1;
    }
    assert(extra.take(ts@.len() as int) == extra);
}

fn walk(
    procs: &Vec<ProcRow>,
    roots: &Vec<bool>,
    tb: &Vec<(i32, Vec<ProcRow>)>,
    show_threads: bool,
    sort: SortBy,
    st: &mut TreeState,
    idx: usize,
    rail: &Vec<char>,
    glyph: &Vec<char>,
    Ghost(fuel): Ghost<nat>,
)
    requires
        idx < procs@.len(),
        roots@.len() == procs@.len(),
        forall|i: int| 0 <= i < procs@.len() ==> roots@[i] == is_root(rows_view(procs@), i),
        all_procs_rows(rows_view(procs@)),
        tb_threads_only(tb_view(tb@)),
        fuel > unseen(old(st).seen@),
        tree_inv(rows_view(procs@), rows_view(old(st).out@), old(st).seen@),
    ensures
        (rows_view(final(st).out@), final(st).seen@) == walk_spec(
            fuel,
            ctx_of(procs@, tb@, show_threads, sort),
            rows_view(old(st).out@),
            old(st).seen@,
            idx as int,
            rail@,
            glyph@,
        ),
        tree_inv(rows_view(procs@), rows_view(final(st).out@), final(st).seen@),
        forall|j: int| 0 <= j < procs@.len() && #[trigger] old(st).seen@[j] ==> final(st).seen@[j],
        final(st).seen@[idx as int],
        unseen(final(st).seen@) <= unseen(old(st).seen@),
    decreases fuel,
{
    let ghost c = ctx_of(procs@, tb@, show_threads, sort);
    let ghost pv = rows_view(procs@);
    let ghost seen0 = st.seen@;
    let ghost out0 = rows_view(st.out@);
    let n = procs.len();
    if st.seen[idx] {
        return;
    }
    let pid = procs[idx].pid;
    assert(pv[idx as int] == procs@[idx as int]@);
    mark_seen(procs, &mut st.seen, pid);
    let ghost seen1 = st.seen@;
    proof {
        assert(!seen0[idx as int] && seen1[idx as int]);
        lemma_unseen_mono(seen0, seen1);
    }
    let row = procs[idx].with_prefix(concat_chars(rail, glyph));
    let ghost prow = row@;
    let ghost outv = st.out@;
    st.out.push(row);
    let ghost out1 = rows_view(st.out@);
    proof {
        lemma_rows_view_push(outv, row);
        lemma_inv_after_row(pv, out0, seen0, idx as int, prow);
    }
    let rail2: Vec<char> = if glyph.len() == 0 {
        concat_chars(rail, &Vec::new())
    } else if crate::text::chars_eq(glyph, &vec!['├', '─', ' ']) {
        concat_chars(rail, &vec!['│', ' ', ' '])
    } else {
        concat_chars(rail, &vec![' ', ' ', ' '])
    };
    assert(rail2@ == child_rail(rail@, glyph@));
    let kids = collect_kids(procs, roots, &st.seen, pid);
    let ghost kv = kids@.map_values(|x: usize| x as int);
    let ts = tree_thread_rows_exec(tb, show_threads, sort, pid, Ghost(c));
    proof {
        lemma_threads_for_only(c.tb, pid);
        if show_threads {
            if let Some(tt) = threads_for(c.tb, pid) {
                lemma_sort_rows_threads(sort, true, tt);
            }
        }
        lemma_tree_threads_only(rows_view(ts@), rail2@, (ts@.len() + kids@.len()) as int);
        lemma_inv_after_threads(
            pv,
            out1,
            seen1,
            tree_threads(rows_view(ts@), rail2@, (ts@.len() + kids@.len()) as int),
        );
        lemma_kids_bounds(pv, seen1, pid, n as int);
    }
    let ghost total: int = (ts@.len() + kids@.len()) as int;
    push_tree_threads(&ts, &rail2, kids.len() == 0, Ghost(total), &mut st.out);
    let ghost out2 = rows_view(st.out@);
    let nt = ts.len();
    let mut q: usize = 0;
    while q < kids.len()
        invariant
            q <= kids@.len(),
            kv == kids@.map_values(|x: usize| x as int),
            kv == kids_upto(pv, seen1, pid, n as int),
            forall|j: int| 0 <= j < kv.len() ==> 0 <= #[trigger] kv[j] < n,
            n == procs@.len(),
            pv == rows_view(procs@),
            c == ctx_of(procs@, tb@, show_threads, sort),
            roots@.len() == n,
            forall|i: int| 0 <= i < n ==> roots@[i] == is_root(pv, i),
            all_procs_rows(pv),
            tb_threads_only(tb_view(tb@)),
            total == nt + kids@.len(),
            idx < n,
            unseen(st.seen@) <= unseen(seen1),
            unseen(seen1) < unseen(seen0),
            fuel > unseen(seen0),
            tree_inv(pv, rows_view(st.out@), st.seen@),
            forall|j: int| 0 <= j < n && #[trigger] seen0[j] ==> st.seen@[j],
            st.seen@[idx as int],
            walk_kids_spec(
                (fuel - 1) as nat,
                c,
                out2,
                seen1,
                kv,
                0,
                nt as int,
                total,
                rail2@,
            ) == walk_kids_spec(
                (fuel - 1) as nat,
                c,
                rows_view(st.out@),
                st.seen@,
                kv,
                q as int,
                nt as int,
                total,
                rail2@,
            ),
        decreases kids@.len() - q,
    {
        let g = if q + 1 == kids.len() {
            vec!['└', '─', ' ']
        } else {
            vec!['├', '─', ' ']
        };
        assert(g@ == branch_glyph(nt + q + 1 == total));
        assert(kv[q as int] == kids@[q as int] as int);
        let ghost seen_before = st.seen@;
        assert(seen_before[idx as int]);
        walk(procs, roots, tb, show_threads, sort, st, kids[q], &rail2, &g, Ghost((fuel - 1) as nat));
        assert forall|j: int| 0 <= j < n && #[trigger] seen0[j] implies st.seen@[j] by {
            assert(seen_before[j]);
        }
        q += 1;
    }
}



fn sweep(
    procs: &Vec<ProcRow>,
    roots: &Vec<bool>,
    tb: &Vec<(i32, Vec<ProcRow>)>,
    show_threads: bool,
    sort: SortBy,
    st: &mut TreeState,
    roots_only: bool,
)
    requires
        roots@.len() == procs@.len(),
        forall|i: int| 0 <= i < procs@.len() ==> roots@[i] == is_root(rows_view(procs@), i),
        all_procs_rows(rows_view(procs@)),
        tb_threads_only(tb_view(tb@)),
        tree_inv(rows_view(procs@), rows_view(old(st).out@), old(st).seen@),
    ensures
        (rows_view(final(st).out@), final(st).seen@) == sweep_spec(
            (procs@.len() + 1) as nat,
            ctx_of(procs@, tb@, show_threads, sort),
            rows_view(old(st).out@),
            old(st).seen@,
            0,
            roots_only,
        ),
        tree_inv(rows_view(procs@), rows_view(final(st).out@), final(st).seen@),
        !roots_only ==> forall|j: int| 0 <= j < procs@.len() ==> #[trigger] final(st).seen@[j],
{
    let ghost c = ctx_of(procs@, tb@, show_threads, sort);
    let ghost pv = rows_view(procs@);
    let ghost fuel: nat = (procs@.len() + 1) as nat;
    let ghost out0 = rows_view(st.out@);
    let ghost seen0 = st.seen@;
    let n = procs.len();
    let mut i: usize = 0;
    while i < n
        invariant
            i <= n == procs@.len(),
            pv == rows_view(procs@),
            c == ctx_of(procs@, tb@, show_threads, sort),
            fuel == n + 1,
            roots@.len() == n,
            forall|t: int| 0 <= t < n ==> roots@[t] == is_root(pv, t),
            all_procs_rows(pv),
            tb_threads_only(tb_view(tb@)),
            tree_inv(pv, rows_view(st.out@), st.seen@),
            !roots_only ==> forall|j: int| 0 <= j < i ==> #[trigger] st.seen@[j],
            sweep_spec(fuel, c, out0, seen0, 0, roots_only) == sweep_spec(
                fuel,
                c,
                rows_view(st.out@),
                st.seen@,
                i as int,
                roots_only,
            ),
        decreases n - i,
    {
        if !roots_only || roots[i] {
            proof {
                lemma_unseen_le_len(st.seen@);
            }
            let ghost seen_before = st.seen@;
            let empty: Vec<char> = Vec::new();
            assert(empty@ =~= seq![]);
            walk(procs, roots, tb, show_threads, sort, st, i, &empty, &empty, Ghost(fuel));
            assert forall|j: int| 0 <= j < i + 1 && !roots_only implies #[trigger] st.seen@[j] by {
                if j < i {
                    assert(seen_before[j]);
                }
            }
        }
        i += 1;
    }
}

/// Whether some row has this pid.
fn has_pid_exec(procs: &Vec<ProcRow>, pid: i32) -> (r: bool)
    ensures
        r == has_pid(rows_view(procs@), pid),
{
    let ghost pv = rows_view(procs@);
    let mut j: usize = 0;
    while j < procs.len()
        invariant
            j <= procs@.len(),
            pv == rows_view(procs@),
            forall|t: int| 0 <= t < j ==> (#[trigger] pv[t]).pid != pid,
        decreases procs@.len() - j,
    {
        assert(pv[j as int] == procs@[j as int]@);
        if procs[j].pid == pid {
            return true;
        }
        j += 1;
    }
    false
}

/// Arranges process rows as a ppid tree flattened depth-first, btop style.
/// Roots are rows with no parent, their own parent, or a parent that is
/// gone; rows caught in a ppid cycle never reach a root and are swept in
/// afterwards as extra roots, so no process vanishes and none repeats.
pub fn build_tree(
    procs: &Vec<ProcRow>,
    tb: &Vec<(i32, Vec<ProcRow>)>,
    show_threads: bool,
    sort: SortBy,
) -> (r: Vec<ProcRow>)
    requires
        all_procs_rows(rows_view(procs@)),
        tb_threads_only(tb_view(tb@)),
    ensures
        rows_view(r@) == tree_spec(ctx_of(procs@, tb@, show_threads, sort)),
        forall|i: int|
            0 <= i < procs@.len() ==> exists|k: int|
                0 <= k < r@.len() && r@[k].tid is None && (#[trigger] r@[k]).pid == (
                #[trigger] procs@[i]).pid,
        forall|k: int|
            0 <= k < r@.len() && (#[trigger] r@[k]).tid is None ==> exists|i: int|
                0 <= i < procs@.len() && (#[trigger] procs@[i]).pid == r@[k].pid,
        forall|k1: int, k2: int|
            0 <= k1 < r@.len() && 0 <= k2 < r@.len() && k1 != k2 && (#[trigger] r@[k1]).tid is None
                && (#[trigger] r@[k2]).tid is None ==> r@[k1].pid != r@[k2].pid,
{
    let ghost pv = rows_view(procs@);
    let n = procs.len();
    let mut roots: Vec<bool> = Vec::new();
    let mut seen: Vec<bool> = Vec::new();
    let mut i: usize = 0;
    while i < n
        invariant
            i <= n == procs@.len(),
            pv == rows_view(procs@),
            roots@.len() == i,
            seen@.len() == i,
            forall|t: int| 0 <= t < i ==> roots@[t] == is_root(pv, t),
            forall|t: int| 0 <= t < i ==> !seen@[t],
        decreases n - i,
    {
        assert(pv[i as int] == procs@[i as int]@);
        let p = &procs[i];
        let root = p.ppid <= 0 || p.ppid == p.pid || !has_pid_exec(procs, p.ppid);
        roots.push(root);
        seen.push(false);
        i += 1;
    }
    assert(seen@ =~= Seq::new(n as nat, |j: int| false));
    let mut st = TreeState { out: Vec::new(), seen };
    assert(rows_view(st.out@) =~= Seq::<RowModel>::empty());
    sweep(procs, &roots, tb, show_threads, sort, &mut st, true);
    sweep(procs, &roots, tb, show_threads, sort, &mut st, false);
    let r = st.out;
    let ghost rv = rows_view(r@);
    assert forall|i: int| 0 <= i < procs@.len() implies exists|k: int|
        0 <= k < r@.len() && r@[k].tid is None && (#[trigger] r@[k]).pid == (
        #[trigger] procs@[i]).pid by {
        assert(st.seen@[i]);
        assert(pv[i] == procs@[i]@);
        let k = choose|k: int| 0 <= k < rv.len() && rv[k].tid is None && (#[trigger] rv[k]).pid == pv[i].pid;
        assert(rv[k] == r@[k]@);
    }
    assert forall|k: int| 0 <= k < r@.len() && (#[trigger] r@[k]).tid is None implies exists|i: int|
        0 <= i < procs@.len() && (#[trigger] procs@[i]).pid == r@[k].pid by {
        assert(rv[k] == r@[k]@);
        let i = choose|i: int| 0 <= i < pv.len() && st.seen@[i] && (#[trigger] pv[i]).pid == rv[k].pid;
        assert(pv[i] == procs@[i]@);
    }
    assert forall|k1: int, k2: int|
        0 <= k1 < r@.len() && 0 <= k2 < r@.len() && k1 != k2 && (#[trigger] r@[k1]).tid is None
            && (#[trigger] r@[k2]).tid is None implies r@[k1].pid != r@[k2].pid by {
        assert(rv[k1] == r@[k1]@ && rv[k2] == r@[k2]@);
    }
    r
}


/// Inserting a row adds exactly that row.
pub proof fn lemma_insert_row_perm(sort: SortBy, th: bool, s: Seq<RowModel>, x: RowModel)
    ensures
        insert_row(sort, th, s, x).to_multiset() == s.to_multiset().insert(x),
    decreases s.len(),
{
    broadcast use vstd::seq_lib::group_to_multiset_ensures;

    if s.len() == 0 {
        assert(seq![x] == s.push(x));
    } else if row_before(sort, th, x, s[0]) {
        assert(seq![x] + s == s.insert(0, x));
    } else {
        let t = s.drop_first();
        lemma_insert_row_perm(sort, th, t, x);
        let r = insert_row(sort, th, t, x);
        assert(seq![s[0]] + r == r.insert(0, s[0]));
        assert(s == t.insert(0, s[0]));
        assert(r.insert(0, s[0]).to_multiset() == t.to_multiset().insert(x).insert(s[0]));
        assert(s.to_multiset().insert(x) =~= t.to_multiset().insert(s[0]).insert(x));
        assert(t.to_multiset().insert(x).insert(s[0]) =~= t.to_multiset().insert(s[0]).insert(x));
    }
}

/// Sorting the list keeps exactly its rows: a permutation.
pub proof fn lemma_sort_rows_perm(sort: SortBy, th: bool, s: Seq<RowModel>)
    ensures
        sort_rows(sort, th, s).to_multiset() == s.to_multiset(),
    decreases s.len(),
{
    broadcast use vstd::seq_lib::group_to_multiset_ensures;

    if s.len() > 0 {
        lemma_sort_rows_perm(sort, th, s.drop_last());
        lemma_insert_row_perm(sort, th, sort_rows(sort, th, s.drop_last()), s.last());
        assert(s == s.drop_last().push(s.last()));
    }
}

/// Every row of the filtered list matches the filter.
pub proof fn lemma_filter_rows_match(rows: Seq<RowModel>, needle: Seq<char>)
    ensures
        forall|i: int| 0 <= i < filter_rows(rows, needle).len() ==> row_matches(
            #[trigger] filter_rows(rows, needle)[i],
            needle,
        ),
    decreases rows.len(),
{
    if rows.len() > 0 {
        lemma_filter_rows_match(rows.drop_last(), needle);
        let r = filter_rows(rows.drop_last(), needle);
        let f = filter_rows(rows, needle);
        assert forall|i: int| 0 <= i < f.len() implies row_matches(#[trigger] f[i], needle) by {
            if i < r.len() {
                assert(f[i] == r[i]);
            }
        }
    }
}

/// The process rows of the flat list with threads are its parents.
pub proof fn lemma_weave_procs(sort: SortBy, parents: Seq<RowModel>, tb: Seq<(i32, Seq<RowModel>)>)
    requires
        tb_threads_only(tb),
    ensures
        forall|i: int|
            0 <= i < weave(sort, parents, tb).len() && (#[trigger] weave(sort, parents, tb)[i]).tid
                is None ==> parents.contains(weave(sort, parents, tb)[i]),
    decreases parents.len(),
{
    if parents.len() > 0 {
        let p = parents.last();
        let rest = weave(sort, parents.drop_last(), tb);
        lemma_weave_procs(sort, parents.drop_last(), tb);
        lemma_threads_for_only(tb, p.pid);
        let w = weave(sort, parents, tb);
        assert forall|i: int| 0 <= i < w.len() && (#[trigger] w[i]).tid is None implies parents.contains(w[i]) by {
            if i < rest.len() {
                assert(w[i] == rest[i]);
                let j = choose|j: int| 0 <= j < parents.drop_last().len() && parents.drop_last()[j] == rest[i];
                assert(parents[j] == rest[i]);
            } else if i == rest.len() {
                assert(w[i] == p);
                assert(parents[parents.len() - 1] == p);
            } else {
                match threads_for(tb, p.pid) {
                    Some(ts) => {
                        lemma_sort_rows_threads(sort, true, ts);
                        let rt = rail_threads(sort_rows(sort, true, ts));
                        assert(w == rest.push(p) + rt);
                        assert(w[i] == rt[i - rest.len() - 1]);
                    },
                    None => {},
                }
            }
        }
    }
}


/// Without `-1`, the identity is somewhere in the list.
pub proof fn lemma_index_of_id_found(rows: Seq<RowModel>, id: (i32, Option<u64>), i: int)
    requires
        0 <= i < rows.len(),
        row_id(rows[i]) == id,
    ensures
        index_of_id(rows, id) >= 0,
    decreases rows.len(),
{
    if row_id(rows[0]) != id {
        assert(rows.drop_first()[i - 1] == rows[i]);
        lemma_index_of_id_found(rows.drop_first(), id, i - 1);
    }
}

/// A row survives the filter pass exactly when it is one of the rows and
/// matches.
proof fn lemma_filter_rows_contains(rows: Seq<RowModel>, needle: Seq<char>, x: RowModel)
    ensures
        filter_rows(rows, needle).contains(x) <==> rows.contains(x) && row_matches(x, needle),
    decreases rows.len(),
{
    if rows.len() > 0 {
        lemma_filter_rows_contains(rows.drop_last(), needle, x);
        let r = filter_rows(rows.drop_last(), needle);
        if rows.contains(x) && !rows.drop_last().contains(x) {
            let i = choose|i: int| 0 <= i < rows.len() && rows[i] == x;
            if i < rows.len() - 1 {
                assert(rows.drop_last()[i] == x);
            }
            assert(x == rows.last());
        }
        if rows.drop_last().contains(x) {
            let i = choose|i: int| 0 <= i < rows.drop_last().len() && rows.drop_last()[i] == x;
            assert(rows[i] == x);
        }
        if row_matches(rows.last(), needle) {
            let f = r.push(rows.last());
            if f.contains(x) && !r.contains(x) {
                let i = choose|i: int| 0 <= i < f.len() && f[i] == x;
                if i < r.len() {
                    assert(r[i] == x);
                }
            }
            if r.contains(x) {
                let i = choose|i: int| 0 <= i < r.len() && r[i] == x;
                assert(f[i] == x);
            }
            assert(f[r.len() as int] == rows.last());
        }
    }
}

/// The live filter is case-insensitive: under a typed filter, a process row
/// is listed exactly when its lowercased name contains the lowercased filter
/// or its pid's decimal digits do. So two rows whose names differ only in
/// letter case (same lowercased name) and that share a pid are listed or
/// hidden together, and an empty filter lists every row.
pub proof fn law_filter_is_case_insensitive(all: Seq<RowModel>, filter: Seq<char>)
    ensures
        filter.len() == 0 ==> visible_rows(all, filter) == all,
        filter.len() > 0 ==> forall|x: RowModel|
            #[trigger] visible_rows(all, filter).contains(x) <==> all.contains(x) && (contains(
                lowercase(x.name),
                lowercase(filter),
            ) || contains(i32_decimal(x.pid), lowercase(filter))),
        forall|a: RowModel, b: RowModel|
            all.contains(a) && all.contains(b) && lowercase(a.name) == lowercase(b.name) && a.pid
                == b.pid ==> (#[trigger] visible_rows(all, filter).contains(a) <==> #[trigger] visible_rows(
                all,
                filter,
            ).contains(b)),
{
    if filter.len() > 0 {
        assert forall|x: RowModel|
            #[trigger] visible_rows(all, filter).contains(x) <==> all.contains(x) && (contains(
                lowercase(x.name),
                lowercase(filter),
            ) || contains(i32_decimal(x.pid), lowercase(filter))) by {
            lemma_filter_rows_contains(all, lowercase(filter), x);
        }
        assert forall|a: RowModel, b: RowModel|
            all.contains(a) && all.contains(b) && lowercase(a.name) == lowercase(b.name) && a.pid
                == b.pid implies (#[trigger] visible_rows(all, filter).contains(a) <==> #[trigger] visible_rows(
                all,
                filter,
            ).contains(b)) by {
            lemma_filter_rows_contains(all, lowercase(filter), a);
            lemma_filter_rows_contains(all, lowercase(filter), b);
        }
    }
}

/// No row of `s` is listed after a row it sorts strictly before.
pub open spec fn rows_ordered(sort: SortBy, threads: bool, s: Seq<RowModel>) -> bool {
    forall|i: int, j: int| 0 <= i < j < s.len() ==> !row_before(sort, threads, #[trigger] s[j], #[trigger] s[i])
}

/// The row order is a strict order: never both ways, and transitive.
pub open spec fn order_is_strict(sort: SortBy, threads: bool) -> bool {
    &&& forall|a: RowModel, b: RowModel|
        #[trigger] row_before(sort, threads, a, b) ==> !row_before(sort, threads, b, a)
    &&& forall|a: RowModel, b: RowModel, c: RowModel|
        #[trigger] row_before(sort, threads, a, b) && #[trigger] row_before(sort, threads, b, c)
            ==> row_before(sort, threads, a, c)
}

proof fn lemma_insert_row_elems(sort: SortBy, threads: bool, s: Seq<RowModel>, x: RowModel)
    ensures
        insert_row(sort, threads, s, x).len() == s.len() + 1,
        forall|i: int|
            0 <= i < insert_row(sort, threads, s, x).len() ==> #[trigger] insert_row(
                sort,
                threads,
                s,
                x,
            )[i] == x || s.contains(insert_row(sort, threads, s, x)[i]),
    decreases s.len(),
{
    if s.len() > 0 && !row_before(sort, threads, x, s[0]) {
        let t = s.drop_first();
        lemma_insert_row_elems(sort, threads, t, x);
        let r = insert_row(sort, threads, s, x);
        assert forall|i: int| 0 <= i < r.len() implies #[trigger] r[i] == x || s.contains(r[i]) by {
            if i == 0 {
                assert(s.contains(s[0]));
            } else {
                let y = insert_row(sort, threads, t, x)[i - 1];
                assert(r[i] == y);
                if y != x {
                    let k = choose|k: int| 0 <= k < t.len() && t[k] == y;
                    assert(s[k + 1] == y);
                }
            }
        }
    } else if s.len() > 0 {
        let r = insert_row(sort, threads, s, x);
        assert forall|i: int| 0 <= i < r.len() implies #[trigger] r[i] == x || s.contains(r[i]) by {
            if i > 0 {
                assert(r[i] == s[i - 1]);
            }
        }
    }
}

proof fn lemma_insert_row_ordered(sort: SortBy, threads: bool, s: Seq<RowModel>, x: RowModel)
    requires
        order_is_strict(sort, threads),
        rows_ordered(sort, threads, s),
    ensures
        rows_ordered(sort, threads, insert_row(sort, threads, s, x)),
    decreases s.len(),
{
    let r = insert_row(sort, threads, s, x);
    if s.len() == 0 {
    } else if row_before(sort, threads, x, s[0]) {
        assert forall|i: int, j: int| 0 <= i < j < r.len() implies !row_before(
            sort,
            threads,
            #[trigger] r[j],
            #[trigger] r[i],
        ) by {
            assert(r[j] == s[j - 1]);
            if i == 0 {
                assert(r[i] == x);
                if j - 1 > 0 {
                    assert(!row_before(sort, threads, s[j - 1], s[0]));
                }
            } else {
                assert(r[i] == s[i - 1]);
            }
        }
    } else {
        let t = s.drop_first();
        assert(rows_ordered(sort, threads, t)) by {
            assert forall|i: int, j: int| 0 <= i < j < t.len() implies !row_before(
                sort,
                threads,
                #[trigger] t[j],
                #[trigger] t[i],
            ) by {
                assert(t[j] == s[j + 1] && t[i] == s[i + 1]);
            }
        }
        lemma_insert_row_ordered(sort, threads, t, x);
        lemma_insert_row_elems(sort, threads, t, x);
        let rt = insert_row(sort, threads, t, x);
        assert forall|i: int, j: int| 0 <= i < j < r.len() implies !row_before(
            sort,
            threads,
            #[trigger] r[j],
            #[trigger] r[i],
        ) by {
            assert(r[j] == rt[j - 1]);
            if i == 0 {
                assert(r[i] == s[0]);
                let y = rt[j - 1];
                if y != x {
                    let k = choose|k: int| 0 <= k < t.len() && t[k] == y;
                    assert(s[k + 1] == y);
                }
            } else {
                assert(r[i] == rt[i - 1]);
            }
        }
    }
}

proof fn lemma_sort_rows_ordered(sort: SortBy, threads: bool, s: Seq<RowModel>)
    requires
        order_is_strict(sort, threads),
    ensures
        rows_ordered(sort, threads, sort_rows(sort, threads, s)),
    decreases s.len(),
{
    if s.len() > 0 {
        lemma_sort_rows_ordered(sort, threads, s.drop_last());
        lemma_insert_row_ordered(sort, threads, sort_rows(sort, threads, s.drop_last()), s.last());
    }
}

/// Sorting the process list by io puts the busiest first: of two listed
/// rows, the earlier one has at least the io of the later one when both
/// are known, a row with unknown io never comes before one with known io,
/// and rows with equal io come larger rss first.
pub proof fn law_io_sort_descends(s: Seq<RowModel>)
    ensures
        sort_rows(SortBy::Io, false, s).to_multiset() == s.to_multiset(),
        forall|i: int, j: int|
            0 <= i < j < sort_rows(SortBy::Io, false, s).len() ==> {
                let a = #[trigger] sort_rows(SortBy::Io, false, s)[i];
                let b = #[trigger] sort_rows(SortBy::Io, false, s)[j];
                &&& (a.io_bytes is Some && b.io_bytes is Some ==> a.io_bytes->0 >= b.io_bytes->0)
                &&& (a.io_bytes is None ==> b.io_bytes is None)
                &&& (a.io_bytes == b.io_bytes ==> a.rss >= b.rss)
            },
{
    lemma_sort_rows_ordered(SortBy::Io, false, s);
    lemma_sort_rows_perm(SortBy::Io, false, s);
}

/// Sorting the process list by cpu puts the busiest first, larger rss first
/// among equal cpu.
pub proof fn law_cpu_sort_descends(s: Seq<RowModel>)
    ensures
        sort_rows(SortBy::Cpu, false, s).to_multiset() == s.to_multiset(),
        forall|i: int, j: int|
            0 <= i < j < sort_rows(SortBy::Cpu, false, s).len() ==> {
                let a = #[trigger] sort_rows(SortBy::Cpu, false, s)[i];
                let b = #[trigger] sort_rows(SortBy::Cpu, false, s)[j];
                &&& a.cpu_ns >= b.cpu_ns
                &&& (a.cpu_ns == b.cpu_ns ==> a.rss >= b.rss)
            },
{
    lemma_sort_rows_ordered(SortBy::Cpu, false, s);
    lemma_sort_rows_perm(SortBy::Cpu, false, s);
}

/// Sorting the process list by memory puts the largest rss first.
pub proof fn law_mem_sort_descends(s: Seq<RowModel>)
    ensures
        sort_rows(SortBy::Mem, false, s).to_multiset() == s.to_multiset(),
        forall|i: int, j: int|
            0 <= i < j < sort_rows(SortBy::Mem, false, s).len() ==> (#[trigger] sort_rows(
                SortBy::Mem,
                false,
                s,
            )[i]).rss >= (#[trigger] sort_rows(SortBy::Mem, false, s)[j]).rss,
{
    lemma_sort_rows_ordered(SortBy::Mem, false, s);
    lemma_sort_rows_perm(SortBy::Mem, false, s);
}

proof fn lemma_lex_lt_strict(a: Seq<char>, b: Seq<char>, c: Seq<char>)
    ensures
        lex_lt(a, b) ==> !lex_lt(b, a),
        lex_lt(a, b) && lex_lt(b, c) ==> lex_lt(a, c),
    decreases a.len(),
{
    if a.len() > 0 && b.len() > 0 {
        if c.len() > 0 {
            lemma_lex_lt_strict(a.drop_first(), b.drop_first(), c.drop_first());
        } else {
            lemma_lex_lt_strict(a.drop_first(), b.drop_first(), c);
        }
    }
}

/// `a` comes no later than `b` in character order: it is a prefix of `b`, or
/// at the first position where they differ its character is the smaller.
pub open spec fn chars_not_after(a: Seq<char>, b: Seq<char>) -> bool {
    ||| a.len() <= b.len() && b.take(a.len() as int) == a
    ||| exists|k: int|
        0 <= k < a.len() && k < b.len() && a.take(k) == b.take(k) && #[trigger] a[k] != b[k] && (
        a[k] as u32) <= (b[k] as u32)
}

proof fn lemma_not_lex_lt(a: Seq<char>, b: Seq<char>)
    requires
        !lex_lt(b, a),
    ensures
        chars_not_after(a, b),
    decreases a.len(),
{
    if a.len() == 0 {
        assert(b.take(0) == a);
    } else if b.len() > 0 {
        if a[0] != b[0] {
            assert(a.take(0) == b.take(0));
        } else {
            lemma_not_lex_lt(a.drop_first(), b.drop_first());
            let a1 = a.drop_first();
            let b1 = b.drop_first();
            if a1.len() <= b1.len() && b1.take(a1.len() as int) == a1 {
                assert(b.take(a.len() as int) =~= seq![a[0]] + b1.take(a1.len() as int));
                assert(a =~= seq![a[0]] + a1);
            } else {
                let k = choose|k: int|
                    0 <= k < a1.len() && k < b1.len() && a1.take(k) == b1.take(k) && #[trigger] a1[k]
                        != b1[k] && (a1[k] as u32) <= (b1[k] as u32);
                assert(a.take(k + 1) =~= seq![a[0]] + a1.take(k));
                assert(b.take(k + 1) =~= seq![b[0]] + b1.take(k));
                assert(a[k + 1] == a1[k] && b[k + 1] == b1[k]);
            }
        }
    }
}

/// Sorting the process list by name orders the lowercased names: of two
/// listed rows, the earlier one's lowercased name is a prefix of the later
/// one's, or has the smaller character where they first differ.
pub proof fn law_name_sort_ascends(s: Seq<RowModel>)
    ensures
        sort_rows(SortBy::Name, false, s).to_multiset() == s.to_multiset(),
        forall|i: int, j: int|
            0 <= i < j < sort_rows(SortBy::Name, false, s).len() ==> chars_not_after(
                lowercase((#[trigger] sort_rows(SortBy::Name, false, s)[i]).name),
                lowercase((#[trigger] sort_rows(SortBy::Name, false, s)[j]).name),
            ),
{
    assert(order_is_strict(SortBy::Name, false)) by {
        assert forall|a: RowModel, b: RowModel|
            #[trigger] row_before(SortBy::Name, false, a, b) implies !row_before(SortBy::Name, false, b, a) by {
            lemma_lex_lt_strict(lowercase(a.name), lowercase(b.name), lowercase(b.name));
        }
        assert forall|a: RowModel, b: RowModel, c: RowModel|
            #[trigger] row_before(SortBy::Name, false, a, b) && #[trigger] row_before(SortBy::Name, false, b, c)
                implies row_before(SortBy::Name, false, a, c) by {
            lemma_lex_lt_strict(lowercase(a.name), lowercase(b.name), lowercase(c.name));
        }
    }
    lemma_sort_rows_ordered(SortBy::Name, false, s);
    lemma_sort_rows_perm(SortBy::Name, false, s);
    let out = sort_rows(SortBy::Name, false, s);
    assert forall|i: int, j: int| 0 <= i < j < out.len() implies chars_not_after(
        lowercase((#[trigger] out[i]).name),
        lowercase((#[trigger] out[j]).name),
    ) by {
        lemma_not_lex_lt(lowercase(out[i].name), lowercase(out[j].name));
    }
}

/// Thread rows under any sort but name come busiest first, and among equal
/// cpu by ascending thread id (a row without one first).
pub proof fn law_thread_sort_descends(sort: SortBy, s: Seq<RowModel>)
    requires
        sort != SortBy::Name,
    ensures
        sort_rows(sort, true, s).to_multiset() == s.to_multiset(),
        forall|i: int, j: int|
            0 <= i < j < sort_rows(sort, true, s).len() ==> {
                let a = #[trigger] sort_rows(sort, true, s)[i];
                let b = #[trigger] sort_rows(sort, true, s)[j];
                &&& a.cpu_ns >= b.cpu_ns
                &&& (a.cpu_ns == b.cpu_ns ==> !tid_lt(b.tid, a.tid))
            },
{
    lemma_sort_rows_ordered(sort, true, s);
    lemma_sort_rows_perm(sort, true, s);
}

} // verus!
