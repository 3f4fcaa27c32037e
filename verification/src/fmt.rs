//! Text formatting for the panels: binary-unit byte sizes and the braille
//! cells the history graphs are drawn with.

use vstd::prelude::*;
use crate::text::{concat_chars, decimal, digit_char, seqs_view, string_from_chars, to_chars, u64_decimal};

verus! {

pub open spec fn kib() -> nat {
    1024
}

/// 1024 to the power `u`, for unit indices 0..=4.
pub open spec fn unit_size(u: nat) -> nat {
    if u == 0 {
        1
    } else if u == 1 {
        1024
    } else if u == 2 {
        1048576
    } else if u == 3 {
        1073741824
    } else {
        1099511627776
    }
}

/// The largest binary unit (B, KiB, MiB, GiB, TiB) that `b` reaches.
pub open spec fn unit_index(b: nat) -> nat {
    if b >= unit_size(4) {
        4
    } else if b >= unit_size(3) {
        3
    } else if b >= unit_size(2) {
        2
    } else if b >= unit_size(1) {
        1
    } else {
        0
    }
}

pub open spec fn unit_name(u: nat) -> Seq<char> {
    if u == 0 {
        "B"@
    } else if u == 1 {
        "KiB"@
    } else if u == 2 {
        "MiB"@
    } else if u == 3 {
        "GiB"@
    } else {
        "TiB"@
    }
}

/// `b` in units of `unit_size(u)`, in tenths, rounded to the nearest tenth;
/// an exact half goes to the even tenth, as float formatting does
/// (1.25 KiB shows as 1.2, 1.35 KiB as 1.4).
pub open spec fn tenths(b: nat, u: nat) -> nat {
    let q = (b * 10) / unit_size(u);
    let r = (b * 10) % unit_size(u);
    if 2 * r > unit_size(u) || (2 * r == unit_size(u) && q % 2 == 1) {
        q + 1
    } else {
        q
    }
}

/// A byte count for display: plain bytes below 1 KiB (`512 B`), else one
/// decimal in the largest unit reached (`2.0 KiB`, `16.0 GiB`).
pub open spec fn humanize_spec(b: nat) -> Seq<char> {
    let u = unit_index(b);
    if u == 0 {
        decimal(b) + " B"@
    } else {
        let t = tenths(b, u);
        decimal(t / 10) + seq!['.', digit_char(t % 10), ' '] + unit_name(u)
    }
}

/// Formats a byte count with binary units.
pub fn humanize(bytes: u64) -> (r: String)
    ensures
        r@ == humanize_spec(bytes as nat),
{
    let b = bytes as u128;
    let u: u64 = if b >= 1099511627776 {
        4
    } else if b >= 1073741824 {
        3
    } else if b >= 1048576 {
        2
    } else if b >= 1024 {
        1
    } else {
        0
    };
    if u == 0 {
        let v = concat_chars(&u64_decimal(bytes), &to_chars(" B"));
        return string_from_chars(&v);
    }
    let size: u128 = if u == 1 {
        1024
    } else if u == 2 {
        1048576
    } else if u == 3 {
        1073741824
    } else {
        1099511627776
    };
    let q = (b * 10) / size;
    let rem = (b * 10) % size;
    let t = if 2 * rem > size || (2 * rem == size && q % 2 == 1) { q + 1 } else { q };
    assert(t == tenths(bytes as nat, u as nat));
    assert(q <= 10 * 0xFFFF_FFFF_FFFF_FFFFu128 / 1024) by (nonlinear_arith)
        requires
            q == (b * 10) as int / size as int,
            size >= 1024,
            b <= 0xFFFF_FFFF_FFFF_FFFFu128,
    ;
    let whole = (t / 10) as u64;
    let digit = (t % 10) as u64;
    let mut v = u64_decimal(whole);
    let ghost w = v@;
    v.push('.');
    v.push(crate::text::char_of_digit(digit));
    v.push(' ');
    assert(v@ == w + seq!['.', digit_char(digit as nat), ' ']);
    let name = if u == 1 {
        to_chars("KiB")
    } else if u == 2 {
        to_chars("MiB")
    } else if u == 3 {
        to_chars("GiB")
    } else {
        to_chars("TiB")
    };
    string_from_chars(&concat_chars(&v, &name))
}

/// Dot bits of a braille column's left half filled bottom-up with 0..=4 dots.
pub open spec fn left_bits(n: nat) -> u8 {
    if n == 0 {
        0x00
    } else if n == 1 {
        0x40
    } else if n == 2 {
        0x44
    } else if n == 3 {
        0x46
    } else {
        0x47
    }
}

/// Dot bits of the right half.
pub open spec fn right_bits(n: nat) -> u8 {
    if n == 0 {
        0x00
    } else if n == 1 {
        0x80
    } else if n == 2 {
        0xA0
    } else if n == 3 {
        0xB0
    } else {
        0xB8
    }
}

/// `char::from_u32`: the char with that scalar value, None for a surrogate
/// or a value past U+10FFFF.
#[verifier::external_body]
fn char_from_u32(x: u32) -> (r: Option<char>)
    ensures
        r == (if vstd::utf8::is_scalar(x) {
            Some(x as char)
        } else {
            None
        }),
{
    char::from_u32(x)
}

/// The braille cell whose left and right columns hold `left` and `right`
/// dots from the bottom (each clamped to 4).
pub fn braille_cell(left: usize, right: usize) -> (r: char)
    ensures
        r as u32 == 0x2800 + (left_bits(if left > 4 { 4 } else { left as nat }) | right_bits(
            if right > 4 { 4 } else { right as nat },
        )),
{
    let l: u8 = if left == 0 {
        0x00
    } else if left == 1 {
        0x40
    } else if left == 2 {
        0x44
    } else if left == 3 {
        0x46
    } else {
        0x47
    };
    let rb: u8 = if right == 0 {
        0x00
    } else if right == 1 {
        0x80
    } else if right == 2 {
        0xA0
    } else if right == 3 {
        0xB0
    } else {
        0xB8
    };
    let bits = l | rb;
    let x: u32 = 0x2800 + bits as u32;
    assert(vstd::utf8::is_scalar(x));
    match char_from_u32(x) {
        Some(c) => {
            proof {
                vstd::utf8::char_u32_cast(c, x);
            }
            assert(c as u32 == x);
            c
        },
        None => '\u{2800}',
    }
}


pub open spec fn bench_word() -> Seq<char> {
    seq!['b', 'e', 'n', 'c', 'h', ':']
}

pub open spec fn bar_sep() -> Seq<char> {
    seq![' ', '|', ' ']
}

pub open spec fn cached_word() -> Seq<char> {
    seq!['(', 'c', 'a', 'c', 'h', 'e', 'd', ')']
}

/// The parts the bench summary is packed from: each result behind ` | `,
/// then `(cached)` behind a space when the page cache was in play.
pub open spec fn bench_parts(results: Seq<Seq<char>>, cached: bool) -> Seq<(Seq<char>, Seq<char>)> {
    let r = results.map_values(|s: Seq<char>| (bar_sep(), s));
    if cached {
        r.push((seq![' '], cached_word()))
    } else {
        r
    }
}

/// One part added to the lines packed so far: onto the current line when
/// it fits in `w` columns (right after `bench:` with a single space), else
/// starting a new line.
pub open spec fn pack_step(acc: (Seq<Seq<char>>, Seq<char>), p: (Seq<char>, Seq<char>), w: nat) -> (
    Seq<Seq<char>>,
    Seq<char>,
) {
    let cur = acc.1;
    let sep = if cur.len() > 0 && cur.last() == ':' {
        seq![' ']
    } else {
        p.0
    };
    if cur.len() + sep.len() + p.1.len() <= w {
        (acc.0, cur + sep + p.1)
    } else {
        (acc.0.push(cur), p.1)
    }
}

pub open spec fn pack(parts: Seq<(Seq<char>, Seq<char>)>, w: nat) -> (Seq<Seq<char>>, Seq<char>)
    decreases parts.len(),
{
    if parts.len() == 0 {
        (seq![], bench_word())
    } else {
        pack_step(pack(parts.drop_last(), w), parts.last(), w)
    }
}

proof fn lemma_pack_len(parts: Seq<(Seq<char>, Seq<char>)>, w: nat)
    ensures
        pack(parts, w).0.len() <= parts.len(),
    decreases parts.len(),
{
    if parts.len() > 0 {
        lemma_pack_len(parts.drop_last(), w);
    }
}

/// The bench summary lines for a panel `width` columns wide (at least one):
/// none before the first result.
pub open spec fn bench_lines_spec(results: Seq<Seq<char>>, cached: bool, width: u16) -> Seq<Seq<char>> {
    if results.len() == 0 {
        seq![]
    } else {
        let (ls, cur) = pack(bench_parts(results, cached), if width < 1 { 1 } else { width as nat });
        ls.push(cur)
    }
}

/// The bench results, each already formatted, packed greedily into lines
/// of at most `width` columns (a part longer than that still gets a line of
/// its own); `cached` adds the page-cache marker.
pub fn bench_lines(results: &Vec<String>, cached: bool, width: u16) -> (r: Vec<String>)
    requires
        results.len() < usize::MAX,
    ensures
        r@.map_values(|s: String| s@) == bench_lines_spec(
            results@.map_values(|s: String| s@),
            cached,
            width,
        ),
{
    let ghost rv = results@.map_values(|s: String| s@);
    if results.len() == 0 {
        let r: Vec<String> = Vec::new();
        assert(r@.map_values(|s: String| s@) =~= seq![]);
        return r;
    }
    let w: usize = if width < 1 { 1 } else { width as usize };
    let ghost parts = bench_parts(rv, cached);
    let n = if cached { results.len() + 1 } else { results.len() };
    assert(parts.len() == n);
    let mut lines: Vec<Vec<char>> = Vec::new();
    let mut cur: Vec<char> = vec!['b', 'e', 'n', 'c', 'h', ':'];
    let mut i: usize = 0;
    assert(parts.take(0) =~= seq![]);
    assert(seqs_view(lines@) =~= seq![]);
    while i < n
        invariant
            i <= n,
            n == parts.len(),
            n == (if cached { results@.len() + 1 } else { results@.len() }),
            rv == results@.map_values(|s: String| s@),
            parts == bench_parts(rv, cached),
            w == (if width < 1 { 1 } else { width as nat }),
            (seqs_view(lines@), cur@) == pack(parts.take(i as int), w as nat),
        decreases n - i,
    {
        assert(parts.take(i + 1).drop_last() == parts.take(i as int));
        assert(parts.take(i + 1).last() == parts[i as int]);
        let (sep, part): (Vec<char>, Vec<char>) = if i < results.len() {
            assert(parts[i as int] == (bar_sep(), rv[i as int]));
            (vec![' ', '|', ' '], to_chars(results[i].as_str()))
        } else {
            (vec![' '], vec!['(', 'c', 'a', 'c', 'h', 'e', 'd', ')'])
        };
        assert((sep@, part@) == parts[i as int]);
        let s2 = if cur.len() > 0 && cur[cur.len() - 1] == ':' { vec![' '] } else { sep };
        if cur.len() <= w && s2.len() <= w - cur.len() && part.len() <= w - cur.len() - s2.len() {
            cur = concat_chars(&concat_chars(&cur, &s2), &part);
        } else {
            let ghost before = lines@;
            lines.push(cur);
            assert(seqs_view(lines@) =~= seqs_view(before).push(before.push(lines@[lines@.len() - 1])[before.len() as int]@));
            cur = part;
        }
        i += 1;
    }
    assert(parts.take(n as int) == parts);
    let ghost before = lines@;
    lines.push(cur);
    assert(seqs_view(lines@) == seqs_view(before).push(cur@));
    let mut out: Vec<String> = Vec::new();
    let mut j: usize = 0;
    while j < lines.len()
        invariant
            j <= lines@.len(),
            out@.len() == j,
            forall|t: int| 0 <= t < j ==> (#[trigger] out@[t])@ == lines@[t]@,
        decreases lines@.len() - j,
    {
        out.push(string_from_chars(&lines[j]));
        j += 1;
    }
    assert(out@.map_values(|s: String| s@) =~= seqs_view(lines@));
    out
}

/// Panel rows the bench state takes at `width`: one for the live or error
/// line when there is one, then the packed result lines.
pub fn bench_rows(busy: bool, results: &Vec<String>, cached: bool, width: u16) -> (r: usize)
    requires
        results.len() < usize::MAX - 2,
    ensures
        r == (if busy { 1int } else { 0int }) + bench_lines_spec(
            results@.map_values(|s: String| s@),
            cached,
            width,
        ).len(),
{
    let lines = bench_lines(results, cached, width);
    proof {
        assert(lines@.map_values(|s: String| s@).len() == lines@.len());
        let w: nat = if width < 1 { 1 } else { width as nat };
        lemma_pack_len(bench_parts(results@.map_values(|s: String| s@), cached), w);
    }
    if busy {
        lines.len() + 1
    } else {
        lines.len()
    }
}

/// A packed line is either within the width, or one part standing alone
/// (the `bench:` word or a single result too wide to share a line).
pub open spec fn line_fits(l: Seq<char>, parts: Seq<(Seq<char>, Seq<char>)>, w: nat) -> bool {
    l.len() <= w || l == bench_word() || exists|k: int| 0 <= k < parts.len() && l == (#[trigger] parts[k]).1
}

proof fn lemma_pack_fits(parts: Seq<(Seq<char>, Seq<char>)>, all: Seq<(Seq<char>, Seq<char>)>, w: nat)
    requires
        parts.len() <= all.len(),
        parts == all.take(parts.len() as int),
    ensures
        forall|i: int| 0 <= i < pack(parts, w).0.len() ==> line_fits(#[trigger] pack(parts, w).0[i], all, w),
        line_fits(pack(parts, w).1, all, w),
    decreases parts.len(),
{
    if parts.len() > 0 {
        let n = parts.len() - 1;
        assert(parts.drop_last() == all.take(n as int));
        lemma_pack_fits(parts.drop_last(), all, w);
        assert(parts.last() == all[n as int]);
    }
}

/// Packing never lets a line with two or more parts run past the panel
/// width: each bench line fits in `width` columns (at least one) unless it
/// is a single part standing alone.
pub proof fn law_bench_lines_fit(results: Seq<Seq<char>>, cached: bool, width: u16)
    ensures
        forall|i: int|
            0 <= i < bench_lines_spec(results, cached, width).len() ==> line_fits(
                #[trigger] bench_lines_spec(results, cached, width)[i],
                bench_parts(results, cached),
                if width < 1 { 1 } else { width as nat },
            ),
{
    let parts = bench_parts(results, cached);
    let w: nat = if width < 1 { 1 } else { width as nat };
    if results.len() > 0 {
        assert(parts == parts.take(parts.len() as int));
        lemma_pack_fits(parts, parts, w);
    }
}

} // verus!
