//! Release-tag handling for `rmon update`: reading the tag out of GitHub's
//! `/releases/latest` redirect and deciding whether it is newer than the
//! running version.

use vstd::prelude::*;
use crate::text::{
    lines, seqs_view, split_lines, trim_start, trim_start_chars,
    chars_eq, find_char, first_index, lemma_first_index_bounds, parse_u64, parse_u64_chars,
    slice_chars, string_from_chars, to_chars, trim, trim_chars,
};
use crate::collect::opt_view;

verus! {

/// `p` occurs in `s` at index `i`.
pub open spec fn occurs_at(s: Seq<char>, p: Seq<char>, i: int) -> bool {
    0 <= i && i + p.len() <= s.len() && s.subrange(i, i + p.len()) == p
}

/// The last index at or below `i` where `p` occurs in `s`, or -1.
pub open spec fn last_occ_from(s: Seq<char>, p: Seq<char>, i: int) -> int
    decreases i + 1,
{
    if i < 0 {
        -1
    } else if occurs_at(s, p, i) {
        i
    } else {
        last_occ_from(s, p, i - 1)
    }
}

/// The index of the last occurrence of `p` in `s`, or -1.
pub open spec fn last_occ(s: Seq<char>, p: Seq<char>) -> int {
    last_occ_from(s, p, s.len() - p.len())
}

/// `s` with every leading and trailing `c` removed (`trim_matches(c)`).
pub open spec fn trim_char(s: Seq<char>, c: char) -> Seq<char>
    decreases s.len(),
{
    if s.len() > 0 && s[0] == c {
        trim_char(s.drop_first(), c)
    } else if s.len() > 0 && s.last() == c {
        trim_char(s.drop_last(), c)
    } else {
        s
    }
}

/// `s` with every leading `c` removed (`trim_start_matches(c)`).
pub open spec fn trim_start_char(s: Seq<char>, c: char) -> Seq<char>
    decreases s.len(),
{
    if s.len() > 0 && s[0] == c {
        trim_start_char(s.drop_first(), c)
    } else {
        s
    }
}

pub fn trim_char_exec(s: &Vec<char>, c: char) -> (r: Vec<char>)
    ensures
        r@ == trim_char(s@, c),
{
    let mut lo: usize = 0;
    let mut hi: usize = s.len();
    assert(s@.subrange(0, s@.len() as int) == s@);
    while lo < hi && (s[lo] == c || s[hi - 1] == c)
        invariant
            lo <= hi <= s.len(),
            trim_char(s@, c) == trim_char(s@.subrange(lo as int, hi as int), c),
        decreases hi - lo,
    {
        let ghost m = s@.subrange(lo as int, hi as int);
        if s[lo] == c {
            assert(m.drop_first() == s@.subrange(lo + 1, hi as int));
            lo += 1;
        } else {
            assert(m.drop_last() == s@.subrange(lo as int, hi - 1));
            hi -= 1;
        }
    }
    slice_chars(s, lo, hi)
}

pub fn trim_start_char_exec(s: &Vec<char>, c: char) -> (r: Vec<char>)
    ensures
        r@ == trim_start_char(s@, c),
{
    let mut lo: usize = 0;
    assert(s@.skip(0) == s@);
    while lo < s.len() && s[lo] == c
        invariant
            lo <= s.len(),
            trim_start_char(s@, c) == trim_start_char(s@.skip(lo as int), c),
        decreases s.len() - lo,
    {
        assert(s@.skip(lo as int).drop_first() == s@.skip(lo + 1));
        lo += 1;
    }
    let r = slice_chars(s, lo, s.len());
    assert(r@ == s@.skip(lo as int));
    r
}

pub open spec fn tag_marker() -> Seq<char> {
    seq!['/', 't', 'a', 'g', '/']
}

/// The release tag in a `/releases/latest` redirect target (or a `Location:`
/// header line): what follows the last `/tag/`, slashes trimmed, when that is
/// non-empty and holds no further `/`.
pub open spec fn tag_from_redirect_spec(url: Seq<char>) -> Option<Seq<char>> {
    let u = trim(url);
    let i = last_occ(u, tag_marker());
    if i < 0 {
        None
    } else {
        let tag = trim_char(u.skip(i + 5), '/');
        if tag.len() > 0 && first_index(tag, '/') < 0 {
            Some(tag)
        } else {
            None
        }
    }
}

fn last_occ_exec(s: &Vec<char>, p: &Vec<char>) -> (r: Option<usize>)
    requires
        p.len() > 0,
    ensures
        match r {
            Some(i) => last_occ(s@, p@) == i as int && i + p.len() <= s.len(),
            None => last_occ(s@, p@) == -1,
        },
{
    if p.len() > s.len() {
        return None;
    }
    let mut i: usize = s.len() - p.len() + 1;
    while i > 0
        invariant
            i <= s.len() - p.len() + 1,
            p.len() <= s.len(),
            last_occ(s@, p@) == last_occ_from(s@, p@, i - 1),
        decreases i,
    {
        let k = i - 1;
        let mut j: usize = 0;
        let mut ok = true;
        while j < p.len()
            invariant
                j <= p.len(),
                k + p.len() <= s.len(),
                ok == (forall|t: int| 0 <= t < j ==> s@[k + t] == p@[t]),
            decreases p.len() - j,
        {
            if s[k + j] != p[j] {
                ok = false;
            }
            j += 1;
        }
        if ok {
            assert(s@.subrange(k as int, k + p.len()) =~= p@);
            return Some(k);
        }
        assert(!(s@.subrange(k as int, k + p.len()) =~= p@));
        i -= 1;
    }
    None
}

/// Tag out of GitHub's /releases/latest redirect target, e.g.
/// `.../releases/tag/v1.2.0` -> `v1.2.0`.
pub fn tag_from_redirect(url: &str) -> (r: Option<String>)
    ensures
        opt_view(r) == tag_from_redirect_spec(url@),
{
    let u = trim_chars(&to_chars(url));
    let marker = vec!['/', 't', 'a', 'g', '/'];
    match last_occ_exec(&u, &marker) {
        None => None,
        Some(i) => {
            let after = slice_chars(&u, i + 5, u.len());
            assert(after@ == u@.skip(i + 5));
            let tag = trim_char_exec(&after, '/');
            if tag.len() > 0 && find_char(&tag, '/').is_none() {
                Some(string_from_chars(&tag))
            } else {
                None
            }
        },
    }
}

/// "v1.2.3" or "1.2.3" -> [1, 2, 3]: leading `v`s dropped, then exactly
/// three dot-separated u64 numbers (the third takes the rest of the text).
pub open spec fn semver_spec(s: Seq<char>) -> Option<Seq<u64>> {
    let b = trim_start_char(trim(s), 'v');
    let i1 = first_index(b, '.');
    if i1 < 0 {
        None
    } else {
        let rest = b.skip(i1 + 1);
        let i2 = first_index(rest, '.');
        if i2 < 0 {
            None
        } else {
            match (parse_u64(b.take(i1)), parse_u64(rest.take(i2)), parse_u64(rest.skip(i2 + 1))) {
                (Some(x), Some(y), Some(z)) => Some(seq![x, y, z]),
                _ => None,
            }
        }
    }
}

/// Parses a release version.
pub fn semver(s: &str) -> (r: Option<[u64; 3]>)
    ensures
        match r {
            Some(v) => semver_spec(s@) == Some(v@),
            None => semver_spec(s@) is None,
        },
{
    let b = trim_start_char_exec(&trim_chars(&to_chars(s)), 'v');
    proof {
        lemma_first_index_bounds(b@, '.');
    }
    let i1 = match find_char(&b, '.') {
        Some(i) => i,
        None => return None,
    };
    assert(i1 < b.len());
    let rest = slice_chars(&b, i1 + 1, b.len());
    assert(rest@ == b@.skip(i1 + 1));
    proof {
        lemma_first_index_bounds(rest@, '.');
    }
    let i2 = match find_char(&rest, '.') {
        Some(i) => i,
        None => return None,
    };
    assert(i2 < rest.len());
    let p1 = slice_chars(&b, 0, i1);
    let p2 = slice_chars(&rest, 0, i2);
    let p3 = slice_chars(&rest, i2 + 1, rest.len());
    assert(p1@ == b@.take(i1 as int));
    assert(p2@ == rest@.take(i2 as int));
    assert(p3@ == rest@.skip(i2 + 1));
    match (parse_u64_chars(&p1), parse_u64_chars(&p2), parse_u64_chars(&p3)) {
        (Some(x), Some(y), Some(z)) => {
            let v = [x, y, z];
            assert(v@ =~= seq![x, y, z]);
            Some(v)
        },
        _ => None,
    }
}

/// Lexicographic order on versions: `a` is not newer than `b`.
pub open spec fn version_le(a: Seq<u64>, b: Seq<u64>) -> bool {
    a[0] < b[0] || (a[0] == b[0] && (a[1] < b[1] || (a[1] == b[1] && a[2] <= b[2])))
}

/// Whether the release `tag` needs no update from version `current`: both
/// parse and the tag is not newer, or the tag does not parse and equals the
/// current version once its leading `v`s are dropped. Anything else updates.
pub open spec fn up_to_date_spec(tag: Seq<char>, current: Seq<char>) -> bool {
    match (semver_spec(tag), semver_spec(current)) {
        (Some(l), Some(c)) => version_le(l, c),
        (None, _) => trim_start_char(tag, 'v') == current,
        _ => false,
    }
}

/// Decides whether `rmon update` can stop: the latest release `tag` is not
/// newer than the `current` version.
pub fn is_up_to_date(tag: &str, current: &str) -> (r: bool)
    ensures
        r == up_to_date_spec(tag@, current@),
{
    match (semver(tag), semver(current)) {
        (Some(l), Some(c)) => {
            l[0] < c[0] || (l[0] == c[0] && (l[1] < c[1] || (l[1] == c[1] && l[2] <= c[2])))
        },
        (None, _) => chars_eq(&trim_start_char_exec(&to_chars(tag), 'v'), &to_chars(current)),
        _ => false,
    }
}


pub open spec fn location_word() -> Seq<char> {
    seq!['l', 'o', 'c', 'a', 't', 'i', 'o', 'n', ':']
}

pub open spec fn location_caps() -> Seq<char> {
    seq!['L', 'O', 'C', 'A', 'T', 'I', 'O', 'N', ':']
}

/// A `Location:` header line, ASCII case ignored, leading whitespace allowed.
pub open spec fn is_location_line(l: Seq<char>) -> bool {
    let t = trim_start(l);
    t.len() >= 9 && forall|i: int|
        0 <= i < 9 ==> #[trigger] t[i] == location_word()[i] || t[i] == location_caps()[i]
}

/// The tag of the last `Location:` line that carries one.
pub open spec fn location_scan(ls: Seq<Seq<char>>) -> Option<Seq<char>>
    decreases ls.len(),
{
    if ls.len() == 0 {
        None
    } else if is_location_line(ls.last()) && tag_from_redirect_spec(ls.last()) is Some {
        tag_from_redirect_spec(ls.last())
    } else {
        location_scan(ls.drop_last())
    }
}

fn location_line_exec(l: &Vec<char>) -> (r: bool)
    ensures
        r == is_location_line(l@),
{
    let t = trim_start_chars(l);
    if t.len() < 9 {
        return false;
    }
    let w = vec!['l', 'o', 'c', 'a', 't', 'i', 'o', 'n', ':'];
    let u = vec!['L', 'O', 'C', 'A', 'T', 'I', 'O', 'N', ':'];
    let mut i: usize = 0;
    while i < 9
        invariant
            i <= 9,
            t@.len() >= 9,
            t@ == trim_start(l@),
            w@ == location_word(),
            u@ == location_caps(),
            forall|j: int| 0 <= j < i ==> #[trigger] t@[j] == location_word()[j] || t@[j] == location_caps()[j],
        decreases 9 - i,
    {
        if t[i] != w[i] && t[i] != u[i] {
            return false;
        }
        i += 1;
    }
    true
}

/// The release tag out of `wget -S` response headers: the last `Location:`
/// line that names one.
pub fn location_tag(headers: &str) -> (r: Option<String>)
    ensures
        opt_view(r) == location_scan(lines(headers@)),
{
    let ls = split_lines(&to_chars(headers));
    let ghost lv = seqs_view(ls@);
    let mut i: usize = ls.len();
    assert(lv.take(lv.len() as int) == lv);
    while i > 0
        invariant
            i <= ls@.len(),
            lv == seqs_view(ls@),
            lv == lines(headers@),
            location_scan(lv) == location_scan(lv.take(i as int)),
        decreases i,
    {
        assert(lv.take(i as int).last() == ls@[i - 1]@);
        assert(lv.take(i as int).drop_last() == lv.take(i - 1));
        if location_line_exec(&ls[i - 1]) {
            let line = string_from_chars(&ls[i - 1]);
            assert(line@ == lv.take(i as int).last());
            let t = tag_from_redirect(line.as_str());
            if t.is_some() {
                return t;
            }
        }
        i -= 1;
    }
    None
}

/// `a` is strictly newer than `b`: at the first of the three components where
/// they differ, `a` has the larger number.
pub open spec fn newer_at_first_difference(a: Seq<u64>, b: Seq<u64>) -> bool {
    exists|k: int| 0 <= k < 3 && a.take(k) == b.take(k) && #[trigger] a[k] > b[k]
}

/// When both the release tag and the running version parse, the running
/// version is up to date exactly when the release is not newer at the first
/// component where the two differ: a larger major, a larger minor under an
/// equal major, or a larger patch under equal major and minor (so "v1.2.1"
/// against "1.2.0" updates). Two parsed versions that are each up to date
/// against the other are equal, and of any two one is up to date against
/// the other.
pub proof fn law_up_to_date_is_version_order(tag: Seq<char>, current: Seq<char>)
    requires
        semver_spec(tag) is Some,
        semver_spec(current) is Some,
    ensures
        up_to_date_spec(tag, current) <==> !newer_at_first_difference(
            semver_spec(tag)->0,
            semver_spec(current)->0,
        ),
        up_to_date_spec(tag, current) && up_to_date_spec(current, tag) ==> semver_spec(tag)
            == semver_spec(current),
        up_to_date_spec(tag, current) || up_to_date_spec(current, tag),
{
    let l = semver_spec(tag)->0;
    let c = semver_spec(current)->0;
    assert(l.len() == 3 && c.len() == 3);
    assert(l.take(0) =~= c.take(0));
    if l[0] == c[0] {
        assert(l.take(1) =~= c.take(1));
        if l[1] == c[1] {
            assert(l.take(2) =~= c.take(2));
        }
    }
    if newer_at_first_difference(l, c) {
        let k = choose|k: int| 0 <= k < 3 && l.take(k) == c.take(k) && #[trigger] l[k] > c[k];
        if k >= 1 {
            assert(l.take(k)[0] == l[0] && c.take(k)[0] == c[0]);
        }
        if k == 2 {
            assert(l.take(k)[1] == l[1] && c.take(k)[1] == c[1]);
        }
    }
    if up_to_date_spec(tag, current) && up_to_date_spec(current, tag) {
        assert(l =~= c);
    }
}

proof fn lemma_last_occ_from_at(s: Seq<char>, p: Seq<char>, j: int, k: int)
    requires
        0 <= k <= j,
        occurs_at(s, p, k),
        forall|i: int| k < i <= j ==> !#[trigger] occurs_at(s, p, i),
    ensures
        last_occ_from(s, p, j) == k,
    decreases j,
{
    if j > k {
        lemma_last_occ_from_at(s, p, j - 1, k);
    }
}

/// The tag is what follows the LAST `/tag/` of the redirect target: for a
/// target `prefix/tag/T` with no surrounding whitespace, where `T` is not
/// empty and holds no `/`, the tag read is `T`, whatever the prefix holds
/// (another `/tag/` included).
pub proof fn law_tag_follows_last_marker(pre: Seq<char>, t: Seq<char>)
    requires
        t.len() > 0,
        forall|j: int| 0 <= j < t.len() ==> t[j] != '/',
        !crate::text::is_unicode_ws((pre + tag_marker() + t)[0]),
        !crate::text::is_unicode_ws(t.last()),
    ensures
        tag_from_redirect_spec(pre + tag_marker() + t) == Some(t),
{
    let u = pre + tag_marker() + t;
    let n = pre.len() as int;
    assert(u.last() == t.last());
    assert(crate::text::trim_end(u) == u);
    assert(trim_start(u) == u);
    assert(trim(u) == u);
    assert(u.subrange(n, n + 5) =~= tag_marker());
    assert forall|i: int| n < i <= u.len() - 5 implies !#[trigger] occurs_at(u, tag_marker(), i) by {
        if occurs_at(u, tag_marker(), i) {
            assert(u.subrange(i, i + 5)[4] == u[i + 4]);
            assert(u[i + 4] == t[i + 4 - n - 5]);
        }
    }
    lemma_last_occ_from_at(u, tag_marker(), u.len() - 5, n);
    assert(u.skip(n + 5) =~= t);
    assert(t[0] != '/' && t.last() != '/');
    assert(trim_char(t, '/') == t);
    crate::text::lemma_first_index(t, '/', t.len() as int);
}

} // verus!
