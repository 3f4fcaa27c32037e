//! Disk benchmark configuration and report helpers: the command-line parser,
//! the JSON escaping of the history line, the latency percentile and the
//! deterministic generator behind the random offsets.

use vstd::prelude::*;
use crate::text::{
    chars_eq, concat_chars, decimal, digit_char, parse_u64, parse_u64_chars, string_from_chars,
    to_chars, u64_decimal,
};
use crate::collect::opt_view;

verus! {

#[derive(Debug, Clone, Copy, PartialEq, Eq, Structural)]
pub enum TestKind {
    SeqWrite,
    SeqRead,
    RandRead,
    RandWrite,
}

impl TestKind {
    pub open spec fn label_spec(self) -> &'static str {
        match self {
            TestKind::SeqWrite => "seq write",
            TestKind::SeqRead => "seq read",
            TestKind::RandRead => "rand read",
            TestKind::RandWrite => "rand write",
        }
    }

    /// The name a test is shown and logged under.
    pub fn label(self) -> (r: &'static str)
        ensures
            r == self.label_spec(),
    {
        match self {
            TestKind::SeqWrite => "seq write",
            TestKind::SeqRead => "seq read",
            TestKind::RandRead => "rand read",
            TestKind::RandWrite => "rand write",
        }
    }
}

/// What to benchmark and for how long.
#[derive(Debug, Clone)]
pub struct BenchConfig {
    /// directory for the scratch file; None = the system temp dir
    pub target_dir: Option<String>,
    /// bytes to write and read
    pub size: u64,
    pub secs_per_rand_test: u64,
    /// Some(path): read-only raw device bench instead of the file bench
    pub device: Option<String>,
}

pub const DEFAULT_SIZE: u64 = 268435456;

pub const DEVICE_SIZE: u64 = 1073741824;

impl Default for BenchConfig {
    /// 256 MiB in the temp dir, 3 seconds per random test.
    fn default() -> (r: Self)
        ensures
            r.target_dir is None,
            r.size == DEFAULT_SIZE,
            r.secs_per_rand_test == 3,
            r.device is None,
    {
        BenchConfig { target_dir: None, size: DEFAULT_SIZE, secs_per_rand_test: 3, device: None }
    }
}

pub const USAGE: &'static str = "usage: rmon bench [--path DIR] [--size-mb N] [--secs N]\n       rmon bench --device /dev/rdisk0   read-only raw device test (root)";

/// An error message with the usage text after it.
pub open spec fn with_usage(m: Seq<char>) -> Seq<char> {
    m + "\n"@ + USAGE@
}

/// The settings gathered while reading the arguments.
pub struct ArgsModel {
    pub dir: Option<Seq<char>>,
    pub size: u64,
    pub secs: u64,
    pub device: Option<Seq<char>>,
    pub path_given: bool,
    pub size_given: bool,
}

pub open spec fn args_start() -> ArgsModel {
    ArgsModel {
        dir: None,
        size: DEFAULT_SIZE,
        secs: 3,
        device: None,
        path_given: false,
        size_given: false,
    }
}

/// Reads the arguments from position `i` on; a flag consumes the argument
/// after it as its value.
pub open spec fn args_step(a: Seq<Seq<char>>, i: int, st: ArgsModel) -> Result<ArgsModel, Seq<char>>
    decreases a.len() - i,
{
    if i < 0 || i >= a.len() {
        Ok(st)
    } else {
        let arg = a[i];
        if arg == "--path"@ {
            if i + 1 >= a.len() {
                Err(with_usage("--path"@ + " needs a value"@))
            } else {
                args_step(a, i + 2, ArgsModel { dir: Some(a[i + 1]), path_given: true, ..st })
            }
        } else if arg == "--size-mb"@ {
            if i + 1 >= a.len() {
                Err(with_usage("--size-mb"@ + " needs a value"@))
            } else {
                match parse_u64(a[i + 1]) {
                    None => Err(with_usage("--size-mb wants a number"@)),
                    Some(mb) => if mb == 0 {
                        Err(with_usage("--size-mb must be positive"@))
                    } else if mb * 1048576 > u64::MAX {
                        Err(with_usage("--size-mb is too large"@))
                    } else {
                        args_step(
                            a,
                            i + 2,
                            ArgsModel { size: (mb * 1048576) as u64, size_given: true, ..st },
                        )
                    },
                }
            }
        } else if arg == "--secs"@ {
            if i + 1 >= a.len() {
                Err(with_usage("--secs"@ + " needs a value"@))
            } else {
                match parse_u64(a[i + 1]) {
                    None => Err(with_usage("--secs wants a number"@)),
                    Some(n) => args_step(a, i + 2, ArgsModel { secs: n, ..st }),
                }
            }
        } else if arg == "--device"@ {
            if i + 1 >= a.len() {
                Err(with_usage("--device"@ + " needs a value"@))
            } else {
                args_step(a, i + 2, ArgsModel { device: Some(a[i + 1]), ..st })
            }
        } else {
            Err(with_usage("unknown flag "@ + arg))
        }
    }
}

/// The configuration the `rmon bench` arguments ask for, or the message
/// that rejects them. A device bench refuses --path and, without
/// --size-mb, caps its span at 1 GiB.
pub open spec fn parse_args_spec(a: Seq<Seq<char>>) -> Result<ArgsModel, Seq<char>> {
    match args_step(a, 0, args_start()) {
        Err(e) => Err(e),
        Ok(st) => if st.device is Some && st.path_given {
            Err(with_usage("--device and --path are mutually exclusive"@))
        } else if st.device is Some && !st.size_given {
            Ok(ArgsModel { size: DEVICE_SIZE, ..st })
        } else {
            Ok(st)
        },
    }
}

pub open spec fn strings_view(v: Seq<String>) -> Seq<Seq<char>> {
    v.map_values(|s: String| s@)
}

/// The message `m` followed by a newline and the usage text.
fn usage_error(m: &Vec<char>) -> (r: String)
    ensures
        r@ == with_usage(m@),
{
    let nl = to_chars("\n");
    let u = to_chars(USAGE);
    let a = concat_chars(m, &nl);
    let b = concat_chars(&a, &u);
    string_from_chars(&b)
}

fn needs_value(flag: &str) -> (r: String)
    ensures
        r@ == with_usage(flag@ + " needs a value"@),
{
    usage_error(&concat_chars(&to_chars(flag), &to_chars(" needs a value")))
}

/// Parses the arguments of `rmon bench`.
pub fn parse_args(args: &[String]) -> (r: Result<BenchConfig, String>)
    ensures
        match r {
            Ok(cfg) => parse_args_spec(strings_view(args@)) matches Ok(m) && m.dir == opt_view(
                cfg.target_dir,
            ) && m.size == cfg.size && m.secs == cfg.secs_per_rand_test && m.device == opt_view(
                cfg.device,
            ),
            Err(e) => parse_args_spec(strings_view(args@)) == Err::<ArgsModel, Seq<char>>(e@),
        },
{
    let ghost a = strings_view(args@);
    let f_path = to_chars("--path");
    let f_size = to_chars("--size-mb");
    let f_secs = to_chars("--secs");
    let f_device = to_chars("--device");
    let mut dir: Option<String> = None;
    let mut size: u64 = DEFAULT_SIZE;
    let mut secs: u64 = 3;
    let mut device: Option<String> = None;
    let mut path_given = false;
    let mut size_given = false;
    let mut i: usize = 0;
    while i < args.len()
        invariant
            i <= args@.len(),
            a == strings_view(args@),
            f_path@ == "--path"@,
            f_size@ == "--size-mb"@,
            f_secs@ == "--secs"@,
            f_device@ == "--device"@,
            args_step(a, 0, args_start()) == args_step(
                a,
                i as int,
                ArgsModel {
                    dir: opt_view(dir),
                    size,
                    secs,
                    device: opt_view(device),
                    path_given,
                    size_given,
                },
            ),
        decreases args@.len() - i,
    {
        let arg = to_chars(args[i].as_str());
        assert(a[i as int] == arg@);
        if chars_eq(&arg, &f_path) {
            if i + 1 >= args.len() {
                return Err(needs_value("--path"));
            }
            assert(a[i + 1] == args@[i + 1]@);
            dir = Some(string_from_chars(&to_chars(args[i + 1].as_str())));
            path_given = true;
            i += 2;
        } else if chars_eq(&arg, &f_size) {
            if i + 1 >= args.len() {
                return Err(needs_value("--size-mb"));
            }
            let v = to_chars(args[i + 1].as_str());
            assert(a[i + 1] == v@);
            match parse_u64_chars(&v) {
                None => {
                    return Err(usage_error(&to_chars("--size-mb wants a number")));
                },
                Some(mb) => {
                    if mb == 0 {
                        return Err(usage_error(&to_chars("--size-mb must be positive")));
                    }
                    match mb.checked_mul(1048576) {
                        None => {
                            return Err(usage_error(&to_chars("--size-mb is too large")));
                        },
                        Some(b) => {
                            size = b;
                            size_given = true;
                        },
                    }
                },
            }
            i += 2;
        } else if chars_eq(&arg, &f_secs) {
            if i + 1 >= args.len() {
                return Err(needs_value("--secs"));
            }
            let v = to_chars(args[i + 1].as_str());
            assert(a[i + 1] == v@);
            match parse_u64_chars(&v) {
                None => {
                    return Err(usage_error(&to_chars("--secs wants a number")));
                },
                Some(n) => {
                    secs = n;
                },
            }
            i += 2;
        } else if chars_eq(&arg, &f_device) {
            if i + 1 >= args.len() {
                return Err(needs_value("--device"));
            }
            assert(a[i + 1] == args@[i + 1]@);
            device = Some(string_from_chars(&to_chars(args[i + 1].as_str())));
            i += 2;
        } else {
            return Err(usage_error(&concat_chars(&to_chars("unknown flag "), &arg)));
        }
    }
    if device.is_some() {
        if path_given {
            return Err(usage_error(&to_chars("--device and --path are mutually exclusive")));
        }
        if !size_given {
            size = DEVICE_SIZE;
        }
    }
    Ok(BenchConfig { target_dir: dir, size, secs_per_rand_test: secs, device })
}

pub open spec fn hex_digit(n: nat) -> char {
    if n < 10 {
        digit_char(n)
    } else {
        (('a' as nat) + n - 10) as char
    }
}

/// How one character appears inside a JSON string literal.
pub open spec fn escape_char(c: char) -> Seq<char> {
    if c == '"' {
        seq!['\\', '"']
    } else if c == '\\' {
        seq!['\\', '\\']
    } else if c == '\n' {
        seq!['\\', 'n']
    } else if c == '\t' {
        seq!['\\', 't']
    } else if c == '\r' {
        seq!['\\', 'r']
    } else if (c as u32) <= 31 {
        seq!['\\', 'u', '0', '0', hex_digit(((c as u32) / 16) as nat), hex_digit(((c as u32) % 16) as nat)]
    } else {
        seq![c]
    }
}

/// `s` escaped for a JSON string literal, character by character.
pub open spec fn json_escape_spec(s: Seq<char>) -> Seq<char>
    decreases s.len(),
{
    if s.len() == 0 {
        seq![]
    } else {
        json_escape_spec(s.drop_last()) + escape_char(s.last())
    }
}

fn hex_char(n: u32) -> (c: char)
    requires
        n < 16,
    ensures
        c == hex_digit(n as nat),
{
    if n == 0 {
        '0'
    } else if n == 1 {
        '1'
    } else if n == 2 {
        '2'
    } else if n == 3 {
        '3'
    } else if n == 4 {
        '4'
    } else if n == 5 {
        '5'
    } else if n == 6 {
        '6'
    } else if n == 7 {
        '7'
    } else if n == 8 {
        '8'
    } else if n == 9 {
        '9'
    } else if n == 10 {
        'a'
    } else if n == 11 {
        'b'
    } else if n == 12 {
        'c'
    } else if n == 13 {
        'd'
    } else if n == 14 {
        'e'
    } else {
        'f'
    }
}

/// Escapes `s` for use inside a JSON string literal.
pub fn json_escape(s: &str) -> (r: String)
    ensures
        r@ == json_escape_spec(s@),
{
    let chars = to_chars(s);
    let mut out: Vec<char> = Vec::new();
    let mut i: usize = 0;
    while i < chars.len()
        invariant
            i <= chars.len(),
            chars@ == s@,
            out@ == json_escape_spec(chars@.take(i as int)),
        decreases chars.len() - i,
    {
        let c = chars[i];
        assert(chars@.take(i + 1).drop_last() == chars@.take(i as int));
        let ghost before = out@;
        if c == '"' {
            out.push('\\');
            out.push('"');
        } else if c == '\\' {
            out.push('\\');
            out.push('\\');
        } else if c == '\n' {
            out.push('\\');
            out.push('n');
        } else if c == '\t' {
            out.push('\\');
            out.push('t');
        } else if c == '\r' {
            out.push('\\');
            out.push('r');
        } else if (c as u32) <= 31 {
            let n: u32 = c as u32;
            out.push('\\');
            out.push('u');
            out.push('0');
            out.push('0');
            out.push(hex_char(n / 16));
            out.push(hex_char(n % 16));
            assert(out@ =~= before + escape_char(c));
        } else {
            out.push(c);
        }
        assert(out@ == before + escape_char(c));
        i += 1;
    }
    assert(chars@.take(chars.len() as int) == chars@);
    string_from_chars(&out)
}

/// A JSON number, or `null` for None.
pub fn opt_json(v: Option<u64>) -> (r: String)
    ensures
        r@ == (match v {
            Some(x) => decimal(x as nat),
            None => "null"@,
        }),
{
    match v {
        Some(x) => string_from_chars(&u64_decimal(x)),
        None => String::from_str("null"),
    }
}

/// The 1-based nearest rank of the `p`th percentile among `n` sorted
/// values: ceil(p * n / 100), clamped to 1..=n.
pub open spec fn nearest_rank(p: nat, n: nat) -> int {
    let k = (p * n + 99) / 100;
    if k < 1 {
        1
    } else if k > n {
        n as int
    } else {
        k as int
    }
}

/// Nearest-rank percentile of an already-sorted slice; 0 for an empty one.
pub fn percentile(sorted: &[u64], p: u64) -> (r: u64)
    ensures
        sorted@.len() == 0 ==> r == 0,
        sorted@.len() > 0 ==> r == sorted@[nearest_rank(p as nat, sorted@.len()) - 1],
{
    if sorted.len() == 0 {
        return 0;
    }
    let n = sorted.len() as u128;
    assert(p as u128 * n <= 0xFFFF_FFFF_FFFF_FFFF * 0xFFFF_FFFF_FFFF_FFFF) by (nonlinear_arith)
        requires
            p <= 0xFFFF_FFFF_FFFF_FFFFu64,
            n <= 0xFFFF_FFFF_FFFF_FFFFu128,
    ;
    let k = (p as u128 * n + 99) / 100;
    let rank: usize = if k < 1 {
        1
    } else if k > n {
        sorted.len()
    } else {
        k as usize
    };
    sorted[rank - 1]
}

/// Tiny deterministic generator; quality is irrelevant, non-repetition is enough.
pub struct Lcg(pub u64);

impl Lcg {
    /// The state after one step of the generator.
    pub open spec fn step(x: u64) -> u64 {
        vstd::wrapping::u64_specs::wrapping_add(
            vstd::wrapping::u64_specs::wrapping_mul(x, 6364136223846793005),
            1442695040888963407,
        )
    }

    /// Advances the state and returns its top 53 bits.
    pub fn next(&mut self) -> (r: u64)
        ensures
            final(self).0 == Lcg::step(old(self).0),
            r == final(self).0 >> 11,
    {
        self.0 = self.0.wrapping_mul(6364136223846793005).wrapping_add(1442695040888963407);
        self.0 >> 11
    }
}

/// How a headless run ends, from the last error the run reported and its
/// final report: the error when there was one, else the report, else the
/// complaint that no report came.
pub fn bench_outcome<R>(report: Option<R>, error: Option<String>) -> (r: Result<R, String>)
    ensures
        match error {
            Some(e) => r matches Err(m) && m@ == e@,
            None => match report {
                Some(x) => r == Ok::<R, String>(x),
                None => r matches Err(m) && m@ == "bench produced no report"@,
            },
        },
{
    match error {
        Some(e) => Err(e),
        None => match report {
            Some(x) => Ok(x),
            None => Err(string_from_chars(&to_chars("bench produced no report"))),
        },
    }
}

} // verus!
