//! System-info popup (`s`): the macOS marketing names, os-release lookups,
//! the distro logos with their palettes, and the rows the popup shows.

use vstd::prelude::*;
use crate::text::{
    chars_eq, concat_chars, find_char, first_index, has_prefix, lemma_first_index_bounds, lines,
    seqs_view, slice_chars, split_lines, starts_with, string_from_chars, to_chars, trim,
    trim_chars,
};
use crate::update::{trim_char, trim_char_exec};
use crate::collect::opt_view;

verus! {

/// `s` up to its first `.` (all of it when there is none).
pub open spec fn first_piece(s: Seq<char>) -> Seq<char> {
    if first_index(s, '.') < 0 {
        s
    } else {
        s.take(first_index(s, '.'))
    }
}

/// What follows the first `.` of `s`, None when there is none.
pub open spec fn after_dot(s: Seq<char>) -> Option<Seq<char>> {
    if first_index(s, '.') < 0 {
        None
    } else {
        Some(s.skip(first_index(s, '.') + 1))
    }
}

fn pieces(s: &Vec<char>) -> (r: (Vec<char>, Option<Vec<char>>))
    ensures
        r.0@ == first_piece(s@),
        match r.1 {
            Some(t) => after_dot(s@) == Some(t@),
            None => after_dot(s@) is None,
        },
{
    proof {
        lemma_first_index_bounds(s@, '.');
    }
    match find_char(s, '.') {
        Some(i) => {
            assert(i < s.len());
            let a = slice_chars(s, 0, i);
            let b = slice_chars(s, i + 1, s.len());
            assert(a@ == s@.take(i as int));
            assert(b@ == s@.skip(i + 1));
            (a, Some(b))
        },
        None => {
            let a = slice_chars(s, 0, s.len());
            assert(a@ == s@);
            (a, None)
        },
    }
}

/// Names of the 10.x releases by minor version.
pub open spec fn darwin10_name(minor: Seq<char>) -> Option<&'static str> {
    if minor == "4"@ {
        Some("Mac OS X Tiger")
    } else if minor == "5"@ {
        Some("Mac OS X Leopard")
    } else if minor == "6"@ {
        Some("Mac OS X Snow Leopard")
    } else if minor == "7"@ {
        Some("Mac OS X Lion")
    } else if minor == "8"@ {
        Some("OS X Mountain Lion")
    } else if minor == "9"@ {
        Some("OS X Mavericks")
    } else if minor == "10"@ {
        Some("OS X Yosemite")
    } else if minor == "11"@ {
        Some("OS X El Capitan")
    } else if minor == "12"@ {
        Some("macOS Sierra")
    } else if minor == "13"@ {
        Some("macOS High Sierra")
    } else if minor == "14"@ {
        Some("macOS Mojave")
    } else if minor == "15"@ {
        Some("macOS Catalina")
    } else if minor == "16"@ {
        Some("macOS Big Sur")
    } else {
        None
    }
}

/// Names of the releases numbered by major version.
pub open spec fn macos_major_name(major: Seq<char>) -> Option<&'static str> {
    if major == "11"@ {
        Some("macOS Big Sur")
    } else if major == "12"@ {
        Some("macOS Monterey")
    } else if major == "13"@ {
        Some("macOS Ventura")
    } else if major == "14"@ {
        Some("macOS Sonoma")
    } else if major == "15"@ {
        Some("macOS Sequoia")
    } else if major == "26"@ {
        Some("macOS Tahoe")
    } else {
        None
    }
}

/// The marketing name of a macOS version string, None for releases not in the table.
pub open spec fn macos_name_spec(version: Seq<char>) -> Option<&'static str> {
    let major = first_piece(version);
    if major == "10"@ {
        match after_dot(version) {
            None => None,
            Some(rest) => darwin10_name(first_piece(rest)),
        }
    } else {
        macos_major_name(major)
    }
}

fn is(s: &Vec<char>, lit: &str) -> (r: bool)
    ensures
        r == (s@ == lit@),
{
    chars_eq(s, &to_chars(lit))
}

/// version -> marketing name, the same table as neofetch's.
pub fn macos_name(version: &str) -> (r: Option<&'static str>)
    ensures
        r == macos_name_spec(version@),
{
    let v = to_chars(version);
    let (major, rest) = pieces(&v);
    if is(&major, "10") {
        let rest = match rest {
            Some(t) => t,
            None => return None,
        };
        let (minor, _) = pieces(&rest);
        if is(&minor, "4") {
            Some("Mac OS X Tiger")
        } else if is(&minor, "5") {
            Some("Mac OS X Leopard")
        } else if is(&minor, "6") {
            Some("Mac OS X Snow Leopard")
        } else if is(&minor, "7") {
            Some("Mac OS X Lion")
        } else if is(&minor, "8") {
            Some("OS X Mountain Lion")
        } else if is(&minor, "9") {
            Some("OS X Mavericks")
        } else if is(&minor, "10") {
            Some("OS X Yosemite")
        } else if is(&minor, "11") {
            Some("OS X El Capitan")
        } else if is(&minor, "12") {
            Some("macOS Sierra")
        } else if is(&minor, "13") {
            Some("macOS High Sierra")
        } else if is(&minor, "14") {
            Some("macOS Mojave")
        } else if is(&minor, "15") {
            Some("macOS Catalina")
        } else if is(&minor, "16") {
            Some("macOS Big Sur")
        } else {
            None
        }
    } else if is(&major, "11") {
        Some("macOS Big Sur")
    } else if is(&major, "12") {
        Some("macOS Monterey")
    } else if is(&major, "13") {
        Some("macOS Ventura")
    } else if is(&major, "14") {
        Some("macOS Sonoma")
    } else if is(&major, "15") {
        Some("macOS Sequoia")
    } else if is(&major, "26") {
        Some("macOS Tahoe")
    } else {
        None
    }
}

/// The value of a `key=value` line, when the line starts with `key=`.
pub open spec fn release_line(l: Seq<char>, key: Seq<char>) -> Option<Seq<char>> {
    if has_prefix(l, key + seq!['=']) {
        Some(trim_char(trim(l.skip(key.len() as int + 1)), '"'))
    } else {
        None
    }
}

/// The first line of the text that holds `key`, its value trimmed and unquoted.
pub open spec fn release_scan(ls: Seq<Seq<char>>, key: Seq<char>) -> Option<Seq<char>>
    decreases ls.len(),
{
    if ls.len() == 0 {
        None
    } else {
        match release_line(ls[0], key) {
            Some(v) => Some(v),
            None => release_scan(ls.drop_first(), key),
        }
    }
}

/// Pulls one KEY=value line out of os-release text, quotes stripped.
pub fn os_release_field(text: &str, key: &str) -> (r: Option<String>)
    ensures
        opt_view(r) == release_scan(lines(text@), key@),
{
    let chars = to_chars(text);
    let ls = split_lines(&chars);
    let ghost lv = seqs_view(ls@);
    let k = to_chars(key);
    let prefix = concat_chars(&k, &vec!['=']);
    let mut i: usize = 0;
    assert(lv.skip(0) == lv);
    while i < ls.len()
        invariant
            i <= ls.len(),
            lv == seqs_view(ls@),
            lv == lines(text@),
            k@ == key@,
            prefix@ == key@ + seq!['='],
            release_scan(lv, key@) == release_scan(lv.skip(i as int), key@),
        decreases ls.len() - i,
    {
        assert(lv.skip(i as int)[0] == ls@[i as int]@);
        assert(lv.skip(i as int).drop_first() == lv.skip(i + 1));
        let l = &ls[i];
        if starts_with(l, &prefix) {
            let v = slice_chars(l, prefix.len(), l.len());
            assert(v@ == l@.skip(key@.len() as int + 1));
            let t = trim_char_exec(&trim_chars(&v), '"');
            return Some(string_from_chars(&t));
        }
        i += 1;
    }
    None
}

/// A terminal color of the logo art: an indexed palette entry or the default.
#[derive(Debug, Clone, Copy, PartialEq, Eq, Structural)]
pub enum PaletteColor {
    Indexed(u8),
    Reset,
}

/// The ascii-art logos the popup can show.
#[derive(Debug, Clone, Copy, PartialEq, Eq, Structural)]
pub enum Logo {
    Darwin,
    Debian,
    Ubuntu,
    Arch,
    Tux,
}

impl Logo {
    /// Rows of art of each logo.
    pub open spec fn height(self) -> nat {
        match self {
            Logo::Darwin => 17,
            Logo::Debian => 17,
            Logo::Ubuntu => 20,
            Logo::Arch => 19,
            Logo::Tux => 12,
        }
    }

    /// The art rows of each logo, top to bottom.
    pub open spec fn art_rows(self) -> Seq<&'static str> {
        match self {
            Logo::Darwin => seq![
                "                    c.'",
                "                 ,xNMM.",
                "               .OMMMMo",
                "               lMMM\"",
                "     .;loddo:.  .olloddol;.",
                "   cKMMMMMMMMMMNWMMMMMMMMMM0:",
                " .KMMMMMMMMMMMMMMMMMMMMMMMWd.",
                " XMMMMMMMMMMMMMMMMMMMMMMMX.",
                ";MMMMMMMMMMMMMMMMMMMMMMMM:",
                ":MMMMMMMMMMMMMMMMMMMMMMMM:",
                ".MMMMMMMMMMMMMMMMMMMMMMMMX.",
                " kMMMMMMMMMMMMMMMMMMMMMMMMWd.",
                " 'XMMMMMMMMMMMMMMMMMMMMMMMMMMk",
                "  'XMMMMMMMMMMMMMMMMMMMMMMMMK.",
                "    kMMMMMMMMMMMMMMMMMMMMMMd",
                "     ;KMMMMMMMWXXWMMMMMMMk.",
                "       \"cooc*\"    \"*coo'\"",
            ],
            Logo::Debian => seq![
                "       _,met$$$$$gg.",
                "    ,g$$$$$$$$$$$$$$$P.",
                "  ,g$$P\"        \"\"\"Y$$.\".",
                " ,$$P'              `$$$.",
                "',$$P       ,ggs.     `$$b:",
                "`d$$'     ,$P\"'   .    $$$",
                " $$P      d$'     ,    $$P",
                " $$:      $$.   -    ,d$$'",
                " $$;      Y$b._   _,d$P'",
                " Y$$.    `.`\"Y$$$$P\"'",
                " `$$b      \"-.__",
                "  `Y$$",
                "   `Y$$.",
                "     `$$b.",
                "       `Y$$b.",
                "          `\"Y$b._",
                "              `\"\"\"",
            ],
            Logo::Ubuntu => seq![
                "            .-/+oossssoo+\\-.",
                "        \u{b4}:+ssssssssssssssssss+:`",
                "      -+ssssssssssssssssssyyssss+-",
                "    .ossssssssssssssssssdMMMNysssso.",
                "   /ssssssssssshdmmNNmmyNMMMMhssssss\\",
                "  +ssssssssshmydMMMMMMMNddddyssssssss+",
                " /sssssssshNMMMyhhyyyyhmNMMMNhssssssss\\",
                ".ssssssssdMMMNhsssssssssshNMMMdssssssss.",
                "+sssshhhyNMMNyssssssssssssyNMMMysssssss+",
                "ossyNMMMNyMMhsssssssssssssshmmmhssssssso",
                "ossyNMMMNyMMhsssssssssssssshmmmhssssssso",
                "+sssshhhyNMMNyssssssssssssyNMMMysssssss+",
                ".ssssssssdMMMNhsssssssssshNMMMdssssssss.",
                " \\sssssssshNMMMyhhyyyyhdNMMMNhssssssss/",
                "  +sssssssssdmydMMMMMMMMddddyssssssss+",
                "   \\ssssssssssshdmNNNNmyNMMMMhssssss/",
                "    .ossssssssssssssssssdMMMNysssso.",
                "      -+sssssssssssssssssyyyssss+-",
                "        `:+ssssssssssssssssss+:`",
                "            .-\\+oossssoo+/-.",
            ],
            Logo::Arch => seq![
                "                   -`",
                "                  .o+`",
                "                 `ooo/",
                "                `+oooo:",
                "               `+oooooo:",
                "               -+oooooo+:",
                "             `/:-:++oooo+:",
                "            `/++++/+++++++:",
                "           `/++++++++++++++:",
                "          `/+++ooooooooooooo/`",
                "         ./ooosssso++osssssso+`",
                "        .oossssso-````/ossssss+`",
                "       -osssssso.      :ssssssso.",
                "      :osssssss/        osssso+++.",
                "     /ossssssss/        +ssssooo/-",
                "   `/ossssso+/:-        -:/+osssso+-",
                "  `+sso+:-`                 `.-/+oso:",
                " `++:.                           `-/+/",
                " .`                                 `/",
            ],
            Logo::Tux => seq![
                "        #####",
                "       #######",
                "       ##O#O##",
                "       #######",
                "     ###########",
                "    #############",
                "   ###############",
                "   ################",
                "  #################",
                "#####################",
                "#####################",
                "  #################",
            ],
        }
    }

    /// The logo's art, one string per row.
    pub fn art(self) -> (r: Vec<&'static str>)
        ensures
            r@ == self.art_rows(),
            r@.len() == self.height(),
    {
        match self {
            Logo::Darwin => vec![
                "                    c.'",
                "                 ,xNMM.",
                "               .OMMMMo",
                "               lMMM\"",
                "     .;loddo:.  .olloddol;.",
                "   cKMMMMMMMMMMNWMMMMMMMMMM0:",
                " .KMMMMMMMMMMMMMMMMMMMMMMMWd.",
                " XMMMMMMMMMMMMMMMMMMMMMMMX.",
                ";MMMMMMMMMMMMMMMMMMMMMMMM:",
                ":MMMMMMMMMMMMMMMMMMMMMMMM:",
                ".MMMMMMMMMMMMMMMMMMMMMMMMX.",
                " kMMMMMMMMMMMMMMMMMMMMMMMMWd.",
                " 'XMMMMMMMMMMMMMMMMMMMMMMMMMMk",
                "  'XMMMMMMMMMMMMMMMMMMMMMMMMK.",
                "    kMMMMMMMMMMMMMMMMMMMMMMd",
                "     ;KMMMMMMMWXXWMMMMMMMk.",
                "       \"cooc*\"    \"*coo'\"",
            ],
            Logo::Debian => vec![
                "       _,met$$$$$gg.",
                "    ,g$$$$$$$$$$$$$$$P.",
                "  ,g$$P\"        \"\"\"Y$$.\".",
                " ,$$P'              `$$$.",
                "',$$P       ,ggs.     `$$b:",
                "`d$$'     ,$P\"'   .    $$$",
                " $$P      d$'     ,    $$P",
                " $$:      $$.   -    ,d$$'",
                " $$;      Y$b._   _,d$P'",
                " Y$$.    `.`\"Y$$$$P\"'",
                " `$$b      \"-.__",
                "  `Y$$",
                "   `Y$$.",
                "     `$$b.",
                "       `Y$$b.",
                "          `\"Y$b._",
                "              `\"\"\"",
            ],
            Logo::Ubuntu => vec![
                "            .-/+oossssoo+\\-.",
                "        \u{b4}:+ssssssssssssssssss+:`",
                "      -+ssssssssssssssssssyyssss+-",
                "    .ossssssssssssssssssdMMMNysssso.",
                "   /ssssssssssshdmmNNmmyNMMMMhssssss\\",
                "  +ssssssssshmydMMMMMMMNddddyssssssss+",
                " /sssssssshNMMMyhhyyyyhmNMMMNhssssssss\\",
                ".ssssssssdMMMNhsssssssssshNMMMdssssssss.",
                "+sssshhhyNMMNyssssssssssssyNMMMysssssss+",
                "ossyNMMMNyMMhsssssssssssssshmmmhssssssso",
                "ossyNMMMNyMMhsssssssssssssshmmmhssssssso",
                "+sssshhhyNMMNyssssssssssssyNMMMysssssss+",
                ".ssssssssdMMMNhsssssssssshNMMMdssssssss.",
                " \\sssssssshNMMMyhhyyyyhdNMMMNhssssssss/",
                "  +sssssssssdmydMMMMMMMMddddyssssssss+",
                "   \\ssssssssssshdmNNNNmyNMMMMhssssss/",
                "    .ossssssssssssssssssdMMMNysssso.",
                "      -+sssssssssssssssssyyyssss+-",
                "        `:+ssssssssssssssssss+:`",
                "            .-\\+oossssoo+/-.",
            ],
            Logo::Arch => vec![
                "                   -`",
                "                  .o+`",
                "                 `ooo/",
                "                `+oooo:",
                "               `+oooooo:",
                "               -+oooooo+:",
                "             `/:-:++oooo+:",
                "            `/++++/+++++++:",
                "           `/++++++++++++++:",
                "          `/+++ooooooooooooo/`",
                "         ./ooosssso++osssssso+`",
                "        .oossssso-````/ossssss+`",
                "       -osssssso.      :ssssssso.",
                "      :osssssss/        osssso+++.",
                "     /ossssssss/        +ssssooo/-",
                "   `/ossssso+/:-        -:/+osssso+-",
                "  `+sso+:-`                 `.-/+oso:",
                " `++:.                           `-/+/",
                " .`                                 `/",
            ],
            Logo::Tux => vec![
                "        #####",
                "       #######",
                "       ##O#O##",
                "       #######",
                "     ###########",
                "    #############",
                "   ###############",
                "   ################",
                "  #################",
                "#####################",
                "#####################",
                "  #################",
            ],
        }
    }

    /// The colors of each logo: one per art row, or one for the whole art.
    pub open spec fn palette_rows(self) -> Seq<PaletteColor> {
        match self {
            Logo::Darwin => seq![
                PaletteColor::Indexed(2),
                PaletteColor::Indexed(2),
                PaletteColor::Indexed(2),
                PaletteColor::Indexed(2),
                PaletteColor::Indexed(2),
                PaletteColor::Indexed(2),
                PaletteColor::Indexed(3),
                PaletteColor::Indexed(3),
                PaletteColor::Indexed(1),
                PaletteColor::Indexed(1),
                PaletteColor::Indexed(1),
                PaletteColor::Indexed(1),
                PaletteColor::Indexed(5),
                PaletteColor::Indexed(5),
                PaletteColor::Indexed(4),
                PaletteColor::Indexed(4),
                PaletteColor::Indexed(4),
            ],
            Logo::Debian => seq![PaletteColor::Indexed(7)],
            Logo::Ubuntu => seq![PaletteColor::Indexed(1)],
            Logo::Arch => seq![PaletteColor::Indexed(6)],
            Logo::Tux => seq![
                PaletteColor::Indexed(8),
                PaletteColor::Indexed(8),
                PaletteColor::Indexed(8),
                PaletteColor::Indexed(3),
                PaletteColor::Reset,
                PaletteColor::Reset,
                PaletteColor::Reset,
                PaletteColor::Reset,
                PaletteColor::Indexed(3),
                PaletteColor::Indexed(3),
                PaletteColor::Indexed(3),
                PaletteColor::Indexed(3),
            ],
        }
    }

    /// The logo's colors: one per art row, or a single color for the whole art.
    pub fn palette(self) -> (r: Vec<PaletteColor>)
        ensures
            r@ == self.palette_rows(),
            r@.len() == 1 || r@.len() == self.height(),
            r@.len() > 0,
    {
        match self {
            Logo::Darwin => vec![
                PaletteColor::Indexed(2),
                PaletteColor::Indexed(2),
                PaletteColor::Indexed(2),
                PaletteColor::Indexed(2),
                PaletteColor::Indexed(2),
                PaletteColor::Indexed(2),
                PaletteColor::Indexed(3),
                PaletteColor::Indexed(3),
                PaletteColor::Indexed(1),
                PaletteColor::Indexed(1),
                PaletteColor::Indexed(1),
                PaletteColor::Indexed(1),
                PaletteColor::Indexed(5),
                PaletteColor::Indexed(5),
                PaletteColor::Indexed(4),
                PaletteColor::Indexed(4),
                PaletteColor::Indexed(4),
            ],
            Logo::Debian => vec![PaletteColor::Indexed(7)],
            Logo::Ubuntu => vec![PaletteColor::Indexed(1)],
            Logo::Arch => vec![PaletteColor::Indexed(6)],
            Logo::Tux => vec![
                PaletteColor::Indexed(8),
                PaletteColor::Indexed(8),
                PaletteColor::Indexed(8),
                PaletteColor::Indexed(3),
                PaletteColor::Reset,
                PaletteColor::Reset,
                PaletteColor::Reset,
                PaletteColor::Reset,
                PaletteColor::Indexed(3),
                PaletteColor::Indexed(3),
                PaletteColor::Indexed(3),
                PaletteColor::Indexed(3),
            ],
        }
    }
}

/// os-release ID -> logo; anything without art of its own gets Tux.
pub open spec fn logo_for_id_spec(id: Seq<char>) -> Logo {
    if id == "debian"@ {
        Logo::Debian
    } else if id == "ubuntu"@ {
        Logo::Ubuntu
    } else if id == "arch"@ {
        Logo::Arch
    } else {
        Logo::Tux
    }
}

pub fn logo_for_id(id: &str) -> (r: Logo)
    ensures
        r == logo_for_id_spec(id@),
{
    let v = to_chars(id);
    if is(&v, "debian") {
        Logo::Debian
    } else if is(&v, "ubuntu") {
        Logo::Ubuntu
    } else if is(&v, "arch") {
        Logo::Arch
    } else {
        Logo::Tux
    }
}


/// The host row: the DMI product name and, when there is one, its version
/// (each file's text trimmed; an empty name means no row).
pub open spec fn host_line_spec(name: Option<Seq<char>>, version: Option<Seq<char>>) -> Option<
    Seq<char>,
> {
    match name {
        None => None,
        Some(n) => {
            let n = trim(n);
            if n.len() == 0 {
                None
            } else {
                match version {
                    Some(v) if trim(v).len() > 0 => Some(n + seq![' '] + trim(v)),
                    _ => Some(n),
                }
            }
        },
    }
}

fn trimmed(o: Option<&str>) -> (r: Option<Vec<char>>)
    ensures
        match (o, r) {
            (Some(t), Some(v)) => v@ == trim(t@),
            (None, None) => true,
            _ => false,
        },
{
    match o {
        Some(t) => Some(trim_chars(&to_chars(t))),
        None => None,
    }
}

/// The host row from the contents of the DMI `product_name` and
/// `product_version` files (None where a file could not be read).
pub fn host_line(product_name: Option<&str>, product_version: Option<&str>) -> (r: Option<String>)
    ensures
        opt_view(r) == host_line_spec(
            match product_name {
                Some(t) => Some(t@),
                None => None,
            },
            match product_version {
                Some(t) => Some(t@),
                None => None,
            },
        ),
{
    let n = match trimmed(product_name) {
        None => return None,
        Some(n) => n,
    };
    if n.len() == 0 {
        return None;
    }
    match trimmed(product_version) {
        Some(v) => if v.len() > 0 {
            Some(string_from_chars(&concat_chars(&concat_chars(&n, &vec![' ']), &v)))
        } else {
            Some(string_from_chars(&n))
        },
        None => Some(string_from_chars(&n)),
    }
}

/// The macOS os row: marketing name, version and architecture; a release
/// too new to have a name shows as plain `macOS`.
pub open spec fn os_line_spec(version: Seq<char>, arch: Seq<char>) -> Seq<char> {
    let name = match macos_name_spec(version) {
        Some(n) => n@,
        None => seq!['m', 'a', 'c', 'O', 'S'],
    };
    name + seq![' '] + version + seq![' '] + arch
}

pub fn os_line(version: &str, arch: &str) -> (r: String)
    ensures
        r@ == os_line_spec(version@, arch@),
{
    let name = match macos_name(version) {
        Some(n) => to_chars(n),
        None => vec!['m', 'a', 'c', 'O', 'S'],
    };
    let a = concat_chars(&concat_chars(&name, &vec![' ']), &to_chars(version));
    string_from_chars(&concat_chars(&concat_chars(&a, &vec![' ']), &to_chars(arch)))
}

pub open spec fn row_view(r: (String, String)) -> (Seq<char>, Seq<char>) {
    (r.0@, r.1@)
}

/// The popup's static rows: os, host, kernel (when the release string is
/// not empty), shell and terminal (when not empty), in that order.
pub open spec fn fetch_lines_spec(
    os: Option<Seq<char>>,
    host: Option<Seq<char>>,
    release: Option<Seq<char>>,
    shell: Option<Seq<char>>,
    term: Option<Seq<char>>,
) -> Seq<(Seq<char>, Seq<char>)> {
    let a = match os {
        Some(v) => seq![(seq!['o', 's'], v)],
        None => seq![],
    };
    let b = match host {
        Some(v) => a.push((seq!['h', 'o', 's', 't'], v)),
        None => a,
    };
    let c = match release {
        Some(v) if v.len() > 0 => b.push((seq!['k', 'e', 'r', 'n', 'e', 'l'], v)),
        _ => b,
    };
    let d = match shell {
        Some(v) => c.push((seq!['s', 'h', 'e', 'l', 'l'], v)),
        None => c,
    };
    match term {
        Some(v) if v.len() > 0 => d.push((seq!['t', 'e', 'r', 'm', 'i', 'n', 'a', 'l'], v)),
        _ => d,
    }
}

fn push_row(rows: &mut Vec<(String, String)>, label: Vec<char>, value: String)
    ensures
        final(rows)@.map_values(|r: (String, String)| row_view(r)) == old(rows)@.map_values(
            |r: (String, String)| row_view(r),
        ).push((label@, value@)),
{
    let ghost before = rows@;
    rows.push((string_from_chars(&label), value));
    assert(rows@.map_values(|r: (String, String)| row_view(r)) =~= before.map_values(
        |r: (String, String)| row_view(r),
    ).push((label@, rows@[rows@.len() - 1].1@)));
}

/// The popup's static rows from what the system reported: the os line, the
/// host line, the kernel release, the shell's file name and the terminal.
pub fn fetch_lines(
    os: Option<String>,
    host: Option<String>,
    release: Option<String>,
    shell: Option<String>,
    term: Option<String>,
) -> (r: Vec<(String, String)>)
    ensures
        r@.map_values(|x: (String, String)| row_view(x)) == fetch_lines_spec(
            opt_view(os),
            opt_view(host),
            opt_view(release),
            opt_view(shell),
            opt_view(term),
        ),
{
    let mut rows: Vec<(String, String)> = Vec::new();
    assert(rows@.map_values(|x: (String, String)| row_view(x)) =~= seq![]);
    match os {
        Some(v) => push_row(&mut rows, vec!['o', 's'], v),
        None => {},
    }
    match host {
        Some(v) => push_row(&mut rows, vec!['h', 'o', 's', 't'], v),
        None => {},
    }
    match release {
        Some(v) => if v.as_str().is_empty() {
        } else {
            push_row(&mut rows, vec!['k', 'e', 'r', 'n', 'e', 'l'], v)
        },
        None => {},
    }
    match shell {
        Some(v) => push_row(&mut rows, vec!['s', 'h', 'e', 'l', 'l'], v),
        None => {},
    }
    match term {
        Some(v) => if v.as_str().is_empty() {
        } else {
            push_row(&mut rows, vec!['t', 'e', 'r', 'm', 'i', 'n', 'a', 'l'], v)
        },
        None => {},
    }
    rows
}

} // verus!
