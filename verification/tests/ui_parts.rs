use rmon::fmt::{braille_cell, humanize};

#[test]
fn humanize_bytes() {
    assert_eq!(humanize(512), "512 B");
    assert_eq!(humanize(2048), "2.0 KiB");
    assert_eq!(humanize(16 * 1024 * 1024 * 1024), "16.0 GiB");
}

#[test]
fn humanize_rounds_to_one_decimal() {
    assert_eq!(humanize(1536), "1.5 KiB");
    assert_eq!(humanize(1023), "1023 B");
    assert_eq!(humanize(1024), "1.0 KiB");
    assert_eq!(humanize(5 * 1024 * 1024 / 2), "2.5 MiB");
}

#[test]
fn braille_dot_levels() {
    assert_eq!(braille_cell(0, 0), '\u{2800}');
    assert_eq!(braille_cell(4, 4), '⣿');
    assert_eq!(braille_cell(1, 0), '⡀'); // one dot, bottom left
    assert_eq!(braille_cell(0, 1), '⢀'); // one dot, bottom right
    assert_eq!(braille_cell(9, 9), '⣿'); // clamps
}

/// The float formulation the panels were first written with.
fn humanize_by_float(bytes: u64) -> String {
    const UNITS: [&str; 5] = ["B", "KiB", "MiB", "GiB", "TiB"];
    let mut v = bytes as f64;
    let mut u = 0;
    while v >= 1024.0 && u < UNITS.len() - 1 {
        v /= 1024.0;
        u += 1;
    }
    if u == 0 {
        format!("{bytes} B")
    } else {
        format!("{v:.1} {}", UNITS[u])
    }
}

#[test]
fn humanize_agrees_with_float_formatting() {
    let mut cases: Vec<u64> = (0..300_000u64).step_by(7).collect();
    cases.extend([1280, 1536, 3328, 1024 * 1024 + 512 * 1024 / 2, 5 << 29, 1 << 40, (1 << 40) + (1 << 38)]);
    for b in cases {
        assert_eq!(humanize(b), humanize_by_float(b), "bytes {b}");
    }
}
