use rmon::bench::TestKind;
use rmon::fmt::{bench_lines, bench_rows, humanize};

fn rate(bytes_per_sec: f64) -> String {
    let b = bytes_per_sec.max(0.0) as u64;
    if b < 1024 {
        format!("{b} B/s")
    } else {
        format!("{}/s", humanize(b))
    }
}

fn part(kind: TestKind, bytes_per_sec: f64, iops: f64, p99: Option<u64>) -> String {
    match p99 {
        Some(p) => format!("{} {:.0}k iops p99 {}µs", kind.label(), iops / 1e3, p),
        None => format!("{} {}", kind.label(), rate(bytes_per_sec)),
    }
}

#[test]
fn bench_lines_fit_width_and_match_row_budget() {
    let results = vec![
        part(TestKind::SeqWrite, 2.0e9, 0.0, None),
        part(TestKind::RandRead, 0.0, 180_000.0, Some(85)),
    ];
    let cached = true;
    for width in [10u16, 20, 35, 80, 200] {
        let lines = bench_lines(&results, cached, width);
        assert!(!lines.is_empty());
        for l in &lines {
            // only a lone unsplittable part may exceed the width
            assert!(
                l.chars().count() <= usize::from(width) || !l.contains(" | "),
                "packed line overflows {width}: {l:?}"
            );
        }
        assert_eq!(
            bench_rows(false, &results, cached, width),
            lines.len(),
            "row budget disagrees with rendered lines at width {width}"
        );
    }
    // wide enough: everything packs onto the single classic line
    assert_eq!(bench_lines(&results, cached, 200).len(), 1);
    assert!(bench_lines(&results, cached, 200)[0].ends_with("(cached)"));
}

#[test]
fn bench_results_wrap() {
    let results = vec![
        part(TestKind::SeqWrite, 2.0e9, 0.0, None),
        part(TestKind::SeqRead, 2.4e9, 0.0, None),
        part(TestKind::RandRead, 0.0, 180_000.0, Some(85)),
        part(TestKind::RandWrite, 0.0, 95_000.0, Some(120)),
    ];
    // a 60-wide frame leaves a ~35-column rows column: the joined line must wrap
    let lines = bench_lines(&results, true, 35);
    assert!(lines.len() > 1);
    let text = lines.join("\n");
    for label in ["seq write", "seq read", "rand read", "rand write"] {
        assert!(text.contains(label), "missing {label}: {text}");
    }
    assert!(text.contains("(cached)"), "missing cached marker: {text}");
}

#[test]
fn bench_lines_exact_packing() {
    let results = vec!["seq write 1.9 GiB/s".to_string(), "rand read 180k iops p99 85µs".to_string()];
    assert_eq!(
        bench_lines(&results, false, 200),
        vec!["bench: seq write 1.9 GiB/s | rand read 180k iops p99 85µs".to_string()]
    );
    assert_eq!(
        bench_lines(&results, true, 30),
        vec![
            "bench: seq write 1.9 GiB/s".to_string(),
            "rand read 180k iops p99 85µs".to_string(),
            "(cached)".to_string()
        ]
    );
    // the bare word stands alone when nothing fits beside it
    assert_eq!(bench_lines(&results, false, 5)[0], "bench:");
    assert_eq!(bench_lines(&results, false, 0).len(), 3);
    // nothing to show before the first result
    assert!(bench_lines(&Vec::new(), true, 80).is_empty());
    assert_eq!(bench_rows(true, &Vec::new(), true, 80), 1);
    assert_eq!(bench_rows(true, &results, false, 200), 2);
}
