use rmon::bench::{json_escape, opt_json, parse_args, percentile, Lcg, TestKind, DEFAULT_SIZE, DEVICE_SIZE};

fn s(args: &[&str]) -> Vec<String> {
    args.iter().map(|a| a.to_string()).collect()
}

#[test]
fn defaults_when_no_args() {
    let cfg = parse_args(&[]).unwrap();
    assert_eq!(cfg.size, 256 << 20);
    assert_eq!(cfg.secs_per_rand_test, 3);
}

#[test]
fn parses_all_flags() {
    let cfg = parse_args(&s(&["--path", "/tmp", "--size-mb", "64", "--secs", "5"])).unwrap();
    assert_eq!(cfg.target_dir.as_deref(), Some("/tmp"));
    assert_eq!(cfg.size, 64 << 20);
    assert_eq!(cfg.secs_per_rand_test, 5);
}

#[test]
fn rejects_unknown_and_malformed() {
    assert!(parse_args(&s(&["--nope"])).is_err());
    assert!(parse_args(&s(&["--size-mb"])).is_err());
    assert!(parse_args(&s(&["--size-mb", "abc"])).is_err());
    assert!(parse_args(&s(&["--size-mb", "0"])).is_err());
}

#[test]
fn device_conflicts_with_path() {
    assert!(parse_args(&s(&["--device", "/x", "--path", "/y"])).is_err());
    assert!(parse_args(&s(&["--path", "/y", "--device", "/x"])).is_err());
}

#[test]
fn device_alone_parses() {
    let cfg = parse_args(&s(&["--device", "/dev/rdisk0"])).unwrap();
    assert_eq!(cfg.device.as_deref(), Some("/dev/rdisk0"));
    // no --size-mb: devices default to a 1 GiB cap
    assert_eq!(cfg.size, 1 << 30);
    let cfg = parse_args(&s(&["--device", "/dev/rdisk0", "--size-mb", "64"])).unwrap();
    assert_eq!(cfg.size, 64 << 20);
}

#[test]
fn default_sizes_are_the_documented_ones() {
    assert_eq!(DEFAULT_SIZE, 256 << 20);
    assert_eq!(DEVICE_SIZE, 1 << 30);
    let cfg = parse_args(&[]).unwrap();
    assert_eq!(cfg.target_dir, None);
    assert_eq!(cfg.device, None);
}

#[test]
fn error_messages_carry_the_usage() {
    let e = parse_args(&s(&["--nope"])).unwrap_err();
    assert!(e.contains("--nope"));
    assert!(e.contains("usage: rmon bench"));
}

#[test]
fn percentile_picks_expected_ranks() {
    let v: Vec<u64> = (1..=100).collect();
    assert_eq!(percentile(&v, 50), 50);
    assert_eq!(percentile(&v, 99), 99);
    assert_eq!(percentile(&v, 100), 100);
    assert_eq!(percentile(&[42], 50), 42);
    assert_eq!(percentile(&[], 50), 0);
}

#[test]
fn percentile_rounds_the_rank_up() {
    let v: Vec<u64> = vec![10, 20, 30];
    // ceil(0.5 * 3) = 2
    assert_eq!(percentile(&v, 50), 20);
    assert_eq!(percentile(&v, 0), 10);
}

#[test]
fn json_escape_quotes_backslashes_and_controls() {
    assert_eq!(json_escape("/tmp/my \"dir\""), "/tmp/my \\\"dir\\\"");
    assert_eq!(json_escape("a\\b"), "a\\\\b");
    assert_eq!(json_escape("l1\nl2\tx\r"), "l1\\nl2\\tx\\r");
    assert_eq!(json_escape("\u{1}"), "\\u0001");
    assert_eq!(json_escape("plain é"), "plain é");
}

#[test]
fn opt_json_writes_numbers_and_null() {
    assert_eq!(opt_json(Some(81)), "81");
    assert_eq!(opt_json(None), "null");
}

#[test]
fn lcg_is_deterministic_and_varied() {
    let mut a = Lcg(7);
    let mut b = Lcg(7);
    let xs: Vec<u64> = (0..8).map(|_| a.next()).collect();
    let ys: Vec<u64> = (0..8).map(|_| b.next()).collect();
    assert_eq!(xs, ys);
    assert!(xs.windows(2).all(|w| w[0] != w[1]));
}

#[test]
fn lcg_step_is_the_documented_recurrence() {
    let mut g = Lcg(0);
    let r = g.next();
    assert_eq!(g.0, 1442695040888963407);
    assert_eq!(r, 1442695040888963407 >> 11);
}

#[test]
fn test_labels() {
    assert_eq!(TestKind::SeqWrite.label(), "seq write");
    assert_eq!(TestKind::SeqRead.label(), "seq read");
    assert_eq!(TestKind::RandRead.label(), "rand read");
    assert_eq!(TestKind::RandWrite.label(), "rand write");
}

#[test]
fn headless_outcome_prefers_the_error_then_the_report() {
    use_outcome();
}

fn use_outcome() {
    assert_eq!(rmon::bench::bench_outcome(Some(7), Some("disk full".to_string())), Err("disk full".to_string()));
    assert_eq!(rmon::bench::bench_outcome(Some(7), None), Ok(7));
    assert_eq!(rmon::bench::bench_outcome::<u8>(None, None), Err("bench produced no report".to_string()));
}
