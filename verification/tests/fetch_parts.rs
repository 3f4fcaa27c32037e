use rmon::fetch::{fetch_lines, host_line, logo_for_id, macos_name, os_line, os_release_field, Logo};

#[test]
fn darwin_versions_map_to_marketing_names() {
    assert_eq!(macos_name("10.4.11"), Some("Mac OS X Tiger"));
    assert_eq!(macos_name("10.15.7"), Some("macOS Catalina"));
    assert_eq!(macos_name("10.16"), Some("macOS Big Sur"));
    assert_eq!(macos_name("11.6.1"), Some("macOS Big Sur"));
    assert_eq!(macos_name("12.0"), Some("macOS Monterey"));
    assert_eq!(macos_name("15.5"), Some("macOS Sequoia"));
    assert_eq!(macos_name("26.0"), Some("macOS Tahoe"));
    // unknown releases fall through so the caller shows the bare number
    assert_eq!(macos_name("99.1"), None);
    assert_eq!(macos_name("10.99"), None);
    assert_eq!(macos_name(""), None);
}

#[test]
fn os_release_parses_quoted_and_bare_values() {
    let text = "NAME=\"Debian GNU/Linux\"\n\
PRETTY_NAME=\"Debian GNU/Linux 12 (bookworm)\"\n\
ID_LIKE=debian-ish\n\
ID=debian\n\
VERSION_ID=\"12\"\n";
    assert_eq!(os_release_field(text, "PRETTY_NAME").as_deref(), Some("Debian GNU/Linux 12 (bookworm)"));
    // ID must not match ID_LIKE or VERSION_ID
    assert_eq!(os_release_field(text, "ID").as_deref(), Some("debian"));
    assert_eq!(os_release_field(text, "MISSING"), None);
}

#[test]
fn logo_selection_covers_known_ids_and_falls_back_to_tux() {
    assert_eq!(logo_for_id("debian"), Logo::Debian);
    assert_eq!(logo_for_id("ubuntu"), Logo::Ubuntu);
    assert_eq!(logo_for_id("arch"), Logo::Arch);
    assert_eq!(logo_for_id("gentoo"), Logo::Tux);
}

#[test]
fn every_logo_has_a_usable_palette() {
    for logo in [Logo::Darwin, Logo::Debian, Logo::Ubuntu, Logo::Arch, Logo::Tux] {
        let art = logo.art();
        let pal = logo.palette();
        assert!(!art.is_empty() && !pal.is_empty());
        // per-row palettes must line up with their art
        assert!(pal.len() == 1 || pal.len() == art.len());
    }
}

#[test]
fn macos_eleven_and_later_go_by_major_version() {
    assert_eq!(macos_name("13.4"), Some("macOS Ventura"));
    assert_eq!(macos_name("14"), Some("macOS Sonoma"));
    assert_eq!(macos_name("10.0"), None);
}

#[test]
fn host_line_joins_trimmed_name_and_version() {
    assert_eq!(host_line(Some("ThinkPad X1\n"), Some(" 20XW \n")).as_deref(), Some("ThinkPad X1 20XW"));
    assert_eq!(host_line(Some("ThinkPad X1\n"), None).as_deref(), Some("ThinkPad X1"));
    assert_eq!(host_line(Some("ThinkPad X1"), Some("  \n")).as_deref(), Some("ThinkPad X1"));
    assert_eq!(host_line(Some(" \n"), Some("1.0")), None);
    assert_eq!(host_line(None, Some("1.0")), None);
}

#[test]
fn os_line_names_the_release() {
    assert_eq!(os_line("14.2", "arm64"), "macOS Sonoma 14.2 arm64");
    assert_eq!(os_line("10.9.5", "x86_64"), "OS X Mavericks 10.9.5 x86_64");
    assert_eq!(os_line("99.0", "arm64"), "macOS 99.0 arm64");
}

#[test]
fn fetch_rows_keep_order_and_skip_empty() {
    let rows = fetch_lines(
        Some("Debian GNU/Linux 12 (bookworm)".into()),
        Some("ThinkPad".into()),
        Some("6.1.0".into()),
        Some("zsh".into()),
        Some("xterm".into()),
    );
    let labels: Vec<&str> = rows.iter().map(|(l, _)| l.as_str()).collect();
    assert_eq!(labels, vec!["os", "host", "kernel", "shell", "terminal"]);
    assert_eq!(rows[2].1, "6.1.0");
    let rows = fetch_lines(None, None, Some(String::new()), Some("bash".into()), Some(String::new()));
    assert_eq!(rows, vec![("shell".to_string(), "bash".to_string())]);
}
