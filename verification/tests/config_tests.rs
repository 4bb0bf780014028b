use cupidmq::config::{
    format_socket_addr, parse_conf_text, parse_size, resolve, resolve_bind, CliOverrides, FileConfig,
};

#[test]
fn parse_conf_ignores_comments() {
    let m = parse_conf_text("# comment\nhost=0.0.0.0\ncontrol_port=9750\n\nhistory_cap=1800");
    assert_eq!(m.get("host").map(String::as_str), Some("0.0.0.0"));
    assert_eq!(m.get("control_port").map(String::as_str), Some("9750"));
    assert_eq!(m.get("history_cap").map(String::as_str), Some("1800"));
}

#[test]
fn resolve_host_and_ports() {
    let file = FileConfig {
        values: parse_conf_text("host=0.0.0.0\ncontrol_port=9750\nmetrics_port=9752"),
    };
    let resolved = resolve(Some(&file), None, CliOverrides::default());
    assert_eq!(resolved.host, "0.0.0.0");
    assert_eq!(resolved.control_port, 9750);
    assert_eq!(resolved.metrics_port, 9752);
    assert_eq!(resolved.control, "0.0.0.0:9750");
    assert_eq!(resolved.metrics, "0.0.0.0:9752");
}

#[test]
fn resolve_cli_overrides_file() {
    let file = FileConfig {
        values: parse_conf_text("host=0.0.0.0\ncontrol_port=9750\nmetrics_port=9752"),
    };
    let resolved = resolve(
        Some(&file),
        None,
        CliOverrides {
            host: Some("10.0.0.5".into()),
            control_port: Some(19750),
            ..Default::default()
        },
    );
    assert_eq!(resolved.host, "10.0.0.5");
    assert_eq!(resolved.control_port, 19750);
    assert_eq!(resolved.metrics_port, 9752);
}

#[test]
fn format_ipv6_socket_addr() {
    assert_eq!(format_socket_addr("::1", 9750), "[::1]:9750");
    assert_eq!(format_socket_addr("[::1]", 9750), "[::1]:9750");
}

#[test]
fn parse_size_units() {
    assert_eq!(parse_size("1024mb"), Some(1024 * 1024 * 1024));
    assert_eq!(parse_size("512m"), Some(512 * 1024 * 1024));
    assert_eq!(parse_size("1073741824"), Some(1073741824));
}

#[test]
fn parse_conf_later_line_wins_and_quotes_are_stripped() {
    let m = parse_conf_text("HOST = \"a\"\nhost='b'\nnoequals\n=value\nkey=\n  port = 1 # trailing\r\n");
    assert_eq!(m.get("host").map(String::as_str), Some("b"));
    assert_eq!(m.get("port").map(String::as_str), Some("1"));
    assert_eq!(m.get("noequals"), None);
    assert_eq!(m.get("key"), None);
    assert_eq!(m.get(""), None);
}

#[test]
fn parse_size_fractions_case_and_separators() {
    assert_eq!(parse_size("1.5k"), Some(1536));
    assert_eq!(parse_size(" 2KB "), Some(2048));
    assert_eq!(parse_size("1_000"), Some(1000));
    assert_eq!(parse_size("0.5g"), Some(512 * 1024 * 1024));
    assert_eq!(parse_size(".5m"), Some(512 * 1024));
    assert_eq!(parse_size("-3k"), Some(0));
    assert_eq!(parse_size("+7"), Some(7));
    assert_eq!(parse_size("99999999999999999999gb"), Some(u64::MAX));
    assert_eq!(parse_size(""), None);
    assert_eq!(parse_size("   "), None);
    assert_eq!(parse_size("kb"), None);
    assert_eq!(parse_size("1.2.3k"), None);
    assert_eq!(parse_size("12x"), None);
    assert_eq!(parse_size("18446744073709551616"), None);
}

#[test]
fn parse_size_reads_the_float_grammar() {
    assert_eq!(parse_size("1e3k"), Some(1_024_000));
    assert_eq!(parse_size("1E+2KB"), Some(102_400));
    assert_eq!(parse_size("1e-3k"), Some(1));
    assert_eq!(parse_size("2.5e-1m"), Some(262_144));
    assert_eq!(parse_size("1.k"), Some(1024));
    assert_eq!(parse_size("1e30k"), Some(u64::MAX));
    assert_eq!(parse_size("0e99999999999999999999999k"), Some(0));
    assert_eq!(parse_size("1e-99999999999999999999999k"), Some(0));
    assert_eq!(parse_size("infk"), Some(u64::MAX));
    assert_eq!(parse_size("+Infinity g"), Some(u64::MAX));
    assert_eq!(parse_size("-infk"), Some(0));
    assert_eq!(parse_size("nank"), Some(0));
    assert_eq!(parse_size("-NaN mb"), Some(0));
    assert_eq!(parse_size("ek"), None);
    assert_eq!(parse_size("1ek"), None);
    assert_eq!(parse_size("1e+k"), None);
    assert_eq!(parse_size("1e2.5k"), None);
    assert_eq!(parse_size(".k"), None);
    assert_eq!(parse_size("infx"), None);
    assert_eq!(parse_size("1e3"), None);
}

#[test]
fn parse_size_rounds_as_f64_does() {
    // The number is rounded to 53 bits before the unit is applied.
    assert_eq!(parse_size("0.99999999999999999k"), Some(1024));
    assert_eq!(parse_size("9007199254740993k"), Some(9_223_372_036_854_775_808));
    // Halfway between two f64 values: the even one.
    assert_eq!(parse_size("9007199254740995k"), Some(9_223_372_036_854_779_904));
    assert_eq!(parse_size("123456789.987654321g"), Some(132_560_718_866_528_896));
    assert_eq!(parse_size("0.1g"), Some(107_374_182));
    assert_eq!(parse_size("3.3k"), Some(3379));
    assert_eq!(parse_size("1e-10g"), Some(0));
    assert_eq!(parse_size("17179869183.99999999999g"), Some(u64::MAX));
}

#[test]
fn conf_map_counts_distinct_keys() {
    let m = parse_conf_text("a=1\nb=2\na=3\n");
    assert_eq!(m.len(), 2);
    assert_eq!(m.entry_count(), 3);
    assert_eq!(m.get("a").map(String::as_str), Some("3"));
}

#[test]
fn file_getters_read_typed_values() {
    let file = FileConfig {
        values: parse_conf_text("a=65535\nb=65536\nc=2mb\nd=x\ne=42"),
    };
    assert_eq!(file.get_u16("a"), Some(65535));
    assert_eq!(file.get_u16("b"), None);
    assert_eq!(file.get_u64("c"), Some(2 * 1024 * 1024));
    assert_eq!(file.get_usize("d"), None);
    assert_eq!(file.get_usize("e"), Some(42));
    assert_eq!(file.get_str("missing"), None);
    assert_eq!(file.get_str("d"), Some("x"));
}

#[test]
fn resolve_defaults_without_file() {
    let resolved = resolve(None, None, CliOverrides::default());
    assert_eq!(resolved.host, "0.0.0.0");
    assert_eq!(resolved.control_port, 9750);
    assert_eq!(resolved.metrics_port, 9752);
    assert_eq!(resolved.history_interval_ms, 2000);
    assert_eq!(resolved.history_cap, 1800);
    assert_eq!(resolved.dashboard_dir, None);
    assert_eq!(resolved.control, "0.0.0.0:9750");
}

#[test]
fn resolve_reads_history_and_dashboard_from_file() {
    let file = FileConfig {
        values: parse_conf_text("history_interval_ms=1k\nhistory_cap=10\ndashboard_dir=/srv/ui\ncontrol_port=bad"),
    };
    let resolved = resolve(Some(&file), None, CliOverrides::default());
    assert_eq!(resolved.history_interval_ms, 1024);
    assert_eq!(resolved.history_cap, 10);
    assert_eq!(resolved.dashboard_dir.as_deref(), Some("/srv/ui"));
    assert_eq!(resolved.control_port, 9750);
    let (host, c, m) = resolve_bind(
        &CliOverrides { host: Some("::1".into()), metrics_port: Some(1), ..Default::default() },
        Some(&file),
    );
    assert_eq!((host.as_str(), c, m), ("::1", 9750, 1));
}

#[test]
fn format_socket_addr_trims_host() {
    assert_eq!(format_socket_addr("  10.0.0.1 ", 80), "10.0.0.1:80");
    assert_eq!(format_socket_addr("fe80::1", 0), "[fe80::1]:0");
}
