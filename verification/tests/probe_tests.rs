use sysinfo_linux::{Decimal, SysInfoLinuxError, SystemInfo};

fn expect_parse_failure<T: std::fmt::Debug>(r: Result<T, SysInfoLinuxError>, want: &str) {
    match r {
        Err(SysInfoLinuxError::ParseFailure(m)) => assert_eq!(m, want),
        other => panic!("expected ParseFailure({:?}), got {:?}", want, other),
    }
}

#[test]
fn uptime_well_formed_value() {
    let r = SystemInfo::parse_uptime(b"12345.67 89.01");
    assert_eq!(r.unwrap(), Decimal { int_part: 12345, frac_digits: vec![6, 7] });
}

#[test]
fn uptime_empty_source() {
    expect_parse_failure(SystemInfo::parse_uptime(b""), "Missing uptime value");
}

#[test]
fn uptime_whitespace_only_source() {
    expect_parse_failure(SystemInfo::parse_uptime(b"  \t\n "), "Missing uptime value");
}

#[test]
fn uptime_non_numeric_token() {
    expect_parse_failure(SystemInfo::parse_uptime(b"abc 1.0"), "Parse error: invalid uptime value");
}

#[test]
fn uptime_whole_number() {
    let r = SystemInfo::parse_uptime(b"42\n");
    assert_eq!(r.unwrap(), Decimal { int_part: 42, frac_digits: vec![] });
}

#[test]
fn uptime_trailing_point() {
    let r = SystemInfo::parse_uptime(b"5.");
    assert_eq!(r.unwrap(), Decimal { int_part: 5, frac_digits: vec![] });
}

#[test]
fn uptime_leading_point() {
    let r = SystemInfo::parse_uptime(b".5");
    assert_eq!(r.unwrap(), Decimal { int_part: 0, frac_digits: vec![5] });
}

#[test]
fn uptime_lone_point() {
    expect_parse_failure(SystemInfo::parse_uptime(b"."), "Parse error: invalid uptime value");
}

#[test]
fn uptime_leading_whitespace_skipped() {
    let r = SystemInfo::parse_uptime(b"  7.25 1.00");
    assert_eq!(r.unwrap(), Decimal { int_part: 7, frac_digits: vec![2, 5] });
}

#[test]
fn uptime_integer_part_overflow() {
    // One past u64::MAX.
    let r = SystemInfo::parse_uptime(b"18446744073709551616.0");
    expect_parse_failure(r, "Parse error: invalid uptime value");
}

#[test]
fn uptime_integer_part_at_limit() {
    let r = SystemInfo::parse_uptime(b"18446744073709551615.9");
    assert_eq!(r.unwrap(), Decimal { int_part: u64::MAX, frac_digits: vec![9] });
}

#[test]
fn uptime_nonnegative() {
    // The reading is a magnitude: whole seconds plus fractional digits.
    let d = SystemInfo::parse_uptime(b"0.00 1.23").unwrap();
    assert_eq!(d.int_part, 0);
    assert_eq!(d.frac_digits, vec![0, 0]);
}

#[test]
fn uptime_repeated_parse_agrees() {
    let first = SystemInfo::parse_uptime(b"100.50 3.00").unwrap();
    let second = SystemInfo::parse_uptime(b"100.50 3.00").unwrap();
    assert_eq!(first, second);
}

#[test]
fn memory_typical_snapshot() {
    let text = b"MemTotal:   16384 kB\nMemAvailable: 8192 kB\n";
    assert_eq!(SystemInfo::parse_available_memory(text).unwrap(), 8192);
}

#[test]
fn memory_positive_on_healthy_snapshot() {
    let text = b"MemTotal:   16384 kB\nMemAvailable: 8192 kB\n";
    assert!(SystemInfo::parse_available_memory(text).unwrap() > 0);
}

#[test]
fn memory_field_not_found() {
    let text = b"MemTotal: 16384 kB\nSwapFree: 0 kB\n";
    expect_parse_failure(SystemInfo::parse_available_memory(text), "MemAvailable field not found");
}

#[test]
fn memory_empty_source_not_found() {
    expect_parse_failure(SystemInfo::parse_available_memory(b""), "MemAvailable field not found");
}

#[test]
fn memory_first_matching_line_wins() {
    let text = b"MemAvailable: 1 kB\nMemAvailable: 2 kB\n";
    assert_eq!(SystemInfo::parse_available_memory(text).unwrap(), 1);
}

#[test]
fn memory_first_matching_line_selected_even_if_bad() {
    // Scanning stops at the first matching line; a later duplicate is
    // ignored even when the first has no value to read.
    let text = b"MemAvailable:\nMemAvailable: 2 kB\n";
    expect_parse_failure(
        SystemInfo::parse_available_memory(text),
        "Parse error: missing memory value",
    );
}

#[test]
fn memory_missing_value() {
    let text = b"MemAvailable:\nMemFree: 1 kB\n";
    expect_parse_failure(
        SystemInfo::parse_available_memory(text),
        "Parse error: missing memory value",
    );
}

#[test]
fn memory_invalid_value() {
    let text = b"MemAvailable: abc kB\n";
    expect_parse_failure(
        SystemInfo::parse_available_memory(text),
        "Parse error: invalid memory value",
    );
}

#[test]
fn memory_value_overflow() {
    // One past u64::MAX.
    let text = b"MemAvailable: 18446744073709551616 kB\n";
    expect_parse_failure(
        SystemInfo::parse_available_memory(text),
        "Parse error: invalid memory value",
    );
}

#[test]
fn memory_value_without_unit() {
    assert_eq!(SystemInfo::parse_available_memory(b"MemAvailable: 2048\n").unwrap(), 2048);
}

#[test]
fn memory_crlf_line_endings() {
    let text = b"MemTotal: 1 kB\r\nMemAvailable: 512 kB\r\n";
    assert_eq!(SystemInfo::parse_available_memory(text).unwrap(), 512);
}

#[test]
fn memory_label_not_at_line_start_is_ignored() {
    let text = b"xMemAvailable: 5 kB\n";
    expect_parse_failure(SystemInfo::parse_available_memory(text), "MemAvailable field not found");
}

#[test]
fn memory_label_glued_to_value_reads_unit_field() {
    // The label field runs on into the digits, so the second
    // whitespace-separated field is the unit — not a number.
    let text = b"MemAvailable:5 kB";
    expect_parse_failure(
        SystemInfo::parse_available_memory(text),
        "Parse error: invalid memory value",
    );
}

#[test]
fn memory_zero_reported_as_zero() {
    // A snapshot can report zero; the parser hands it back unchanged.
    assert_eq!(SystemInfo::parse_available_memory(b"MemAvailable: 0 kB\n").unwrap(), 0);
}

#[test]
fn memory_repeated_parse_agrees() {
    let text = b"MemAvailable: 777 kB\n";
    let first = SystemInfo::parse_available_memory(text).unwrap();
    let second = SystemInfo::parse_available_memory(text).unwrap();
    assert_eq!(first, second);
}

#[test]
fn kernel_success_is_trimmed() {
    let r = SystemInfo::kernel_version_from_output(true, b"  6.1.0-generic\n");
    let v = r.unwrap();
    assert_eq!(v, b"6.1.0-generic".to_vec());
    assert!(!v.first().unwrap().is_ascii_whitespace());
    assert!(!v.last().unwrap().is_ascii_whitespace());
}

#[test]
fn kernel_failure_is_absent() {
    assert!(SystemInfo::kernel_version_from_output(false, b"6.1.0-generic\n").is_none());
}

#[test]
fn kernel_blank_output_is_empty() {
    let v = SystemInfo::kernel_version_from_output(true, b"\n").unwrap();
    assert!(v.is_empty());
}

#[test]
fn kernel_inner_whitespace_kept() {
    let v = SystemInfo::kernel_version_from_output(true, b" a b ").unwrap();
    assert_eq!(v, b"a b".to_vec());
}

#[test]
fn error_message_source_unavailable() {
    let e = SysInfoLinuxError::SourceUnavailable("permission denied".to_string());
    assert_eq!(e.message(), "Failed to read from file: permission denied");
}

#[test]
fn error_message_parse_failure() {
    let e = SysInfoLinuxError::ParseFailure("Missing uptime value".to_string());
    assert_eq!(e.message(), "Failed to parse data: Missing uptime value");
}
