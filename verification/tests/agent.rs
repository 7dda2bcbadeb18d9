use iris::agent::{
    agent_id_for, generate_agent_id, hostname_or_unknown, increment_errors,
    increment_metrics_sent, parse_meminfo, parse_meminfo_kib, parse_u64, Agent, AgentStats,
    MemoryInfo, RECONNECT_DELAY_SECS,
};
use iris::clock::{
    current_timestamp_ms, current_timestamp_secs, nanos_or_zero, now_nanos, timestamp_ms_of,
    timestamp_secs_of,
};

#[test]
fn counters_count_and_start_again_after_the_greatest_value() {
    let mut stats = AgentStats::new();
    assert_eq!(stats, AgentStats { metrics_sent: 0, errors_count: 0 });
    increment_metrics_sent(&mut stats);
    increment_metrics_sent(&mut stats);
    increment_errors(&mut stats);
    assert_eq!(stats, AgentStats { metrics_sent: 2, errors_count: 1 });
    let mut full = AgentStats { metrics_sent: u64::MAX, errors_count: u64::MAX };
    increment_metrics_sent(&mut full);
    assert_eq!(full, AgentStats { metrics_sent: 0, errors_count: u64::MAX });
    increment_errors(&mut full);
    assert_eq!(full, AgentStats { metrics_sent: 0, errors_count: 0 });
}

#[test]
fn agent_id_is_agent_and_the_host_name() {
    assert_eq!(agent_id_for("web-1"), "agent-web-1");
    assert_eq!(agent_id_for(""), "agent-");
    assert_eq!(hostname_or_unknown(None), "unknown");
    assert_eq!(hostname_or_unknown(Some("db".to_string())), "db");
    let generated = generate_agent_id();
    assert!(generated.starts_with("agent-"));
    assert!(generated.len() > "agent-".len());
}

#[test]
fn agent_takes_the_host_name_given() {
    let agent = Agent::new("http://127.0.0.1:50051".to_string(), 10, Some("override".to_string()));
    assert_eq!(agent.hostname, "override");
    assert_eq!(agent.server_addr, "http://127.0.0.1:50051");
    assert_eq!(agent.interval_secs, 10);
    assert_eq!(agent.agent_id, generate_agent_id());
    let plain = Agent::new("addr".to_string(), 1, None);
    assert!(!plain.hostname.is_empty());
    let sample = agent.report(77, Some(vec![1, 2]));
    assert_eq!(sample.agent_id, agent.agent_id);
    assert_eq!(sample.hostname, "override");
    assert_eq!(sample.timestamp, 77);
    assert_eq!(sample.system, Some(vec![1, 2]));
}

#[test]
fn agent_waits_after_a_failure_only() {
    let mut stats = AgentStats::new();
    assert_eq!(Agent::after_stream(&mut stats, false), 0);
    assert_eq!(stats.errors_count, 0);
    assert_eq!(Agent::after_stream(&mut stats, true), RECONNECT_DELAY_SECS);
    assert_eq!(Agent::after_stream(&mut stats, true), 3);
    assert_eq!(stats, AgentStats { metrics_sent: 0, errors_count: 2 });
}

#[test]
fn memory_line_gives_its_second_word_in_bytes() {
    assert_eq!(parse_meminfo_kib("MemTotal:       16384 kB"), Some(16384 * 1024));
    assert_eq!(parse_meminfo_kib("MemTotal: 1"), Some(1024));
    assert_eq!(parse_meminfo_kib("  a\t 7 \r"), Some(7168));
    assert_eq!(parse_meminfo_kib("a +5"), Some(5120));
    assert_eq!(parse_meminfo_kib("a\u{a0}3"), Some(3072));
    assert_eq!(parse_meminfo_kib("a\u{3000}3\u{2003}x"), Some(3072));
    assert_eq!(parse_meminfo_kib("MemTotal:"), None);
    assert_eq!(parse_meminfo_kib(""), None);
    assert_eq!(parse_meminfo_kib("   "), None);
    assert_eq!(parse_meminfo_kib("a b"), None);
    assert_eq!(parse_meminfo_kib("a -5"), None);
    assert_eq!(parse_meminfo_kib("a 5kB"), None);
    assert_eq!(parse_meminfo_kib("a 18446744073709551616"), None);
    assert_eq!(parse_meminfo_kib("a 18446744073709551615"), Some(u64::MAX));
    assert_eq!(parse_meminfo_kib("a 18014398509481984"), Some(u64::MAX));
    assert_eq!(parse_meminfo_kib("a 18014398509481983"), Some(18014398509481983 * 1024));
}

#[test]
fn memory_line_agrees_with_the_standard_functions() {
    let lines = [
        "MemTotal:       16384 kB",
        "x\u{85}12",
        "x\u{1680}12",
        "x\u{2028}12\u{2029}",
        "x\u{202f}12",
        "x\u{205f}12",
        "x\u{200b}12",
        "é 12",
        "x\u{feff}12 3",
        "\u{2000}\u{200a}a\u{2009}44",
        "one",
        "one 0007",
    ];
    for line in lines {
        let expected = line
            .split_whitespace()
            .nth(1)
            .and_then(|word| word.parse::<u64>().ok())
            .map(|kib| kib.saturating_mul(1024));
        assert_eq!(parse_meminfo_kib(line), expected);
    }
}

#[test]
fn unsigned_numbers_agree_with_the_standard_parser() {
    let cases = [
        "", "+", "-", "0", "+0", "-0", "007", "12", "+12", "-12", "1x", " 1",
        "18446744073709551615", "18446744073709551616", "99999999999999999999999",
    ];
    for text in cases {
        assert_eq!(parse_u64(text.as_bytes()), text.parse::<u64>().ok());
    }
}

#[test]
fn memory_table_is_read_for_its_four_numbers() {
    let table = "MemTotal:       16000 kB\nMemFree:         1000 kB\nMemAvailable:    6000 kB\n\
                 Buffers:          100 kB\nSwapTotal:       2000 kB\nSwapFree:        1500 kB\n";
    assert_eq!(
        parse_meminfo(table),
        Some(MemoryInfo {
            total: 16000 * 1024,
            used: 10000 * 1024,
            available: 6000 * 1024,
            swap_total: 2000 * 1024,
            swap_used: 500 * 1024,
        })
    );
}

#[test]
fn memory_table_without_a_total_gives_nothing() {
    assert_eq!(parse_meminfo(""), None);
    assert_eq!(parse_meminfo("MemAvailable: 5 kB\n"), None);
    assert_eq!(parse_meminfo("MemTotal: 0 kB\n"), None);
    assert_eq!(parse_meminfo("MemTotal:\nMemAvailable: 5 kB"), None);
    assert_eq!(parse_meminfo("MemTotal: 5 kB\nSwapFree: x kB"), None);
}

#[test]
fn memory_table_takes_the_last_line_of_a_label_and_never_goes_below_zero() {
    let table = "MemTotal: 1 kB\r\nMemTotal: 4 kB\r\nMemAvailable: 9 kB\nSwapFree: 3 kB";
    assert_eq!(
        parse_meminfo(table),
        Some(MemoryInfo {
            total: 4096,
            used: 0,
            available: 9216,
            swap_total: 0,
            swap_used: 0,
        })
    );
    assert_eq!(
        parse_meminfo(" MemTotal: 4 kB\nMemTotal: 2 kB\n\n"),
        Some(MemoryInfo { total: 2048, used: 2048, available: 0, swap_total: 0, swap_used: 0 })
    );
}

#[test]
fn clock_readings_become_milliseconds_and_seconds() {
    assert_eq!(timestamp_ms_of(0), 0);
    assert_eq!(timestamp_ms_of(999_999), 0);
    assert_eq!(timestamp_ms_of(1_000_000), 1);
    assert_eq!(timestamp_ms_of(1_700_000_000_123_456_789), 1_700_000_000_123);
    assert_eq!(timestamp_secs_of(1_700_000_000_123_456_789), 1_700_000_000);
    assert_eq!(timestamp_secs_of(999_999_999), 0);
    assert_eq!(timestamp_ms_of(u128::MAX), (u128::MAX / 1_000_000) as i64);
    assert_eq!(timestamp_secs_of(u128::MAX), (u128::MAX / 1_000_000_000) as i64);
    let edge: u128 = (i64::MAX as u128 + 1) * 1_000_000;
    assert_eq!(timestamp_ms_of(edge), i64::MIN);
    assert_eq!(timestamp_ms_of(edge - 1), i64::MAX);
}

#[test]
fn wall_clock_reads_the_present() {
    let nanos = now_nanos();
    let millis = current_timestamp_ms();
    let secs = current_timestamp_secs();
    assert!(nanos > 1_600_000_000_000_000_000);
    assert!(millis > 1_600_000_000_000);
    assert!(secs > 1_600_000_000);
    assert!((millis / 1000 - secs).abs() <= 1);
    assert!(current_timestamp_ms() >= millis);
}

#[test]
fn reading_before_the_epoch_counts_as_zero() {
    assert_eq!(nanos_or_zero(None), 0);
    assert_eq!(nanos_or_zero(Some(0)), 0);
    assert_eq!(nanos_or_zero(Some(1_700_000_000_123_456_789)), 1_700_000_000_123_456_789);
    assert_eq!(nanos_or_zero(Some(u128::MAX)), u128::MAX);
}
