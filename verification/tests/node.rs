use sailfish::decimal::{parse_decimal, to_decimal, to_signed_decimal};
use sailfish::node::{
    choose_role, flush_file_name, flush_interval_ms, log_level, metrics_reply, worker_id,
    LogLevel, MetricsReply, Role, RoleError,
};
use sailfish::primary::telemetry::{
    emit_event, event_header, fast_state_header, fast_state_row, init_event_logger, EventSampler,
    FastState, Sample,
};

#[test]
fn verbosity_sets_the_level() {
    let names: Vec<&str> = (0..6).map(|n| log_level(n).name()).collect();
    assert_eq!(names, vec!["error", "warn", "info", "debug", "trace", "trace"]);
    assert_eq!(log_level(u64::MAX), LogLevel::Trace);
}

#[test]
fn the_flush_interval_has_a_default() {
    assert_eq!(flush_interval_ms(None), 5_000);
    assert_eq!(flush_interval_ms(Some("250")), 250);
    assert_eq!(flush_interval_ms(Some("+250")), 250);
    assert_eq!(flush_interval_ms(Some("0")), 0);
    for bad in ["", "+", "-1", "1 ", "1_000", "++1", "ten", "18446744073709551616"] {
        assert_eq!(flush_interval_ms(Some(bad)), 5_000);
    }
    assert_eq!(flush_interval_ms(Some("18446744073709551615")), u64::MAX);
}

#[test]
fn worker_ids_are_small_numbers() {
    assert_eq!(worker_id("3"), Some(3));
    assert_eq!(worker_id("4294967295"), Some(u32::MAX));
    assert_eq!(worker_id("4294967296"), None);
    assert_eq!(worker_id("-3"), None);
}

#[test]
fn parsing_agrees_with_the_standard_library() {
    for s in ["0", "00", "+0", "7", "+", "", "a", "12a", "\u{0661}", " 1", "99999999999999999999999"] {
        assert_eq!(parse_decimal(s, u64::MAX), s.parse::<u64>().ok());
        assert_eq!(parse_decimal(s, u32::MAX as u64).map(|n| n as u32), s.parse::<u32>().ok());
    }
}

#[test]
fn a_node_runs_a_primary_or_a_worker() {
    assert_eq!(choose_role("primary", None), Ok(Role::Primary));
    assert_eq!(choose_role("worker", Some("2")), Ok(Role::Worker(2)));
    assert_eq!(choose_role("worker", Some("two")), Err(RoleError::BadWorkerId));
    assert_eq!(choose_role("worker", None), Err(RoleError::UnknownRole));
    assert_eq!(choose_role("client", Some("2")), Err(RoleError::UnknownRole));
}

#[test]
fn only_the_metrics_are_served() {
    assert_eq!(metrics_reply(true, "/metrics"), MetricsReply::Metrics);
    assert_eq!(metrics_reply(false, "/metrics"), MetricsReply::NotFound);
    assert_eq!(metrics_reply(true, "/metrics/"), MetricsReply::NotFound);
    assert_eq!(metrics_reply(true, "/"), MetricsReply::NotFound);
}

#[test]
fn metrics_files_carry_their_time() {
    assert_eq!(flush_file_name(Some("node"), 1_700_000_000_123, Some("txt")), "node-1700000000123.txt");
    assert_eq!(flush_file_name(None, 0, None), "metrics-0.prom");
}

#[test]
fn numbers_are_written_in_decimal() {
    assert_eq!(to_decimal(0), "0");
    assert_eq!(to_decimal(1_234_567_890), "1234567890");
    assert_eq!(to_decimal(u128::MAX), u128::MAX.to_string());
    assert_eq!(to_signed_decimal(-1), "-1");
    assert_eq!(to_signed_decimal(i64::MIN), i64::MIN.to_string());
    assert_eq!(to_signed_decimal(i64::MAX), i64::MAX.to_string());
    assert_eq!(parse_decimal(&to_decimal(98_765), u64::MAX), Some(98_765));
}

#[test]
fn event_rows() {
    assert_eq!(event_header(), "ts_ms,role,node,event,value\n");
    let state = Some(init_event_logger("primary", "n3"));
    assert_eq!(
        emit_event(&state, 42, "view_change", "7"),
        Some("42,primary,n3,view_change,7\n".to_string())
    );
    assert_eq!(emit_event(&None, 42, "view_change", "7"), None);
}

#[test]
fn state_rows() {
    assert_eq!(
        fast_state_header(),
        "ts_ms,role,node,consensus_current_slot,consensus_oldest_blocked_slot,consensus_current_view,dissemination_inflight_holes,dissemination_hole_dependents\n"
    );
    let s = FastState {
        current_slot: 12,
        oldest_blocked_slot: -1,
        current_view: 3,
        inflight_holes: 0,
        hole_dependents: 45,
    };
    assert_eq!(fast_state_row(1_000, "n3", s), "1000,primary,n3,12,-1,3,0,45\n");
}

fn sample() -> Sample {
    Sample {
        oldest_blocked_slot: 0,
        current_view: 1,
        fast_path_commits: 10,
        slow_path_commits: 20,
        view_changes: 30,
        leader_changes: 40,
        leader_timeouts: 50,
    }
}

fn events(s: &mut EventSampler, sample: Sample) -> Vec<(&'static str, String)> {
    s.on_sample(sample).into_iter().map(|e| (e.name, e.value)).collect()
}

#[test]
fn nothing_happens_while_nothing_changes() {
    let mut s = EventSampler::new(sample());
    assert_eq!(events(&mut s, sample()), vec![]);
}

#[test]
fn a_blocked_slot_starts_and_ends_a_recovery() {
    let mut s = EventSampler::new(sample());
    let blocked = Sample { oldest_blocked_slot: 6, ..sample() };
    assert_eq!(
        events(&mut s, blocked),
        vec![("blocked_slot_enter", "6".to_string()), ("recovery_start", "6".to_string())]
    );
    let later = Sample { oldest_blocked_slot: 8, ..sample() };
    assert_eq!(events(&mut s, later), vec![]);
    assert_eq!(
        events(&mut s, sample()),
        vec![("blocked_slot_exit", "8".to_string()), ("recovery_end", "0".to_string())]
    );
    let negative = Sample { oldest_blocked_slot: -1, ..sample() };
    assert_eq!(events(&mut s, negative), vec![]);
}

#[test]
fn rises_are_reported_in_order() {
    let mut s = EventSampler::new(sample());
    let next = Sample {
        oldest_blocked_slot: 0,
        current_view: 0,
        fast_path_commits: 11,
        slow_path_commits: 22,
        view_changes: 33,
        leader_changes: 44,
        leader_timeouts: 55,
    };
    assert_eq!(
        events(&mut s, next),
        vec![
            ("view_change", "0".to_string()),
            ("fast_path_commit", "1".to_string()),
            ("slow_path_commit", "2".to_string()),
            ("view_change_total", "3".to_string()),
            ("leader_change", "4".to_string()),
            ("leader_timeout", "5".to_string()),
        ]
    );
    assert_eq!(s.last, next);
    // A counter that falls is not reported.
    assert_eq!(events(&mut s, Sample { fast_path_commits: 5, ..next }), vec![]);
}
