use earthquake_alert::monitor::{
    classify_message_type, duplicate_of, earthquake_key, origin_age_at, parse_origin_epoch_seconds,
    seconds_until_arrival_at, settings_from_config, should_skip_event, source_offset_seconds,
    AlertFlags, MessageAction, MonitorSettings, Reconnect, SeenEvents, SkipReason,
};

fn settings() -> MonitorSettings {
    settings_from_config(8, 1, 60, true, 2, true, false, 600, 30)
}

fn flags(report_num: u32) -> AlertFlags {
    AlertFlags { report_num, final_report: false, cancel: false, training: false }
}

const SECOND: u128 = 1_000_000_000;

#[test]
fn settings_apply_their_floors() {
    let s = settings_from_config(0, 0, 0, false, 0, false, false, -5, 0);
    assert_eq!(s.max_concurrent, 1);
    assert_eq!(s.reconnect_min_seconds, 1);
    assert_eq!(s.reconnect_max_seconds, 1);
    assert_eq!(s.update_min_report_gap, 1);
    assert_eq!(s.stale_origin_seconds, -5);
    assert_eq!(s.dedup_keep_seconds, 60);
    let t = settings_from_config(4, 5, 3, true, 3, true, true, 120, 10);
    assert_eq!(t.reconnect_min_seconds, 5);
    assert_eq!(t.reconnect_max_seconds, 5);
    assert_eq!(t.dedup_keep_seconds, 600);
    assert!(t.push_updates && t.ignore_training && t.ignore_cancel);
}

#[test]
fn reconnect_delay_doubles_up_to_the_limit_and_resets() {
    let s = settings_from_config(1, 2, 10, false, 1, false, false, 0, 1);
    let mut r = Reconnect::new(&s);
    assert_eq!(r.delay_seconds, 2);
    assert_eq!(r.after_session(&s, false), 2);
    assert_eq!(r.after_session(&s, false), 4);
    assert_eq!(r.after_session(&s, false), 8);
    assert_eq!(r.after_session(&s, false), 10);
    assert_eq!(r.after_session(&s, false), 10);
    assert_eq!(r.consecutive_errors, 5);
    assert_eq!(r.after_session(&s, true), 2);
    assert_eq!(r.consecutive_errors, 0);
    assert_eq!(r.delay_seconds, 4);
}

#[test]
fn message_types() {
    assert_eq!(classify_message_type("heartbeat"), MessageAction::Heartbeat);
    assert_eq!(classify_message_type("pong"), MessageAction::Pong);
    assert_eq!(classify_message_type("jma_eqlist"), MessageAction::ListIgnored);
    assert_eq!(classify_message_type("cenc_eqlist"), MessageAction::ListIgnored);
    assert_eq!(classify_message_type("jma_eew"), MessageAction::Alert);
    assert_eq!(classify_message_type("Heartbeat"), MessageAction::Alert);
}

#[test]
fn alert_keys() {
    assert_eq!(earthquake_key("cenc_eew", "2024001", "x"), "cenc_eew:2024001");
    assert_eq!(earthquake_key("jma_eew", "  ", "35.000:139.000:5.0:t"), "jma_eew:35.000:139.000:5.0:t");
    assert_eq!(earthquake_key("sc_eew", "", "f"), "sc_eew:f");
}

#[test]
fn origin_times_by_source() {
    assert_eq!(source_offset_seconds("jma_eew"), 9 * 3600);
    assert_eq!(source_offset_seconds("cenc_eew"), 8 * 3600);
    assert_eq!(
        parse_origin_epoch_seconds("jma_eew", "2026-07-07 10:30:00"),
        parse_origin_epoch_seconds("cenc_eew", "2026-07-07 09:30:00")
    );
    assert_eq!(parse_origin_epoch_seconds("cenc_eew", "1970-01-01 08:00:00"), Some(0));
    assert_eq!(parse_origin_epoch_seconds("cenc_eew", "garbage"), None);
}

#[test]
fn ages_and_arrival_times() {
    assert_eq!(origin_age_at(100, "cenc_eew", "1970-01-01 08:00:00"), Some(100));
    assert_eq!(origin_age_at(100, "cenc_eew", "nonsense"), None);
    assert_eq!(origin_age_at(i64::MIN, "cenc_eew", "1970-01-01 08:00:01"), None);
    assert_eq!(seconds_until_arrival_at(Some(10), "cenc_eew", "1970-01-01 08:00:00", 30), 20);
    assert_eq!(seconds_until_arrival_at(None, "cenc_eew", "1970-01-01 08:00:00", 30), 30);
    assert_eq!(seconds_until_arrival_at(Some(10), "cenc_eew", "bad", 30), 30);
}

#[test]
fn duplicates_and_updates() {
    let s = settings();
    assert!(duplicate_of(&s, &flags(3), 3));
    assert!(duplicate_of(&s, &flags(2), 3));
    // gap of one report is below the minimum gap of two
    assert!(duplicate_of(&s, &flags(4), 3));
    assert!(!duplicate_of(&s, &flags(5), 3));
    // a final report or a cancellation skips the gap
    let final_report = AlertFlags { report_num: 4, final_report: true, cancel: false, training: false };
    assert!(!duplicate_of(&s, &final_report, 3));
    let cancel = AlertFlags { report_num: 4, final_report: false, cancel: true, training: false };
    assert!(!duplicate_of(&s, &cancel, 3));
    // without update pushes only final reports and cancellations pass
    let quiet = settings_from_config(8, 1, 60, false, 2, true, false, 600, 30);
    assert!(duplicate_of(&quiet, &flags(9), 3));
    assert!(!duplicate_of(&quiet, &final_report, 3));
}

#[test]
fn skip_reasons_in_order() {
    let s = settings();
    let mut seen = SeenEvents::new();
    let training = AlertFlags { report_num: 1, final_report: false, cancel: false, training: true };
    assert_eq!(should_skip_event(&mut seen, &s, &training, "k", None, 0), Some(SkipReason::Training));
    let both = AlertFlags { report_num: 1, final_report: false, cancel: true, training: false };
    let cancels = settings_from_config(8, 1, 60, true, 2, true, true, 600, 30);
    assert_eq!(should_skip_event(&mut seen, &cancels, &both, "k", None, 0), Some(SkipReason::Cancel));
    assert_eq!(should_skip_event(&mut seen, &s, &flags(1), "k", Some(601), 0), Some(SkipReason::StaleOrigin));
    assert_eq!(should_skip_event(&mut seen, &s, &flags(1), "k", Some(600), 0), None);
    assert_eq!(should_skip_event(&mut seen, &s, &flags(1), "k", None, 0), None);
    // the stale check is off at 0
    let off = settings_from_config(8, 1, 60, true, 2, true, false, 0, 30);
    assert_eq!(should_skip_event(&mut seen, &off, &flags(1), "k", Some(1_000_000), 0), None);
}

#[test]
fn remembered_alerts_are_duplicates_until_forgotten() {
    let s = settings(); // remembers for 30 minutes
    let mut seen = SeenEvents::new();
    assert_eq!(should_skip_event(&mut seen, &s, &flags(1), "cenc_eew:1", None, 0), None);
    seen.mark("cenc_eew:1".to_string(), 1, 0);
    assert_eq!(seen.previous_report("cenc_eew:1"), Some(1));
    assert_eq!(seen.len(), 1);
    assert_eq!(
        should_skip_event(&mut seen, &s, &flags(1), "cenc_eew:1", None, 10 * SECOND),
        Some(SkipReason::Duplicate)
    );
    assert_eq!(should_skip_event(&mut seen, &s, &flags(3), "cenc_eew:1", None, 10 * SECOND), None);
    // another alert is not affected
    assert_eq!(should_skip_event(&mut seen, &s, &flags(1), "cenc_eew:2", None, 10 * SECOND), None);
    // exactly at the limit it is still remembered; a moment later it is gone
    assert_eq!(
        should_skip_event(&mut seen, &s, &flags(1), "cenc_eew:1", None, 1800 * SECOND),
        Some(SkipReason::Duplicate)
    );
    assert_eq!(should_skip_event(&mut seen, &s, &flags(1), "cenc_eew:1", None, 1800 * SECOND + 1), None);
    assert_eq!(seen.len(), 0);
}

#[test]
fn marking_again_replaces_the_report() {
    let mut seen = SeenEvents::new();
    seen.mark("a".to_string(), 1, 5);
    seen.mark("b".to_string(), 2, 6);
    seen.mark("a".to_string(), 4, 7);
    assert_eq!(seen.len(), 2);
    assert_eq!(seen.previous_report("a"), Some(4));
    assert_eq!(seen.previous_report("b"), Some(2));
    assert_eq!(seen.previous_report("c"), None);
    seen.prune(7, 0);
    assert_eq!(seen.previous_report("a"), Some(4));
    assert_eq!(seen.previous_report("b"), None);
}
