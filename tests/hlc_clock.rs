use oplog_sync::{format_hlc, parse_hlc, should_overwrite, SyncEngine, SyncError};

fn ready_engine() -> SyncEngine {
    let mut e = SyncEngine::new();
    e.init_schema().unwrap();
    e
}

#[test]
fn hlc_under_clock_regression() {
    let mut e = ready_engine();
    assert_eq!(e.next_hlc_at("A", 1000).unwrap(), "1000-0-A");
    assert_eq!(e.next_hlc_at("A", 999).unwrap(), "1000-1-A");
    assert_eq!(e.next_hlc_at("B", 1000).unwrap(), "1000-2-B");
    assert_eq!(e.next_hlc_at("A", 1001).unwrap(), "1001-0-A");
}

#[test]
fn hlc_tokens_strictly_increase() {
    let mut e = ready_engine();
    let nows = [5_i64, 5, 3, 9, 9, 9, 2, 10];
    let mut prev: Option<String> = None;
    for (i, now) in nows.iter().enumerate() {
        let origin = if i % 2 == 0 { "zeta" } else { "alpha" };
        let tok = e.next_hlc_at(origin, *now).unwrap();
        if let Some(p) = prev {
            assert!(should_overwrite(&tok, &p), "{} should be after {}", tok, p);
            assert!(!should_overwrite(&p, &tok));
        }
        prev = Some(tok);
    }
}

#[test]
fn hlc_regression_keeps_ms_and_bumps_counter() {
    let mut e = ready_engine();
    let t1 = e.next_hlc_at("o", 500).unwrap();
    let t2 = e.next_hlc_at("o", 100).unwrap();
    let p1 = parse_hlc(&t1);
    let p2 = parse_hlc(&t2);
    assert_eq!(p2.0, p1.0);
    assert_eq!(p2.1, p1.1 + 1);
}

#[test]
fn hlc_negative_wall_clock_keeps_zero_ms() {
    let mut e = ready_engine();
    assert_eq!(e.next_hlc_at("A", -5).unwrap(), "0-1-A");
}

#[test]
fn hlc_from_wall_clock() {
    let mut e = ready_engine();
    let t1 = e.next_hlc("dev").unwrap();
    let t2 = e.next_hlc("dev").unwrap();
    let (ms, _, origin) = parse_hlc(&t1);
    assert!(ms > 1_600_000_000_000, "wall clock reads {}", ms);
    assert_eq!(origin, "dev");
    assert!(should_overwrite(&t2, &t1));
}

#[test]
fn hlc_needs_schema() {
    let mut e = SyncEngine::new();
    assert!(matches!(e.next_hlc_at("A", 1), Err(SyncError::Store(_))));
}

#[test]
fn parse_hlc_fields() {
    assert_eq!(parse_hlc("1000-0-A"), (1000, 0, "A".to_string()));
    assert_eq!(parse_hlc("5-2-a-b-c"), (5, 2, "a-b-c".to_string()));
    assert_eq!(parse_hlc("12"), (12, 0, String::new()));
    assert_eq!(parse_hlc("12-7"), (12, 7, String::new()));
    assert_eq!(parse_hlc(""), (0, 0, String::new()));
    assert_eq!(parse_hlc("x-y-z"), (0, 0, "z".to_string()));
    assert_eq!(parse_hlc("-5-1-A"), (0, 5, "1-A".to_string()));
    assert_eq!(parse_hlc("+7-+1-o"), (7, 1, "o".to_string()));
    assert_eq!(parse_hlc("1--o"), (1, 0, "o".to_string()));
}

#[test]
fn parse_hlc_out_of_range_reads_zero() {
    assert_eq!(
        parse_hlc("170141183460469231731687303715884105727-1-A"),
        (i128::MAX, 1, "A".to_string())
    );
    assert_eq!(parse_hlc("170141183460469231731687303715884105728-1-A"), (0, 1, "A".to_string()));
    assert_eq!(parse_hlc("1-9223372036854775807-A"), (1, i64::MAX, "A".to_string()));
    assert_eq!(parse_hlc("1-9223372036854775808-A"), (1, 0, "A".to_string()));
    assert_eq!(parse_hlc("99999999999999999999999999999999999999999-1-A"), (0, 1, "A".to_string()));
}

#[test]
fn should_overwrite_orders_triples() {
    assert!(!should_overwrite("1000-0-A", "1001-0-A"));
    assert!(should_overwrite("1001-0-B", "1001-0-A"));
    assert!(!should_overwrite("1001-0-A", "1001-0-A"));
    assert!(should_overwrite("1001-2-A", "1001-1-Z"));
    assert!(should_overwrite("1001-0-AB", "1001-0-A"));
    assert!(!should_overwrite("1001-0-A", "1001-0-AB"));
    assert!(should_overwrite("2-0-A", "10-0-A") == false);
}

#[test]
fn format_hlc_text() {
    assert_eq!(format_hlc(0, 0, ""), "0-0-");
    assert_eq!(format_hlc(1700000000123, 42, "dev-1"), "1700000000123-42-dev-1");
    assert_eq!(format_hlc(i64::MAX, i64::MAX, "o"), "9223372036854775807-9223372036854775807-o");
}
