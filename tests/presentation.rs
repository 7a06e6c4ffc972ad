use timer_ship::oplog::record_lines;
use timer_ship::timer_ship::TimerInfo;

fn info(ms: u64) -> TimerInfo {
    TimerInfo { id: 1, expires_at: 0, data: String::new(), time_left_ms: ms }
}

#[test]
fn time_left_in_words() {
    assert_eq!(info(0).format_time_left(), "Expired");
    assert_eq!(info(40).format_time_left(), "40ms");
    assert_eq!(info(3250).format_time_left(), "3s 250ms");
    assert_eq!(info(125_000).format_time_left(), "2m 5s");
    assert_eq!(info(5_400_000).format_time_left(), "1h 30m 0s");
    assert_eq!(info(90_061_001).format_time_left(), "25h 1m 1s");
    assert_eq!(info(u64::MAX).format_time_left(), "5124095576030h 25m 51s");
}

#[test]
fn expiry_relative_to_now() {
    assert_eq!(info(125_000).format_expires_at(), "in 2m 5s");
    assert_eq!(info(0).format_expires_at(), "in Expired");
}

#[test]
fn log_text_split_into_records() {
    assert_eq!(record_lines("a\nb\n"), vec!["a".to_string(), "b".to_string()]);
    assert_eq!(record_lines("a\n\n  \t\nb"), vec!["a".to_string(), "b".to_string()]);
    assert_eq!(record_lines("a\r\nb\r\n"), vec!["a\r".to_string(), "b\r".to_string()]);
    assert_eq!(record_lines(""), Vec::<String>::new());
    assert_eq!(record_lines("\n\n"), Vec::<String>::new());
    assert_eq!(record_lines("{\"x\":1}\n{\"trunc"), vec!["{\"x\":1}".to_string(), "{\"trunc".to_string()]);
}
