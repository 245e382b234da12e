use askai_limiter::config::{parse_config, Config};

#[test]
fn default_is_200_per_day() {
    let c = Config::default();
    assert_eq!(c.limit, 200);
    assert_eq!(c.window, Some(86400));
}

#[test]
fn parses_limit_and_window() {
    let c = parse_config(b"limit=3,window=60", Config::default());
    assert_eq!(c.limit, 3);
    assert_eq!(c.window, Some(60));
}

#[test]
fn parses_limit_alone_keeping_default_window() {
    let c = parse_config(b"limit=1", Config::default());
    assert_eq!(c.limit, 1);
    assert_eq!(c.window, Some(86400));
}

#[test]
fn malformed_limit_keeps_default() {
    let c = parse_config(b"limit=abc", Config::default());
    assert_eq!(c.limit, 200);
    assert_eq!(c.window, Some(86400));
}

#[test]
fn empty_text_leaves_base_unchanged() {
    let c = parse_config(b"", Config::default());
    assert_eq!(c.limit, 200);
    assert_eq!(c.window, Some(86400));
}

#[test]
fn period_is_a_synonym_of_window() {
    let c = parse_config(b"period=30", Config::default());
    assert_eq!(c.window, Some(30));
}

#[test]
fn whitespace_around_keys_and_values_is_trimmed() {
    let c = parse_config(b"  limit = 5 ,\twindow = 9 ", Config::default());
    assert_eq!(c.limit, 5);
    assert_eq!(c.window, Some(9));
}

#[test]
fn zero_window_is_ignored() {
    let c = parse_config(b"window=0", Config::default());
    assert_eq!(c.window, Some(86400));
}

#[test]
fn later_entry_overwrites_earlier() {
    let c = parse_config(b"limit=1,limit=2", Config::default());
    assert_eq!(c.limit, 2);
    let c2 = parse_config(b"window=5,period=7", Config::default());
    assert_eq!(c2.window, Some(7));
}

#[test]
fn unrecognized_keys_are_ignored() {
    let c = parse_config(b"burst=9,limit=4,mode=strict", Config::default());
    assert_eq!(c.limit, 4);
    assert_eq!(c.window, Some(86400));
}

#[test]
fn entry_without_equals_is_ignored() {
    let c = parse_config(b"limit", Config::default());
    assert_eq!(c.limit, 200);
    let c2 = parse_config(b"limit,window=60", Config::default());
    assert_eq!(c2.limit, 200);
    assert_eq!(c2.window, Some(60));
}

#[test]
fn overflowing_limit_is_ignored() {
    let c = parse_config(b"limit=4294967296", Config::default());
    assert_eq!(c.limit, 200);
}

#[test]
fn negative_values_are_ignored() {
    let c = parse_config(b"limit=-1,window=-60", Config::default());
    assert_eq!(c.limit, 200);
    assert_eq!(c.window, Some(86400));
}
