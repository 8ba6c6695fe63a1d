use deadair::api::{parse_i64, playback_limit, resolve_window, resolve_window_at, window_fits, EventsParams, WindowError};

fn params(last: Option<&str>, since: Option<&str>, until: Option<&str>) -> EventsParams {
    EventsParams {
        format: None,
        since: since.map(|s| s.to_string()),
        until: until.map(|s| s.to_string()),
        last: last.map(|s| s.to_string()),
        limit: None,
    }
}

#[test]
fn last_window() {
    let now = 1_000_000;
    assert_eq!(resolve_window_at(&params(Some("7d"), None, None), now), Ok((now - 7 * 86400, now)));
    assert_eq!(resolve_window_at(&params(Some("3h"), None, None), now), Ok((now - 3 * 3600, now)));
    assert_eq!(resolve_window_at(&params(Some("15m"), None, None), now), Ok((now - 900, now)));
    assert_eq!(resolve_window_at(&params(Some("+2m"), None, None), now), Ok((now - 120, now)));
}

#[test]
fn last_window_errors() {
    let now = 1_000_000;
    assert_eq!(resolve_window_at(&params(Some("7w"), None, None), now), Err(WindowError::UnknownUnit));
    assert_eq!(resolve_window_at(&params(Some("xd"), None, None), now), Err(WindowError::InvalidNumber));
    assert_eq!(resolve_window_at(&params(Some("d"), None, None), now), Err(WindowError::InvalidNumber));
}

#[test]
fn since_until_window() {
    let now = 2_000_000_000;
    assert_eq!(
        resolve_window_at(&params(None, Some("2026-03-30"), Some("2026-04-13")), now),
        Ok((1_774_828_800, 1_776_124_799))
    );
    assert_eq!(resolve_window_at(&params(None, Some("1970-01-02"), None), now), Ok((86400, now)));
    assert_eq!(
        resolve_window_at(&params(None, Some("2026-13-01"), None), now),
        Err(WindowError::InvalidDate)
    );
    assert_eq!(
        resolve_window_at(&params(None, Some("2026-03-30"), Some("soon")), now),
        Err(WindowError::InvalidDate)
    );
}

#[test]
fn default_window_is_one_day() {
    assert_eq!(resolve_window_at(&params(None, None, None), 500_000), Ok((500_000 - 86400, 500_000)));
    let w = resolve_window(&params(None, None, None)).unwrap().unwrap();
    assert_eq!(w.1 - w.0, 86400);
}

#[test]
fn window_bounds_are_checked() {
    assert!(!window_fits(&params(Some(""), None, None), 0));
    assert!(!window_fits(&params(Some("5é"), None, None), 0));
    assert!(!window_fits(&params(Some("999999999999999999d"), None, None), 0));
    assert!(window_fits(&params(Some("5x"), None, None), 0));
    assert!(!window_fits(&params(None, None, None), i64::MIN));
    assert!(window_fits(&params(None, Some("x"), None), i64::MIN));
}

#[test]
fn integers_parse_as_std_does() {
    for s in ["0", "-0", "+17", "-9223372036854775808", "9223372036854775807", "9223372036854775808", "", "-", "+", "1 ", "12a", "007"] {
        assert_eq!(parse_i64(s), s.parse::<i64>().ok(), "{}", s);
    }
}

#[test]
fn playback_limits() {
    assert_eq!(playback_limit(Some(0)), -1);
    assert_eq!(playback_limit(Some(25)), 25);
    assert_eq!(playback_limit(None), 1000);
}

#[test]
fn default_and_ordinary_windows_resolve_now() {
    let (from, to) = resolve_window(&params(None, None, None)).unwrap().unwrap();
    assert_eq!(to - from, 86_400);
    assert!(from >= 0 - 86_400);
    let (from, to) = resolve_window(&params(Some("7d"), None, None)).unwrap().unwrap();
    assert_eq!(to - from, 7 * 86_400);
}
