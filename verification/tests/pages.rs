use deadair::models::{Classification, Stats, TrackCount};
use deadair::pages::{dashboard_page, landing_page, ListenGroup};

#[test]
fn landing_page_links_to_login() {
    let p = landing_page();
    assert!(p.starts_with("<!DOCTYPE html>\n<html><head>"));
    assert!(p.contains("<style>body{font-family:'SF Mono','Menlo','Monaco','Courier New',monospace;"));
    assert!(p.contains("<p><a href=\"/auth/login\">login with spotify</a></p>"));
}

fn class(name: &str, listened: i64, skipped: Option<bool>) -> Classification {
    Classification {
        id: 1,
        user_id: "u1".into(),
        track_id: "t".into(),
        track_name: name.into(),
        artist_name: "Art".into(),
        album_name: "Al".into(),
        started_at: 0,
        ended_at: None,
        duration_ms: 239_296,
        listened_ms: listened,
        skipped,
        context_uri: None,
    }
}

#[test]
fn dashboard_renders_tables() {
    let stats = Stats {
        total_listens: 3,
        completed: 1,
        skipped: 2,
        top_skipped: vec![TrackCount { track_name: "Skip Me".into(), artist_name: "A".into(), count: 2 }],
        top_artists_by_skip_rate: vec![],
    };
    let groups = vec![ListenGroup {
        track_name: "G".into(),
        artist_name: "GA".into(),
        listened_ms: 61_500,
        duration_ms: -1_000,
        polls: 7,
    }];
    let classes = vec![class("First", 120_000, Some(true)), class("Second", 5_000, None)];
    let p = dashboard_page("Alice", &stats, "66.7", &groups, &classes);
    assert!(p.contains("<p>Alice</p>\n<hr>\n<p>3 listens &middot; 2 skipped (66.7%) &middot; 1 played</p>\n<h2>top skipped</h2>"));
    assert!(p.contains("<tr><td>Skip Me</td><td>A</td><td>2</td></tr></table>"));
    assert!(p.contains("<tr><td>G</td><td>GA</td><td>1m 1s</td><td>0m -1s</td><td>7</td></tr></table>"));
    let second = p.find("<td>Second</td>").unwrap();
    let first = p.find("<td>First</td>").unwrap();
    assert!(second < first);
    assert!(p.contains("<tr><td>First</td><td>Art</td><td>2m 0s</td><td>3m 59s</td><td>skip</td></tr>"));
    assert!(p.contains("<tr><td>Second</td><td>Art</td><td>0m 5s</td><td>3m 59s</td><td>?</td></tr>"));
    assert!(p.ends_with("<p><a href=\"/auth/logout\">logout</a></p>\n</body></html>"));
}

#[test]
fn dashboard_without_skips_has_no_top_table() {
    let stats = Stats { total_listens: 0, completed: 0, skipped: 0, top_skipped: vec![], top_artists_by_skip_rate: vec![] };
    let p = dashboard_page("u", &stats, "0.0", &[], &[]);
    assert!(!p.contains("top skipped"));
    assert!(p.contains(" played</p>\n\n<div class=\"tabs\">"));
}
