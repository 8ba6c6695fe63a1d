use deadair::store::{
    classification_exists_near, classifications_in_range, close_classification, create_tables,
    get_all_users, get_display_name, get_stats, insert_event, open_classification, update_tokens,
    upsert_user, upsert_user_at, Database, DbError,
};

fn test_conn() -> Database {
    create_tables()
}

#[test]
fn upsert_and_get_users() {
    let mut conn = test_conn();
    upsert_user(&mut conn, "user1", "Alice", r#"{"access_token":"x"}"#);
    let users = get_all_users(&conn);
    assert_eq!(users.len(), 1);
    assert_eq!(users[0].0, "user1");
    assert_eq!(users[0].1, "Alice");

    upsert_user(&mut conn, "user1", "Alice Updated", r#"{"access_token":"y"}"#);
    let users = get_all_users(&conn);
    assert_eq!(users.len(), 1);
    assert_eq!(users[0].1, "Alice Updated");
}

#[test]
fn classification_lifecycle() {
    let mut conn = test_conn();
    upsert_user(&mut conn, "u1", "Test", "{}");

    let id = open_classification(&mut conn, "u1", "t1", "Song", "Artist", "Album", 1000, 240_000, None).unwrap();
    assert!(id > 0);

    close_classification(&mut conn, id, 1240, 200_000, true);

    let classes = classifications_in_range(&conn, "u1", 0, 2000);
    assert_eq!(classes.len(), 1);
    assert_eq!(classes[0].skipped, Some(true));
    assert_eq!(classes[0].listened_ms, 200_000);
    assert_eq!(classes[0].ended_at, Some(1240));
}

#[test]
fn classification_exists_near_check() {
    let mut conn = test_conn();
    upsert_user(&mut conn, "u1", "Test", "{}");
    open_classification(&mut conn, "u1", "t1", "Song", "Artist", "Album", 1000, 240_000, None).unwrap();

    assert!(classification_exists_near(&conn, "u1", "t1", 1015, 30));
    assert!(!classification_exists_near(&conn, "u1", "t1", 2000, 30));
    assert!(!classification_exists_near(&conn, "u1", "t2", 1000, 30));
}

#[test]
fn stats_computation() {
    let mut conn = test_conn();
    upsert_user(&mut conn, "u1", "Test", "{}");

    let id1 = open_classification(&mut conn, "u1", "t1", "Skip Me", "A", "Al", 100, 240_000, None).unwrap();
    close_classification(&mut conn, id1, 200, 60_000, true);

    let id2 = open_classification(&mut conn, "u1", "t2", "Play Me", "A", "Al", 300, 200_000, None).unwrap();
    close_classification(&mut conn, id2, 500, 195_000, false);

    let id3 = open_classification(&mut conn, "u1", "t1", "Skip Me", "A", "Al", 600, 240_000, None).unwrap();
    close_classification(&mut conn, id3, 700, 50_000, true);

    let stats = get_stats(&conn, "u1");
    assert_eq!(stats.total_listens, 3);
    assert_eq!(stats.skipped, 2);
    assert_eq!(stats.completed, 1);
    assert_eq!(stats.top_skipped.len(), 1);
    assert_eq!(stats.top_skipped[0].count, 2);
}

#[test]
fn upsert_keeps_first_creation_time() {
    let mut conn = test_conn();
    upsert_user_at(&mut conn, "u1", "First", "{}", 100);
    upsert_user_at(&mut conn, "u1", "Second", "{\"a\":1}", 200);
    upsert_user_at(&mut conn, "u2", "Other", "{}", 300);
    let users = conn.users();
    assert_eq!(users.len(), 2);
    assert_eq!(users[0].display_name, "Second");
    assert_eq!(users[0].tokens, "{\"a\":1}");
    assert_eq!(users[0].created_at, 100);
    assert_eq!(users[1].created_at, 300);
}

#[test]
fn tokens_update_and_display_name() {
    let mut conn = test_conn();
    upsert_user_at(&mut conn, "u1", "Alice", "{}", 1);
    update_tokens(&mut conn, "u1", "new-tokens");
    update_tokens(&mut conn, "nobody", "ignored");
    let users = get_all_users(&conn);
    assert_eq!(users.len(), 1);
    assert_eq!(users[0].2, "new-tokens");
    assert_eq!(get_display_name(&conn, "u1"), Some("Alice".to_string()));
    assert_eq!(get_display_name(&conn, "u2"), None);
}

#[test]
fn ids_count_up_from_one() {
    let mut conn = test_conn();
    let a = open_classification(&mut conn, "u1", "t1", "S", "A", "Al", 10, 1000, Some("ctx")).unwrap();
    let b = open_classification(&mut conn, "u1", "t2", "S", "A", "Al", 20, 1000, None).unwrap();
    assert_eq!((a, b), (1, 2));
    let rows = conn.classification_rows();
    assert_eq!(rows[0].context_uri, Some("ctx".to_string()));
    assert_eq!(rows[0].ended_at, None);
    assert_eq!(rows[0].skipped, None);
    assert_eq!(rows[0].listened_ms, 0);
}

#[test]
fn full_table_refuses_inserts() {
    let mut conn = Database::restore(Vec::new(), Vec::new(), i64::MAX, i64::MAX).unwrap();
    assert_eq!(
        open_classification(&mut conn, "u1", "t1", "S", "A", "Al", 10, 1000, None),
        Err(DbError::Full)
    );
    assert_eq!(
        insert_event(&mut conn, "u1", "t1", "S", "A", "Al", 1000, 5, true, false, "off", None, None, 10),
        Err(DbError::Full)
    );
    assert!(conn.classification_rows().is_empty());
    assert!(conn.event_rows().is_empty());
}

#[test]
fn restore_rejects_broken_tables() {
    assert!(Database::restore(Vec::new(), Vec::new(), -1, 0).is_none());
    assert!(Database::restore(Vec::new(), Vec::new(), 0, -1).is_none());
    let mut conn = test_conn();
    open_classification(&mut conn, "u1", "t1", "S", "A", "Al", 10, 1000, None).unwrap();
    let rows: Vec<_> = conn.classification_rows().iter().map(|c| c.clone()).collect();
    assert!(Database::restore(Vec::new(), rows.clone(), 0, 0).is_none());
    assert!(Database::restore(Vec::new(), rows, 5, 0).is_some());
}

#[test]
fn range_is_ordered_by_start() {
    let mut conn = test_conn();
    open_classification(&mut conn, "u1", "late", "S", "A", "Al", 300, 1000, None).unwrap();
    open_classification(&mut conn, "u1", "early", "S", "A", "Al", 100, 1000, None).unwrap();
    open_classification(&mut conn, "u2", "other", "S", "A", "Al", 200, 1000, None).unwrap();
    open_classification(&mut conn, "u1", "out", "S", "A", "Al", 900, 1000, None).unwrap();
    open_classification(&mut conn, "u1", "tie", "S", "A", "Al", 100, 1000, None).unwrap();
    let ids: Vec<String> = classifications_in_range(&conn, "u1", 0, 500)
        .iter()
        .map(|c| c.track_id.clone())
        .collect();
    assert_eq!(ids, vec!["early", "tie", "late"]);
}

#[test]
fn events_are_recorded() {
    let mut conn = test_conn();
    insert_event(&mut conn, "u1", "t1", "Song", "A, B", "Al", 1000, 500, true, true, "track", Some("ctx"), Some("Phone"), 42).unwrap();
    let ev = &conn.event_rows()[0];
    assert_eq!(ev.id, 1);
    assert_eq!(ev.artist_name, "A, B");
    assert_eq!(ev.repeat_state, "track");
    assert_eq!(ev.device_name, Some("Phone".to_string()));
    assert_eq!(ev.polled_at, 42);
}

#[test]
fn stats_rank_artists_by_skip_rate() {
    let mut conn = test_conn();
    let mut add = |artist: &str, track: &str, skipped: bool, at: i64| {
        let id = open_classification(&mut conn, "u1", track, track, artist, "Al", at, 1000, None).unwrap();
        close_classification(&mut conn, id, at + 1, 10, skipped);
    };
    // A: 3 listens, 1 skip; B: 4 listens, 3 skips; C: 2 listens (too few)
    add("A", "a1", true, 1);
    add("A", "a2", false, 2);
    add("A", "a3", false, 3);
    add("B", "b1", true, 4);
    add("B", "b1", true, 5);
    add("B", "b2", true, 6);
    add("B", "b3", false, 7);
    add("C", "c1", true, 8);
    add("C", "c1", true, 9);
    // an open listen counts for nothing
    open_classification(&mut conn, "u1", "a4", "a4", "A", "Al", 10, 1000, None).unwrap();
    let stats = get_stats(&conn, "u1");
    assert_eq!(stats.total_listens, 9);
    assert_eq!(stats.skipped, 6);
    assert_eq!(stats.completed, 3);
    let artists: Vec<(String, i64, i64)> = stats
        .top_artists_by_skip_rate
        .iter()
        .map(|a| (a.artist_name.clone(), a.total, a.skipped))
        .collect();
    assert_eq!(artists, vec![("B".to_string(), 4, 3), ("A".to_string(), 3, 1)]);
    assert_eq!(stats.top_skipped[0].track_name, "b1");
    assert_eq!(stats.top_skipped[0].count, 2);
    assert_eq!(stats.top_skipped.len(), 4);
}

#[test]
fn top_skipped_keeps_ten() {
    let mut conn = test_conn();
    for k in 0..12i64 {
        for _ in 0..(k + 1) {
            let t = format!("t{}", k);
            let id = open_classification(&mut conn, "u1", &t, &t, "A", "Al", k, 1000, None).unwrap();
            close_classification(&mut conn, id, k, 1, true);
        }
    }
    let stats = get_stats(&conn, "u1");
    assert_eq!(stats.top_skipped.len(), 10);
    assert_eq!(stats.top_skipped[0].count, 12);
    assert_eq!(stats.top_skipped[9].count, 3);
}

#[test]
fn same_second_listens_keep_table_order() {
    let mut conn = test_conn();
    let a = open_classification(&mut conn, "u1", "t1", "S1", "A", "Al", 500, 1000, None).unwrap();
    let b = open_classification(&mut conn, "u1", "t2", "S2", "A", "Al", 400, 1000, None).unwrap();
    let c = open_classification(&mut conn, "u1", "t3", "S3", "A", "Al", 500, 1000, None).unwrap();
    let d = open_classification(&mut conn, "u1", "t4", "S4", "A", "Al", 500, 1000, None).unwrap();
    let cs = classifications_in_range(&conn, "u1", 0, 1000);
    let ids: Vec<i64> = cs.iter().map(|r| r.id).collect();
    assert_eq!(ids, vec![b, a, c, d]);
}
