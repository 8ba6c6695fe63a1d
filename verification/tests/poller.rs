use deadair::models::{AlbumRef, ArtistRef, Device, PlaybackState, SpotifyContext, TrackItem};
use deadair::poller::{process_poll, process_poll_at, skipped_listen, TrackingState};
use deadair::store::{classifications_in_range, create_tables, upsert_user, Database};

fn test_db() -> Database {
    let mut conn = create_tables();
    upsert_user(&mut conn, "u1", "Test", "{}");
    conn
}

fn playback(track_id: &str, progress: i64, duration: i64, playing: bool) -> PlaybackState {
    PlaybackState {
        device: Some(Device {
            id: None,
            name: Some("Test".into()),
            device_type: None,
        }),
        shuffle_state: Some(false),
        repeat_state: Some("off".into()),
        timestamp: Some(0),
        context: None,
        progress_ms: Some(progress),
        item: Some(TrackItem {
            id: track_id.into(),
            name: format!("Track {}", track_id),
            duration_ms: duration,
            artists: vec![ArtistRef {
                id: "a1".into(),
                name: "Artist".into(),
            }],
            album: AlbumRef {
                id: "al1".into(),
                name: "Album".into(),
            },
            uri: format!("spotify:track:{}", track_id),
        }),
        currently_playing_type: Some("track".into()),
        is_playing: playing,
    }
}

#[test]
fn new_track_opens_classification() {
    let mut db = test_db();
    let mut state = TrackingState::default();

    process_poll(&mut state, &mut db, "u1", Some(&playback("t1", 5_000, 240_000, true))).unwrap();

    assert_eq!(state.current_track_id, Some("t1".into()));
    assert!(state.open_classification_id.is_some());
}

#[test]
fn track_change_closes_previous() {
    let mut db = test_db();
    let mut state = TrackingState::default();

    process_poll(&mut state, &mut db, "u1", Some(&playback("t1", 120_000, 240_000, true))).unwrap();
    process_poll(&mut state, &mut db, "u1", Some(&playback("t2", 5_000, 200_000, true))).unwrap();

    let classes = classifications_in_range(&db, "u1", 0, i64::MAX);
    assert_eq!(classes.len(), 2);
    assert!(classes[0].ended_at.is_some());
    assert_eq!(classes[0].skipped, Some(true));
    assert_eq!(classes[0].listened_ms, 120_000);
    assert!(classes[1].ended_at.is_none());
}

#[test]
fn played_in_full() {
    let mut db = test_db();
    let mut state = TrackingState::default();

    process_poll(&mut state, &mut db, "u1", Some(&playback("t1", 5_000, 200_000, true))).unwrap();
    state.max_progress_ms = 195_000;
    process_poll(&mut state, &mut db, "u1", Some(&playback("t2", 0, 180_000, true))).unwrap();

    let classes = classifications_in_range(&db, "u1", 0, i64::MAX);
    assert_eq!(classes[0].skipped, Some(false));
    assert_eq!(classes[0].listened_ms, 195_000);
}

#[test]
fn nothing_playing_closes() {
    let mut db = test_db();
    let mut state = TrackingState::default();

    process_poll(&mut state, &mut db, "u1", Some(&playback("t1", 60_000, 240_000, true))).unwrap();
    process_poll(&mut state, &mut db, "u1", None).unwrap();

    assert!(state.current_track_id.is_none());
    assert!(state.open_classification_id.is_none());

    let classes = classifications_in_range(&db, "u1", 0, i64::MAX);
    assert_eq!(classes.len(), 1);
    assert!(classes[0].ended_at.is_some());
}

#[test]
fn repeat_detection() {
    let mut db = test_db();
    let mut state = TrackingState::default();

    process_poll(&mut state, &mut db, "u1", Some(&playback("t1", 180_000, 200_000, true))).unwrap();
    state.max_progress_ms = 180_000;
    process_poll(&mut state, &mut db, "u1", Some(&playback("t1", 5_000, 200_000, true))).unwrap();

    let classes = classifications_in_range(&db, "u1", 0, i64::MAX);
    assert_eq!(classes.len(), 2);
    assert!(classes[0].ended_at.is_some());
}

#[test]
fn pause_does_not_close() {
    let mut db = test_db();
    let mut state = TrackingState::default();

    process_poll(&mut state, &mut db, "u1", Some(&playback("t1", 60_000, 240_000, true))).unwrap();
    let paused = playback("t1", 60_000, 240_000, false);
    process_poll(&mut state, &mut db, "u1", Some(&paused)).unwrap();

    assert!(state.open_classification_id.is_some());
    assert_eq!(state.current_track_id, Some("t1".into()));
}

#[test]
fn progress_tracks_max() {
    let mut db = test_db();
    let mut state = TrackingState::default();

    process_poll(&mut state, &mut db, "u1", Some(&playback("t1", 50_000, 240_000, true))).unwrap();
    process_poll(&mut state, &mut db, "u1", Some(&playback("t1", 55_000, 240_000, true))).unwrap();
    process_poll(&mut state, &mut db, "u1", Some(&playback("t1", 60_000, 240_000, true))).unwrap();

    assert_eq!(state.max_progress_ms, 60_000);
}

#[test]
fn skip_rule_is_eighty_percent() {
    assert!(skipped_listen(159_999, 200_000));
    assert!(!skipped_listen(160_000, 200_000));
    assert!(!skipped_listen(0, 0));
    assert!(skipped_listen(-1, 0));
}

#[test]
fn poll_records_event_and_listen_fields() {
    let mut db = test_db();
    let mut state = TrackingState::default();
    let mut pb = playback("t9", 1_000, 100_000, true);
    pb.context = Some(SpotifyContext { uri: Some("spotify:album:x".into()), context_type: None });
    pb.shuffle_state = None;
    pb.repeat_state = None;
    pb.device = None;
    process_poll_at(&mut state, &mut db, "u1", Some(&pb), 777).unwrap();
    let ev = &db.event_rows()[0];
    assert_eq!(ev.track_name, "Track t9");
    assert_eq!(ev.artist_name, "Artist");
    assert_eq!(ev.album_name, "Album");
    assert_eq!(ev.progress_ms, 1_000);
    assert!(!ev.shuffle);
    assert_eq!(ev.repeat_state, "off");
    assert_eq!(ev.context_uri, Some("spotify:album:x".to_string()));
    assert_eq!(ev.device_name, None);
    assert_eq!(ev.polled_at, 777);
    let c = &db.classification_rows()[0];
    assert_eq!(c.started_at, 777);
    assert_eq!(c.context_uri, Some("spotify:album:x".to_string()));
    assert_eq!(state.duration_ms, 100_000);
}

#[test]
fn paused_progress_is_not_followed() {
    let mut db = test_db();
    let mut state = TrackingState::default();
    process_poll_at(&mut state, &mut db, "u1", Some(&playback("t1", 10_000, 240_000, true)), 1).unwrap();
    process_poll_at(&mut state, &mut db, "u1", Some(&playback("t1", 90_000, 240_000, false)), 2).unwrap();
    assert_eq!(state.max_progress_ms, 10_000);
    // a paused track that jumps back is still the same listen
    process_poll_at(&mut state, &mut db, "u1", Some(&playback("t1", 0, 240_000, false)), 3).unwrap();
    assert_eq!(db.classification_rows().len(), 1);
    assert_eq!(db.event_rows().len(), 3);
}

#[test]
fn close_records_time_of_poll() {
    let mut db = test_db();
    let mut state = TrackingState::default();
    process_poll_at(&mut state, &mut db, "u1", Some(&playback("t1", 200_000, 240_000, true)), 10).unwrap();
    process_poll_at(&mut state, &mut db, "u1", None, 250).unwrap();
    let c = &db.classification_rows()[0];
    assert_eq!(c.ended_at, Some(250));
    assert_eq!(c.skipped, Some(false));
    assert_eq!(state.max_progress_ms, 0);
}
