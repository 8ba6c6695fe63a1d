use deadair::models::{AlbumRef, ArtistRef, RecentlyPlayedItem, SpotifyContext, TrackItem};
use deadair::reconciler::backfill;
use deadair::store::{classifications_in_range, create_tables, open_classification};

fn item(track: &str, played_at: &str, duration: i64) -> RecentlyPlayedItem {
    RecentlyPlayedItem {
        track: TrackItem {
            id: track.into(),
            name: format!("Song {}", track),
            duration_ms: duration,
            artists: vec![
                ArtistRef { id: "a".into(), name: "A".into() },
                ArtistRef { id: "b".into(), name: "B".into() },
            ],
            album: AlbumRef { id: "al".into(), name: "Al".into() },
            uri: format!("spotify:track:{}", track),
        },
        played_at: played_at.into(),
        context: Some(SpotifyContext { uri: Some("spotify:playlist:p".into()), context_type: None }),
    }
}

fn keys(db: &deadair::store::Database) -> Vec<(i64, String, i64, Option<i64>, i64, Option<bool>)> {
    db.classification_rows()
        .iter()
        .map(|r| (r.id, r.track_id.clone(), r.started_at, r.ended_at, r.listened_ms, r.skipped))
        .collect()
}

#[test]
fn backfill_orders_and_measures_listens() {
    let mut db = create_tables();
    // given out of order; 2026-03-30T00:00:00Z is 1774828800
    let items = vec![
        item("t2", "2026-03-30T00:01:00Z", 200_000),
        item("t1", "2026-03-30T00:00:00Z", 200_000),
        item("t3", "2026-03-30T00:10:00Z", 100_000),
    ];
    backfill(&mut db, "u1", &items).unwrap();
    let rows = db.classification_rows();
    assert_eq!(rows.len(), 3);
    // t1: 60 s until t2 began
    assert_eq!(rows[0].track_id, "t1");
    assert_eq!(rows[0].listened_ms, 60_000);
    assert_eq!(rows[0].started_at, 1_774_828_800 - 60);
    assert_eq!(rows[0].ended_at, Some(1_774_828_800));
    assert_eq!(rows[0].skipped, Some(true));
    assert_eq!(rows[0].artist_name, "A, B");
    assert_eq!(rows[0].context_uri, Some("spotify:playlist:p".to_string()));
    // t2: the gap is longer than the track
    assert_eq!(rows[1].track_id, "t2");
    assert_eq!(rows[1].listened_ms, 200_000);
    assert_eq!(rows[1].skipped, Some(false));
    // t3: the last entry counts in full
    assert_eq!(rows[2].listened_ms, 100_000);
    assert_eq!(rows[2].started_at, 1_774_829_400 - 100);
}

#[test]
fn backfill_skips_known_listens() {
    let mut db = create_tables();
    // the entry began 200 s before it was played; a listen started 10 s later is the same one
    open_classification(&mut db, "u1", "t1", "S", "A", "Al", 1_774_828_610, 200_000, None).unwrap();
    let items = vec![item("t1", "2026-03-30T00:00:00Z", 200_000)];
    backfill(&mut db, "u1", &items).unwrap();
    assert_eq!(classifications_in_range(&db, "u1", 0, i64::MAX).len(), 1);
}

#[test]
fn backfill_of_nothing_changes_nothing() {
    let mut db = create_tables();
    backfill(&mut db, "u1", &[]).unwrap();
    assert!(db.classification_rows().is_empty());
}

#[test]
fn unreadable_time_counts_as_epoch() {
    let mut db = create_tables();
    let items = vec![item("t1", "yesterday", 5_000)];
    backfill(&mut db, "u1", &items).unwrap();
    let rows = db.classification_rows();
    assert_eq!(rows[0].ended_at, Some(0));
    assert_eq!(rows[0].started_at, -5);
}

#[test]
fn backfill_near_played_time_is_not_the_same_listen() {
    let mut db = create_tables();
    // started when the entry was played, so not when the entry began
    open_classification(&mut db, "u1", "t1", "S", "A", "Al", 1_774_828_800, 200_000, None).unwrap();
    let items = vec![item("t1", "2026-03-30T00:00:00Z", 200_000)];
    backfill(&mut db, "u1", &items).unwrap();
    assert_eq!(db.classification_rows().len(), 2);
}

#[test]
fn backfill_twice_adds_nothing() {
    let mut db = create_tables();
    let items = vec![
        item("t1", "2026-03-30T00:00:00Z", 200_000),
        item("t2", "2026-03-30T00:01:00Z", 200_000),
        item("t3", "2026-03-30T00:10:00Z", 100_000),
    ];
    backfill(&mut db, "u1", &items).unwrap();
    let first = keys(&db);
    assert_eq!(first.len(), 3);
    backfill(&mut db, "u1", &items).unwrap();
    assert_eq!(keys(&db), first);
}

#[test]
fn backfill_ignores_listing_order() {
    let mut a = create_tables();
    let mut b = create_tables();
    let x = || item("t1", "2026-03-30T00:00:00Z", 200_000);
    let y = || item("t2", "2026-03-30T00:01:00Z", 200_000);
    let z = || item("t3", "2026-03-30T00:10:00Z", 100_000);
    backfill(&mut a, "u1", &[x(), y(), z()]).unwrap();
    backfill(&mut b, "u1", &[z(), x(), y()]).unwrap();
    assert_eq!(keys(&a), keys(&b));
}
