//! What one poll of the player does: it opens and closes listens and
//! records the poll.
use vstd::prelude::*;
use vstd::string::*;

use crate::models::{artist_names_spec, PlaybackEventView, PlaybackState, TrackItem};
use crate::store::{
    close_classification, closed_rows, db_wf, insert_event, open_classification, opened_row,
    Database, DatabaseView, DbError,
};
use crate::text::opt_view;

verus! {

/// Within a track that keeps playing, a jump back of more than this many
/// milliseconds counts as the track starting over.
pub const REPLAY_MARGIN_MS: i64 = 10_000;

/// What the poller remembers between polls.
pub struct TrackingState {
    pub current_track_id: Option<String>,
    pub max_progress_ms: i64,
    pub duration_ms: i64,
    pub open_classification_id: Option<i64>,
}

/// The poller's memory as plain values.
pub struct TrackingView {
    pub current_track_id: Option<Seq<char>>,
    pub max_progress_ms: i64,
    pub duration_ms: i64,
    pub open_classification_id: Option<i64>,
}

impl View for TrackingState {
    type V = TrackingView;

    open spec fn view(&self) -> TrackingView {
        TrackingView {
            current_track_id: opt_view(self.current_track_id),
            max_progress_ms: self.max_progress_ms,
            duration_ms: self.duration_ms,
            open_classification_id: self.open_classification_id,
        }
    }
}

/// Nothing tracked.
pub open spec fn idle_tracking() -> TrackingView {
    TrackingView {
        current_track_id: None,
        max_progress_ms: 0,
        duration_ms: 0,
        open_classification_id: None,
    }
}

impl Default for TrackingState {
    fn default() -> (r: Self)
        ensures
            r@ == idle_tracking(),
    {
        TrackingState {
            current_track_id: None,
            max_progress_ms: 0,
            duration_ms: 0,
            open_classification_id: None,
        }
    }
}

/// A listen of `listened_ms` out of a track of `duration_ms` is a skip when
/// less than 80% of the track was heard (`listened_ms < duration_ms * 0.8`).
pub open spec fn is_skip(listened_ms: int, duration_ms: int) -> bool {
    5 * listened_ms < 4 * duration_ms
}

/// Whether `listened_ms` out of `duration_ms` is a skip.
pub fn skipped_listen(listened_ms: i64, duration_ms: i64) -> (r: bool)
    ensures
        r == is_skip(listened_ms as int, duration_ms as int),
{
    5 * (listened_ms as i128) < 4 * (duration_ms as i128)
}

/// The tables after the tracked listen, if any, was closed at `now` with
/// the furthest progress seen.
pub open spec fn closed_current(d: DatabaseView, t: TrackingView, now: i64) -> DatabaseView {
    match t.open_classification_id {
        Some(id) => DatabaseView {
            classifications: closed_rows(
                d.classifications,
                id,
                now,
                t.max_progress_ms,
                is_skip(t.max_progress_ms as int, t.duration_ms as int),
            ),
            ..d
        },
        None => d,
    }
}

/// The reported progress, 0 when none is reported.
pub open spec fn reported_progress(pb: PlaybackState) -> i64 {
    match pb.progress_ms {
        Some(p) => p,
        None => 0,
    }
}

/// The playback context's URI, if any.
pub open spec fn context_uri_spec(pb: PlaybackState) -> Option<Seq<char>> {
    match pb.context {
        Some(c) => opt_view(c.uri),
        None => None,
    }
}

/// The playing device's name, if any.
pub open spec fn device_name_spec(pb: PlaybackState) -> Option<Seq<char>> {
    match pb.device {
        Some(d) => opt_view(d.name),
        None => None,
    }
}

/// The repeat mode, "off" when none is reported.
pub open spec fn repeat_state_spec(pb: PlaybackState) -> Seq<char> {
    match pb.repeat_state {
        Some(r) => r@,
        None => "off"@,
    }
}

/// Whether this poll starts a new listen: nothing was tracked, the track
/// changed, or the track plays on from well before where it had got to.
pub open spec fn starts_new_listen(t: TrackingView, pb: PlaybackState, item: TrackItem) -> bool {
    match t.current_track_id {
        None => true,
        Some(id) => id != item.id@ || (pb.is_playing && reported_progress(pb) < t.max_progress_ms
            - REPLAY_MARGIN_MS),
    }
}

/// The event that records a poll of `item`.
pub open spec fn poll_event(id: i64, user_id: Seq<char>, pb: PlaybackState, item: TrackItem, now: i64) -> PlaybackEventView {
    PlaybackEventView {
        id,
        user_id,
        track_id: item.id@,
        track_name: item.name@,
        artist_name: artist_names_spec(item.artists@),
        album_name: item.album.name@,
        duration_ms: item.duration_ms,
        progress_ms: reported_progress(pb),
        is_playing: pb.is_playing,
        shuffle: match pb.shuffle_state {
            Some(b) => b,
            None => false,
        },
        repeat_state: repeat_state_spec(pb),
        context_uri: context_uri_spec(pb),
        device_name: device_name_spec(pb),
        polled_at: now,
    }
}

/// The tables after the poll of `item` is recorded, or `Full` when no event id is left.
pub open spec fn with_poll_event(
    d: DatabaseView,
    user_id: Seq<char>,
    pb: PlaybackState,
    item: TrackItem,
    now: i64,
) -> (DatabaseView, Result<(), DbError>) {
    if d.last_event_id == i64::MAX {
        (d, Err(DbError::Full))
    } else {
        (
            DatabaseView {
                events: d.events.push(poll_event((d.last_event_id + 1) as i64, user_id, pb, item, now)),
                last_event_id: (d.last_event_id + 1) as i64,
                ..d
            },
            Ok(()),
        )
    }
}

/// The poller's memory, the tables and the outcome after one poll at `now`
/// that reported `playback` (`None`: nothing is playing).
pub open spec fn poll_effect(
    t: TrackingView,
    d: DatabaseView,
    user_id: Seq<char>,
    playback: Option<PlaybackState>,
    now: i64,
) -> (TrackingView, DatabaseView, Result<(), DbError>) {
    match playback {
        Some(pb) if pb.item is Some => {
            let item = pb.item->0;
            let progress = reported_progress(pb);
            if starts_new_listen(t, pb, item) {
                let d1 = closed_current(d, t, now);
                if d1.last_classification_id == i64::MAX {
                    (idle_tracking(), d1, Err(DbError::Full))
                } else {
                    let id = (d1.last_classification_id + 1) as i64;
                    let d2 = DatabaseView {
                        classifications: d1.classifications.push(
                            opened_row(
                                id,
                                user_id,
                                item.id@,
                                item.name@,
                                artist_names_spec(item.artists@),
                                item.album.name@,
                                now,
                                item.duration_ms,
                                context_uri_spec(pb),
                            ),
                        ),
                        last_classification_id: id,
                        ..d1
                    };
                    let t2 = TrackingView {
                        current_track_id: Some(item.id@),
                        max_progress_ms: progress,
                        duration_ms: item.duration_ms,
                        open_classification_id: Some(id),
                    };
                    let (d3, r) = with_poll_event(d2, user_id, pb, item, now);
                    (t2, d3, r)
                }
            } else {
                let t2 = if pb.is_playing && progress > t.max_progress_ms {
                    TrackingView { max_progress_ms: progress, ..t }
                } else {
                    t
                };
                let (d3, r) = with_poll_event(d, user_id, pb, item, now);
                (t2, d3, r)
            }
        },
        _ => (idle_tracking(), closed_current(d, t, now), Ok(())),
    }
}

/// The reported playback as a value.
pub open spec fn reported(playback: Option<&PlaybackState>) -> Option<PlaybackState> {
    match playback {
        Some(p) => Some(*p),
        None => None,
    }
}

/// The playback context's URI, if any.
fn context_uri_of(pb: &PlaybackState) -> (r: Option<&str>)
    ensures
        match r {
            Some(s) => context_uri_spec(*pb) == Some(s@),
            None => context_uri_spec(*pb) is None,
        },
{
    match &pb.context {
        Some(c) => match &c.uri {
            Some(u) => Some(u.as_str()),
            None => None,
        },
        None => None,
    }
}

/// The playing device's name, if any.
fn device_name_of(pb: &PlaybackState) -> (r: Option<&str>)
    ensures
        match r {
            Some(s) => device_name_spec(*pb) == Some(s@),
            None => device_name_spec(*pb) is None,
        },
{
    match &pb.device {
        Some(d) => match &d.name {
            Some(u) => Some(u.as_str()),
            None => None,
        },
        None => None,
    }
}

/// Closes the tracked listen, if any, at `now`, and forgets the track.
fn close_current(tracking: &mut TrackingState, db: &mut Database, now: i64)
    requires
        old(db).wf(),
    ensures
        final(db).wf(),
        final(db)@ == closed_current(old(db)@, old(tracking)@, now),
        final(tracking)@ == idle_tracking(),
{
    match tracking.open_classification_id {
        Some(class_id) => {
            let skipped = skipped_listen(tracking.max_progress_ms, tracking.duration_ms);
            close_classification(db, class_id, now, tracking.max_progress_ms, skipped);
        },
        None => {},
    }
    tracking.open_classification_id = None;
    tracking.current_track_id = None;
    tracking.max_progress_ms = 0;
    tracking.duration_ms = 0;
}

/// Records the poll of `item` as a playback event.
fn record_poll(
    db: &mut Database,
    user_id: &str,
    pb: &PlaybackState,
    item: &TrackItem,
    progress: i64,
    now: i64,
) -> (r: Result<(), DbError>)
    requires
        old(db).wf(),
        progress == reported_progress(*pb),
    ensures
        final(db).wf(),
        (final(db)@, r) == with_poll_event(old(db)@, user_id@, *pb, *item, now),
{
    let artist = item.artist_names();
    let shuffle = match pb.shuffle_state {
        Some(b) => b,
        None => false,
    };
    let repeat = match &pb.repeat_state {
        Some(r) => r.as_str(),
        None => "off",
    };
    let r = insert_event(
        db,
        user_id,
        &item.id,
        &item.name,
        &artist,
        &item.album.name,
        item.duration_ms,
        progress,
        pb.is_playing,
        shuffle,
        repeat,
        context_uri_of(pb),
        device_name_of(pb),
        now,
    );
    match r {
        Ok(()) => Ok(()),
        Err(_) => Err(DbError::Full),
    }
}

/// One poll at `now` that reported `playback` (`None`: nothing is playing):
/// closes the tracked listen when the track is gone, changed or started
/// over; opens a listen for a new track; follows the furthest progress of
/// a track that keeps playing; and records the poll.
pub fn process_poll_at(
    tracking: &mut TrackingState,
    db: &mut Database,
    user_id: &str,
    playback: Option<&PlaybackState>,
    now: i64,
) -> (r: Result<(), DbError>)
    requires
        old(db).wf(),
    ensures
        final(db).wf(),
        (final(tracking)@, final(db)@, r) == poll_effect(
            old(tracking)@,
            old(db)@,
            user_id@,
            reported(playback),
            now,
        ),
{
    match playback {
        Some(pb) => match &pb.item {
            Some(item) => {
                let progress = match pb.progress_ms {
                    Some(p) => p,
                    None => 0,
                };
                let is_new = match &tracking.current_track_id {
                    None => true,
                    Some(id) => if *id == item.id {
                        pb.is_playing && (progress as i128) < (tracking.max_progress_ms as i128)
                            - (REPLAY_MARGIN_MS as i128)
                    } else {
                        true
                    },
                };
                if is_new {
                    close_current(tracking, db, now);
                    let artist = item.artist_names();
                    let opened = open_classification(
                        db,
                        user_id,
                        &item.id,
                        &item.name,
                        &artist,
                        &item.album.name,
                        now,
                        item.duration_ms,
                        context_uri_of(pb),
                    );
                    match opened {
                        Ok(class_id) => {
                            tracking.current_track_id = Some(item.id.clone());
                            tracking.max_progress_ms = progress;
                            tracking.duration_ms = item.duration_ms;
                            tracking.open_classification_id = Some(class_id);
                        },
                        Err(e) => {
                            return Err(e);
                        },
                    }
                } else if pb.is_playing && progress > tracking.max_progress_ms {
                    tracking.max_progress_ms = progress;
                }
                record_poll(db, user_id, pb, item, progress, now)
            },
            None => {
                close_current(tracking, db, now);
                Ok(())
            },
        },
        None => {
            close_current(tracking, db, now);
            Ok(())
        },
    }
}

/// One poll by the system clock (see `process_poll_at`).
pub fn process_poll(
    tracking: &mut TrackingState,
    db: &mut Database,
    user_id: &str,
    playback: Option<&PlaybackState>,
) -> (r: Result<(), DbError>)
    requires
        old(db).wf(),
    ensures
        final(db).wf(),
        exists|now: i64|
            crate::clock::clock_reading(now as int) && (final(tracking)@, final(db)@, r) == #[trigger] poll_effect(
                old(tracking)@,
                old(db)@,
                user_id@,
                reported(playback),
                now,
            ),
{
    let now = crate::clock::now_timestamp();
    process_poll_at(tracking, db, user_id, playback, now)
}

/// The poller's memory agrees with the tables: a tracked track has an open
/// listen, a row of the classifications that has not been closed yet.
pub open spec fn tracking_linked(t: TrackingView, d: DatabaseView) -> bool {
    match t.open_classification_id {
        Some(id) => t.current_track_id is Some && exists|i: int|
            0 <= i < d.classifications.len() && #[trigger] d.classifications[i].id == id
                && d.classifications[i].ended_at is None,
        None => t.current_track_id is None,
    }
}

/// Every poll keeps the poller's memory linked to the tables, and keeps
/// the tables well formed.
pub proof fn lemma_poll_keeps_tracking_linked(
    t: TrackingView,
    d: DatabaseView,
    user_id: Seq<char>,
    playback: Option<PlaybackState>,
    now: i64,
)
    requires
        db_wf(d),
        tracking_linked(t, d),
    ensures
        tracking_linked(poll_effect(t, d, user_id, playback, now).0, poll_effect(t, d, user_id, playback, now).1),
{
    let (t2, d2, r) = poll_effect(t, d, user_id, playback, now);
    match playback {
        Some(pb) if pb.item is Some => {
            let item = pb.item->0;
            if starts_new_listen(t, pb, item) {
                let d1 = closed_current(d, t, now);
                if d1.last_classification_id != i64::MAX {
                    let n = d1.classifications.len() as int;
                    let id = (d1.last_classification_id + 1) as i64;
                    assert(d2.classifications[n].id == id);
                }
            } else {
                match t.open_classification_id {
                    Some(id) => {
                        let i = choose|i: int|
                            0 <= i < d.classifications.len() && #[trigger] d.classifications[i].id == id
                                && d.classifications[i].ended_at is None;
                        assert(d2.classifications == d.classifications);
                        assert(d2.classifications[i].id == id);
                    },
                    None => {},
                }
            }
        },
        _ => {},
    }
}

/// When the track changes, the listen that was open is closed at the time
/// of the poll, with the furthest progress heard as its listened time and
/// marked skipped exactly when less than 80% of the track was heard.
pub proof fn lemma_track_change_closes_listen(
    t: TrackingView,
    d: DatabaseView,
    user_id: Seq<char>,
    pb: PlaybackState,
    now: i64,
    i: int,
)
    requires
        db_wf(d),
        pb.item is Some,
        t.current_track_id is Some,
        t.current_track_id != Some(pb.item->0.id@),
        t.open_classification_id == Some(d.classifications[i].id),
        0 <= i < d.classifications.len(),
    ensures
        ({
            let d2 = poll_effect(t, d, user_id, Some(pb), now).1;
            &&& d2.classifications[i].ended_at == Some(now)
            &&& d2.classifications[i].listened_ms == t.max_progress_ms
            &&& d2.classifications[i].skipped == Some(is_skip(t.max_progress_ms as int, t.duration_ms as int))
            &&& d2.classifications[i].id == d.classifications[i].id
        }),
{
    let item = pb.item->0;
    assert(starts_new_listen(t, pb, item));
    let d1 = closed_current(d, t, now);
    assert(d1.classifications[i].ended_at == Some(now));
}

/// A poll of the track being followed, still playing and no more than ten
/// seconds behind the furthest point heard, continues the same listen: no
/// listen is opened or closed, and the furthest point heard becomes the
/// larger of the old one and the reported progress.
pub proof fn lemma_same_track_plays_on(
    t: TrackingView,
    d: DatabaseView,
    user_id: Seq<char>,
    pb: PlaybackState,
    now: i64,
)
    requires
        pb.item is Some,
        t.current_track_id == Some(pb.item->0.id@),
        pb.is_playing,
        (match pb.progress_ms {
            Some(p) => p as int,
            None => 0,
        }) >= t.max_progress_ms - 10_000,
    ensures
        ({
            let (t2, d2, _r) = poll_effect(t, d, user_id, Some(pb), now);
            let progress = match pb.progress_ms {
                Some(p) => p as int,
                None => 0,
            };
            &&& d2.classifications == d.classifications
            &&& d2.last_classification_id == d.last_classification_id
            &&& t2.current_track_id == t.current_track_id
            &&& t2.open_classification_id == t.open_classification_id
            &&& t2.duration_ms == t.duration_ms
            &&& t2.max_progress_ms == (if progress > t.max_progress_ms {
                progress
            } else {
                t.max_progress_ms as int
            })
        }),
{
    assert(!starts_new_listen(t, pb, pb.item->0));
}

/// A poll of the track being followed while it is paused changes nothing
/// of the listen: none is opened or closed and the furthest point heard
/// stays.
pub proof fn lemma_paused_track_holds(
    t: TrackingView,
    d: DatabaseView,
    user_id: Seq<char>,
    pb: PlaybackState,
    now: i64,
)
    requires
        pb.item is Some,
        t.current_track_id == Some(pb.item->0.id@),
        !pb.is_playing,
    ensures
        ({
            let (t2, d2, _r) = poll_effect(t, d, user_id, Some(pb), now);
            &&& d2.classifications == d.classifications
            &&& d2.last_classification_id == d.last_classification_id
            &&& t2 == t
        }),
{
    assert(!starts_new_listen(t, pb, pb.item->0));
}

/// A poll of the track being followed, playing more than ten seconds
/// behind the furthest point heard, is the track starting over: the open
/// listen is closed at the poll and a new listen of the track opens at the
/// poll, followed from the reported progress.
pub proof fn lemma_replay_starts_new_listen(
    t: TrackingView,
    d: DatabaseView,
    user_id: Seq<char>,
    pb: PlaybackState,
    now: i64,
    i: int,
)
    requires
        pb.item is Some,
        t.current_track_id == Some(pb.item->0.id@),
        pb.is_playing,
        (match pb.progress_ms {
            Some(p) => p as int,
            None => 0,
        }) < t.max_progress_ms - 10_000,
        d.last_classification_id < i64::MAX,
        0 <= i < d.classifications.len(),
        t.open_classification_id == Some(d.classifications[i].id),
    ensures
        ({
            let (t2, d2, _r) = poll_effect(t, d, user_id, Some(pb), now);
            let n = d.classifications.len() as int;
            let progress = match pb.progress_ms {
                Some(p) => p as int,
                None => 0,
            };
            &&& d2.classifications.len() == n + 1
            &&& d2.classifications[i].ended_at == Some(now)
            &&& d2.classifications[i].listened_ms == t.max_progress_ms
            &&& d2.classifications[n].track_id == pb.item->0.id@
            &&& d2.classifications[n].user_id == user_id
            &&& d2.classifications[n].started_at == now
            &&& d2.classifications[n].ended_at is None
            &&& t2.open_classification_id == Some(d2.classifications[n].id)
            &&& t2.max_progress_ms == progress
        }),
{
    let item = pb.item->0;
    assert(starts_new_listen(t, pb, item));
    let d1 = closed_current(d, t, now);
    assert(d1.classifications[i].ended_at == Some(now));
}

} // verus!
