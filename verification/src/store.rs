//! The tracker's three tables (users, playback events, classifications)
//! and the statements the tracker runs on them.
use vstd::prelude::*;
use vstd::string::*;

use crate::models::{
    ArtistSkipRate, Classification, ClassificationView, PlaybackEvent, PlaybackEventView, Stats,
    TrackCount,
};
use crate::text::{opt_str, opt_to_owned};

verus! {

/// A statement that the tables cannot carry out.
#[derive(Debug, PartialEq, Eq, Structural)]
pub enum DbError {
    /// Every row id up to `i64::MAX` has been handed out.
    Full,
}

/// One row of the `users` table.
pub struct UserRow {
    pub spotify_id: String,
    pub display_name: String,
    pub tokens: String,
    pub created_at: i64,
}

/// A `users` row as plain values.
pub struct UserView {
    pub spotify_id: Seq<char>,
    pub display_name: Seq<char>,
    pub tokens: Seq<char>,
    pub created_at: i64,
}

impl View for UserRow {
    type V = UserView;

    open spec fn view(&self) -> UserView {
        UserView {
            spotify_id: self.spotify_id@,
            display_name: self.display_name@,
            tokens: self.tokens@,
            created_at: self.created_at,
        }
    }
}

/// The tables. Row ids of the two `AUTOINCREMENT` tables grow with every
/// insert; `last_*_id` is the largest id handed out so far.
pub struct Database {
    users: Vec<UserRow>,
    events: Vec<PlaybackEvent>,
    classifications: Vec<Classification>,
    last_event_id: i64,
    last_classification_id: i64,
}

/// The tables as plain values.
pub struct DatabaseView {
    pub users: Seq<UserView>,
    pub events: Seq<PlaybackEventView>,
    pub classifications: Seq<ClassificationView>,
    pub last_event_id: i64,
    pub last_classification_id: i64,
}

pub open spec fn user_views(v: Seq<UserRow>) -> Seq<UserView> {
    v.map_values(|u: UserRow| u@)
}

pub open spec fn event_views(v: Seq<PlaybackEvent>) -> Seq<PlaybackEventView> {
    v.map_values(|e: PlaybackEvent| e@)
}

pub open spec fn class_views(v: Seq<Classification>) -> Seq<ClassificationView> {
    v.map_values(|c: Classification| c@)
}

impl View for Database {
    type V = DatabaseView;

    closed spec fn view(&self) -> DatabaseView {
        DatabaseView {
            users: user_views(self.users@),
            events: event_views(self.events@),
            classifications: class_views(self.classifications@),
            last_event_id: self.last_event_id,
            last_classification_id: self.last_classification_id,
        }
    }
}

/// No two users share a Spotify id.
pub open spec fn users_unique(users: Seq<UserView>) -> bool {
    forall|i: int, j: int|
        0 <= i < j < users.len() ==> users[i].spotify_id != users[j].spotify_id
}

/// Classification ids grow strictly along the table and stay within `1..=last`.
pub open spec fn class_ids_ok(rows: Seq<ClassificationView>, last: i64) -> bool {
    &&& rows.len() <= last
    &&& forall|i: int| 0 <= i < rows.len() ==> 0 < #[trigger] rows[i].id <= last
    &&& forall|i: int, j: int| 0 <= i < j < rows.len() ==> rows[i].id < rows[j].id
}

/// Event ids grow strictly along the table and stay within `1..=last`.
pub open spec fn event_ids_ok(rows: Seq<PlaybackEventView>, last: i64) -> bool {
    &&& rows.len() <= last
    &&& forall|i: int| 0 <= i < rows.len() ==> 0 < #[trigger] rows[i].id <= last
    &&& forall|i: int, j: int| 0 <= i < j < rows.len() ==> rows[i].id < rows[j].id
}

/// A listen that was marked skipped or played has also been closed.
pub open spec fn verdicts_closed(rows: Seq<ClassificationView>) -> bool {
    forall|i: int| 0 <= i < rows.len() && (#[trigger] rows[i]).skipped is Some ==> rows[i].ended_at is Some
}

/// The invariant of the tables.
pub open spec fn db_wf(d: DatabaseView) -> bool {
    &&& users_unique(d.users)
    &&& class_ids_ok(d.classifications, d.last_classification_id)
    &&& event_ids_ok(d.events, d.last_event_id)
    &&& verdicts_closed(d.classifications)
}

impl Database {
    /// The invariant that every operation keeps.
    pub open spec fn wf(&self) -> bool {
        db_wf(self@)
    }

    /// Tables rebuilt from stored rows, with the largest ids handed out so far;
    /// `None` where the rows break the invariant.
    pub fn restore(
        users: Vec<UserRow>,
        classifications: Vec<Classification>,
        last_classification_id: i64,
        last_event_id: i64,
    ) -> (r: Option<Database>)
        ensures
            match r {
                Some(d) => d.wf() && d@ == (DatabaseView {
                    users: user_views(users@),
                    events: Seq::empty(),
                    classifications: class_views(classifications@),
                    last_event_id,
                    last_classification_id,
                }),
                None => !db_wf(DatabaseView {
                    users: user_views(users@),
                    events: Seq::empty(),
                    classifications: class_views(classifications@),
                    last_event_id,
                    last_classification_id,
                }),
            },
    {
        let ghost uv = user_views(users@);
        let ghost cv = class_views(classifications@);
        if last_event_id < 0 {
            return None;
        }
        // users
        let mut i: usize = 0;
        while i < users.len()
            invariant
                uv == user_views(users@),
                i <= users.len(),
                forall|a: int, b: int| 0 <= a < b < i ==> uv[a].spotify_id != uv[b].spotify_id,
            decreases users.len() - i,
        {
            let mut j: usize = 0;
            while j < i
                invariant
                    uv == user_views(users@),
                    j <= i < users.len(),
                    forall|a: int, b: int| 0 <= a < b < i ==> uv[a].spotify_id != uv[b].spotify_id,
                    forall|a: int| 0 <= a < j ==> uv[a].spotify_id != uv[i as int].spotify_id,
                decreases i - j,
            {
                if users[j].spotify_id == users[i].spotify_id {
                    assert(uv[j as int].spotify_id == uv[i as int].spotify_id);
                    assert(!users_unique(uv));
                    return None;
                }
                j = j + 1;
            }
            i = i + 1;
        }
        // classifications
        if last_classification_id < 0 {
            return None;
        }
        if classifications.len() as u64 > last_classification_id as u64 {
            assert(!class_ids_ok(cv, last_classification_id));
            return None;
        }
        let mut k: usize = 0;
        while k < classifications.len()
            invariant
                cv == class_views(classifications@),
                k <= classifications.len(),
                classifications.len() <= last_classification_id,
                forall|a: int| 0 <= a < k ==> 0 < #[trigger] cv[a].id <= last_classification_id,
                forall|a: int, b: int| 0 <= a < b < k ==> cv[a].id < cv[b].id,
                forall|a: int| 0 <= a < k && (#[trigger] cv[a]).skipped is Some ==> cv[a].ended_at is Some,
            decreases classifications.len() - k,
        {
            let c = &classifications[k];
            assert(cv[k as int] == c@);
            assert(k > 0 ==> cv[k - 1] == classifications@[k - 1]@);
            if c.id <= 0 || c.id > last_classification_id {
                assert(!class_ids_ok(cv, last_classification_id));
                return None;
            }
            if k > 0 && classifications[k - 1].id >= c.id {
                assert(!class_ids_ok(cv, last_classification_id));
                return None;
            }
            if c.skipped.is_some() && c.ended_at.is_none() {
                assert(!verdicts_closed(cv));
                return None;
            }
            k = k + 1;
        }
        let d = Database {
            users,
            events: Vec::new(),
            classifications,
            last_event_id,
            last_classification_id,
        };
        assert(d@.events =~= Seq::<PlaybackEventView>::empty());
        Some(d)
    }

    /// Every user row, in table order.
    pub fn users(&self) -> (r: &Vec<UserRow>)
        ensures
            user_views(r@) == self@.users,
    {
        &self.users
    }

    /// Every classification row, in table order.
    pub fn classification_rows(&self) -> (r: &Vec<Classification>)
        ensures
            class_views(r@) == self@.classifications,
    {
        &self.classifications
    }

    /// Every playback event recorded since the tables were opened, in table order.
    pub fn event_rows(&self) -> (r: &Vec<PlaybackEvent>)
        ensures
            event_views(r@) == self@.events,
    {
        &self.events
    }
}

/// Empty tables.
pub fn create_tables() -> (d: Database)
    ensures
        d.wf(),
        d@ == (DatabaseView {
            users: Seq::empty(),
            events: Seq::empty(),
            classifications: Seq::empty(),
            last_event_id: 0,
            last_classification_id: 0,
        }),
{
    let d = Database {
        users: Vec::new(),
        events: Vec::new(),
        classifications: Vec::new(),
        last_event_id: 0,
        last_classification_id: 0,
    };
    assert(d@.users =~= Seq::<UserView>::empty());
    assert(d@.events =~= Seq::<PlaybackEventView>::empty());
    assert(d@.classifications =~= Seq::<ClassificationView>::empty());
    d
}

// ---------------------------------------------------------------- users

/// The position of the user with this id, if there is one.
pub open spec fn user_index(users: Seq<UserView>, id: Seq<char>) -> Option<int> {
    if exists|i: int| 0 <= i < users.len() && users[i].spotify_id == id {
        Some(choose|i: int| 0 <= i < users.len() && users[i].spotify_id == id)
    } else {
        None
    }
}

/// The users table after `INSERT ... ON CONFLICT(spotify_id) DO UPDATE SET
/// display_name, tokens`: a known user keeps its row and its `created_at`.
pub open spec fn upserted(
    users: Seq<UserView>,
    id: Seq<char>,
    name: Seq<char>,
    tokens: Seq<char>,
    now: i64,
) -> Seq<UserView> {
    match user_index(users, id) {
        Some(i) => users.update(
            i,
            UserView { spotify_id: id, display_name: name, tokens, created_at: users[i].created_at },
        ),
        None => users.push(UserView { spotify_id: id, display_name: name, tokens, created_at: now }),
    }
}

/// The users table after `UPDATE users SET tokens WHERE spotify_id`.
pub open spec fn tokens_updated(users: Seq<UserView>, id: Seq<char>, tokens: Seq<char>) -> Seq<UserView> {
    users.map_values(|u: UserView| if u.spotify_id == id { UserView { tokens, ..u } } else { u })
}

fn find_user(users: &Vec<UserRow>, id: &str) -> (r: Option<usize>)
    ensures
        match r {
            Some(i) => i < users@.len() && users@[i as int].spotify_id@ == id@,
            None => forall|i: int| 0 <= i < users@.len() ==> users@[i].spotify_id@ != id@,
        },
{
    let key = id.to_owned();
    let mut i: usize = 0;
    while i < users.len()
        invariant
            key@ == id@,
            i <= users.len(),
            forall|k: int| 0 <= k < i ==> users@[k].spotify_id@ != id@,
        decreases users.len() - i,
    {
        if users[i].spotify_id == key {
            return Some(i);
        }
        i = i + 1;
    }
    None
}

/// Adds the user, or gives a known user the new name and tokens, at second `now`.
pub fn upsert_user_at(
    db: &mut Database,
    spotify_id: &str,
    display_name: &str,
    tokens_json: &str,
    now: i64,
)
    requires
        old(db).wf(),
    ensures
        final(db).wf(),
        final(db)@ == (DatabaseView {
            users: upserted(old(db)@.users, spotify_id@, display_name@, tokens_json@, now),
            ..old(db)@
        }),
{
    let ghost u0 = old(db)@.users;
    let row_found = find_user(&db.users, spotify_id);
    match row_found {
        Some(i) => {
            let created_at = db.users[i].created_at;
            let row = UserRow {
                spotify_id: spotify_id.to_owned(),
                display_name: display_name.to_owned(),
                tokens: tokens_json.to_owned(),
                created_at,
            };
            db.users.set(i, row);
            proof {
                assert(u0[i as int].spotify_id == spotify_id@);
                let j = user_index(u0, spotify_id@).unwrap();
                assert(j == i) by {
                    if j != i {
                        assert(u0[j].spotify_id == spotify_id@);
                    }
                }
                assert(user_views(db.users@) =~= upserted(u0, spotify_id@, display_name@, tokens_json@, now));
            }
        },
        None => {
            let row = UserRow {
                spotify_id: spotify_id.to_owned(),
                display_name: display_name.to_owned(),
                tokens: tokens_json.to_owned(),
                created_at: now,
            };
            db.users.push(row);
            proof {
                assert(user_index(u0, spotify_id@) is None);
                assert(user_views(db.users@) =~= upserted(u0, spotify_id@, display_name@, tokens_json@, now));
            }
        },
    }
}

/// Adds the user, or gives a known user the new name and tokens; a new row
/// is stamped with the current second of the system clock.
pub fn upsert_user(db: &mut Database, spotify_id: &str, display_name: &str, tokens_json: &str)
    requires
        old(db).wf(),
    ensures
        final(db).wf(),
        exists|now: i64|
            crate::clock::clock_reading(now as int) && final(db)@ == (DatabaseView {
                users: #[trigger] upserted(old(db)@.users, spotify_id@, display_name@, tokens_json@, now),
                ..old(db)@
            }),
{
    let now = crate::clock::now_timestamp();
    upsert_user_at(db, spotify_id, display_name, tokens_json, now);
}

/// `(spotify_id, display_name, tokens)` of every user, in table order.
pub fn get_all_users(db: &Database) -> (r: Vec<(String, String, String)>)
    ensures
        r@.len() == db@.users.len(),
        forall|i: int|
            0 <= i < r@.len() ==> (#[trigger] r@[i]).0@ == db@.users[i].spotify_id && r@[i].1@
                == db@.users[i].display_name && r@[i].2@ == db@.users[i].tokens,
{
    let mut r: Vec<(String, String, String)> = Vec::new();
    let mut i: usize = 0;
    while i < db.users.len()
        invariant
            i <= db.users@.len(),
            r@.len() == i,
            forall|k: int|
                0 <= k < i ==> (#[trigger] r@[k]).0@ == db.users@[k].spotify_id@ && r@[k].1@
                    == db.users@[k].display_name@ && r@[k].2@ == db.users@[k].tokens@,
        decreases db.users.len() - i,
    {
        let u = &db.users[i];
        r.push((u.spotify_id.clone(), u.display_name.clone(), u.tokens.clone()));
        i = i + 1;
    }
    r
}

/// Replaces the stored tokens of the user with this id (no row changes if none has it).
pub fn update_tokens(db: &mut Database, spotify_id: &str, tokens_json: &str)
    requires
        old(db).wf(),
    ensures
        final(db).wf(),
        final(db)@ == (DatabaseView {
            users: tokens_updated(old(db)@.users, spotify_id@, tokens_json@),
            ..old(db)@
        }),
{
    let ghost u0 = old(db)@.users;
    match find_user(&db.users, spotify_id) {
        Some(i) => {
            let row = UserRow {
                spotify_id: db.users[i].spotify_id.clone(),
                display_name: db.users[i].display_name.clone(),
                tokens: tokens_json.to_owned(),
                created_at: db.users[i].created_at,
            };
            db.users.set(i, row);
            proof {
                assert forall|k: int| 0 <= k < u0.len() && k != i implies u0[k].spotify_id
                    != spotify_id@ by {
                    if k < i {
                        assert(u0[k].spotify_id != u0[i as int].spotify_id);
                    } else {
                        assert(u0[i as int].spotify_id != u0[k].spotify_id);
                    }
                }
                assert(user_views(db.users@) =~= tokens_updated(u0, spotify_id@, tokens_json@));
            }
        },
        None => {
            assert(u0 =~= tokens_updated(u0, spotify_id@, tokens_json@));
        },
    }
}

/// The display name of the user with this id, if there is one.
pub fn get_display_name(db: &Database, spotify_id: &str) -> (r: Option<String>)
    ensures
        match r {
            Some(name) => exists|i: int|
                0 <= i < db@.users.len() && db@.users[i].spotify_id == spotify_id@
                    && db@.users[i].display_name == name@,
            None => forall|i: int|
                0 <= i < db@.users.len() ==> db@.users[i].spotify_id != spotify_id@,
        },
{
    match find_user(&db.users, spotify_id) {
        Some(i) => {
            assert(db@.users[i as int].spotify_id == spotify_id@);
            Some(db.users[i].display_name.clone())
        },
        None => None,
    }
}

// ------------------------------------------------------- playback events

/// Adds a poll to `playback_events` under the next id.
pub fn insert_event(
    db: &mut Database,
    user_id: &str,
    track_id: &str,
    track_name: &str,
    artist_name: &str,
    album_name: &str,
    duration_ms: i64,
    progress_ms: i64,
    is_playing: bool,
    shuffle: bool,
    repeat_state: &str,
    context_uri: Option<&str>,
    device_name: Option<&str>,
    polled_at: i64,
) -> (r: Result<(), DbError>)
    requires
        old(db).wf(),
    ensures
        final(db).wf(),
        match r {
            Ok(()) => old(db)@.last_event_id < i64::MAX && final(db)@ == (DatabaseView {
                events: old(db)@.events.push(
                    PlaybackEventView {
                        id: (old(db)@.last_event_id + 1) as i64,
                        user_id: user_id@,
                        track_id: track_id@,
                        track_name: track_name@,
                        artist_name: artist_name@,
                        album_name: album_name@,
                        duration_ms,
                        progress_ms,
                        is_playing,
                        shuffle,
                        repeat_state: repeat_state@,
                        context_uri: opt_str(context_uri),
                        device_name: opt_str(device_name),
                        polled_at,
                    },
                ),
                last_event_id: (old(db)@.last_event_id + 1) as i64,
                ..old(db)@
            }),
            Err(e) => e == DbError::Full && old(db)@.last_event_id == i64::MAX && final(db)@ == old(
                db,
            )@,
        },
{
    if db.last_event_id == i64::MAX {
        return Err(DbError::Full);
    }
    let id = db.last_event_id + 1;
    let ev = PlaybackEvent {
        id,
        user_id: user_id.to_owned(),
        track_id: track_id.to_owned(),
        track_name: track_name.to_owned(),
        artist_name: artist_name.to_owned(),
        album_name: album_name.to_owned(),
        duration_ms,
        progress_ms,
        is_playing,
        shuffle,
        repeat_state: repeat_state.to_owned(),
        context_uri: opt_to_owned(context_uri),
        device_name: opt_to_owned(device_name),
        polled_at,
    };
    let ghost e0 = event_views(db.events@);
    db.events.push(ev);
    db.last_event_id = id;
    assert(event_views(db.events@) =~= e0.push(ev@));
    Ok(())
}

// ------------------------------------------------------- classifications

/// The row that `open_classification` adds: no end, nothing listened, no verdict.
pub open spec fn opened_row(
    id: i64,
    user_id: Seq<char>,
    track_id: Seq<char>,
    track_name: Seq<char>,
    artist_name: Seq<char>,
    album_name: Seq<char>,
    started_at: i64,
    duration_ms: i64,
    context_uri: Option<Seq<char>>,
) -> ClassificationView {
    ClassificationView {
        id,
        user_id,
        track_id,
        track_name,
        artist_name,
        album_name,
        started_at,
        ended_at: None,
        duration_ms,
        listened_ms: 0,
        skipped: None,
        context_uri,
    }
}

/// The classifications after `UPDATE ... SET ended_at, listened_ms, skipped WHERE id`.
pub open spec fn closed_rows(
    rows: Seq<ClassificationView>,
    id: i64,
    ended_at: i64,
    listened_ms: i64,
    skipped: bool,
) -> Seq<ClassificationView> {
    rows.map_values(
        |r: ClassificationView|
            if r.id == id {
                ClassificationView {
                    ended_at: Some(ended_at),
                    listened_ms,
                    skipped: Some(skipped),
                    ..r
                }
            } else {
                r
            },
    )
}

/// Opens a listen: adds a row under the next id and returns that id.
pub fn open_classification(
    db: &mut Database,
    user_id: &str,
    track_id: &str,
    track_name: &str,
    artist_name: &str,
    album_name: &str,
    started_at: i64,
    duration_ms: i64,
    context_uri: Option<&str>,
) -> (r: Result<i64, DbError>)
    requires
        old(db).wf(),
    ensures
        final(db).wf(),
        match r {
            Ok(id) => old(db)@.last_classification_id < i64::MAX && id == old(db)@.last_classification_id + 1
                && final(db)@ == (DatabaseView {
                classifications: old(db)@.classifications.push(
                    opened_row(
                        id,
                        user_id@,
                        track_id@,
                        track_name@,
                        artist_name@,
                        album_name@,
                        started_at,
                        duration_ms,
                        opt_str(context_uri),
                    ),
                ),
                last_classification_id: id,
                ..old(db)@
            }),
            Err(e) => e == DbError::Full && old(db)@.last_classification_id == i64::MAX && final(db)@
                == old(db)@,
        },
{
    if db.last_classification_id == i64::MAX {
        return Err(DbError::Full);
    }
    let id = db.last_classification_id + 1;
    let row = Classification {
        id,
        user_id: user_id.to_owned(),
        track_id: track_id.to_owned(),
        track_name: track_name.to_owned(),
        artist_name: artist_name.to_owned(),
        album_name: album_name.to_owned(),
        started_at,
        ended_at: None,
        duration_ms,
        listened_ms: 0,
        skipped: None,
        context_uri: opt_to_owned(context_uri),
    };
    let ghost c0 = class_views(db.classifications@);
    db.classifications.push(row);
    db.last_classification_id = id;
    assert(class_views(db.classifications@) =~= c0.push(row@));
    Ok(id)
}

/// Closes a listen: records its end, how long it was heard and whether it was skipped.
pub fn close_classification(
    db: &mut Database,
    id: i64,
    ended_at: i64,
    listened_ms: i64,
    skipped: bool,
)
    requires
        old(db).wf(),
    ensures
        final(db).wf(),
        final(db)@ == (DatabaseView {
            classifications: closed_rows(old(db)@.classifications, id, ended_at, listened_ms, skipped),
            ..old(db)@
        }),
{
    let ghost c0 = class_views(db.classifications@);
    let mut i: usize = 0;
    while i < db.classifications.len()
        invariant
            db.wf(),
            db@ == old(db)@,
            c0 == class_views(db.classifications@),
            i <= db.classifications@.len(),
            forall|k: int| 0 <= k < i ==> c0[k].id != id,
        decreases db.classifications.len() - i,
    {
        if db.classifications[i].id == id {
            let old_row = &db.classifications[i];
            let row = Classification {
                id: old_row.id,
                user_id: old_row.user_id.clone(),
                track_id: old_row.track_id.clone(),
                track_name: old_row.track_name.clone(),
                artist_name: old_row.artist_name.clone(),
                album_name: old_row.album_name.clone(),
                started_at: old_row.started_at,
                ended_at: Some(ended_at),
                duration_ms: old_row.duration_ms,
                listened_ms,
                skipped: Some(skipped),
                context_uri: crate::text::opt_clone(&old_row.context_uri),
            };
            assert(c0[i as int] == old_row@);
            db.classifications.set(i, row);
            proof {
                assert forall|k: int| 0 <= k < c0.len() && k != i implies c0[k].id != id by {
                    if k > i {
                        assert(c0[i as int].id < c0[k].id);
                    }
                }
                let c1 = class_views(db.classifications@);
                assert(c1 =~= closed_rows(c0, id, ended_at, listened_ms, skipped));
                assert(forall|k: int| 0 <= k < c1.len() ==> c1[k].id == c0[k].id);
                assert(verdicts_closed(c1));
            }
            return;
        }
        i = i + 1;
    }
    assert(c0 =~= closed_rows(c0, id, ended_at, listened_ms, skipped));
}

/// Whether a listen of this track by this user started within `tolerance`
/// seconds of `around`.
pub open spec fn started_near(
    r: ClassificationView,
    user_id: Seq<char>,
    track_id: Seq<char>,
    around: i64,
    tolerance: i64,
) -> bool {
    &&& r.user_id == user_id
    &&& r.track_id == track_id
    &&& -tolerance <= r.started_at - around <= tolerance
}

/// Whether some listen of this track by this user started within `tolerance`
/// seconds of `around`.
pub fn classification_exists_near(
    db: &Database,
    user_id: &str,
    track_id: &str,
    around: i64,
    tolerance: i64,
) -> (r: bool)
    ensures
        r == exists|i: int|
            0 <= i < db@.classifications.len() && #[trigger] started_near(
                db@.classifications[i],
                user_id@,
                track_id@,
                around,
                tolerance,
            ),
{
    let ghost c = db@.classifications;
    let user = user_id.to_owned();
    let track = track_id.to_owned();
    let mut i: usize = 0;
    while i < db.classifications.len()
        invariant
            c == class_views(db.classifications@),
            user@ == user_id@,
            track@ == track_id@,
            i <= db.classifications@.len(),
            forall|k: int|
                0 <= k < i ==> !#[trigger] started_near(c[k], user_id@, track_id@, around, tolerance),
        decreases db.classifications.len() - i,
    {
        let row = &db.classifications[i];
        let diff = (row.started_at as i128) - (around as i128);
        assert(c[i as int] == row@);
        if row.user_id == user && row.track_id == track && -(tolerance as i128) <= diff && diff
            <= tolerance as i128 {
            assert(started_near(c[i as int], user_id@, track_id@, around, tolerance));
            assert(c == db@.classifications);
            return true;
        }
        assert(c[i as int] == row@);
        i = i + 1;
    }
    false
}

/// Whether a listen of this user started within `from..=to`.
pub open spec fn in_window(r: ClassificationView, user_id: Seq<char>, from: i64, to: i64) -> bool {
    r.user_id == user_id && from <= r.started_at <= to
}

/// The filter of `classifications_in_range`.
pub open spec fn window_pred(user_id: Seq<char>, from: i64, to: i64) -> spec_fn(ClassificationView) -> bool {
    |r: ClassificationView| in_window(r, user_id, from, to)
}

/// Listens ordered by start, earliest first; listens that started in the
/// same second in table order (by id, which grows along the table).
pub open spec fn start_ordered(s: Seq<ClassificationView>) -> bool {
    forall|i: int, j: int|
        0 <= i < j < s.len() ==> s[i].started_at < s[j].started_at || (s[i].started_at
            == s[j].started_at && s[i].id < s[j].id)
}

/// Ids grow strictly along `s`.
pub open spec fn ids_increasing(s: Seq<ClassificationView>) -> bool {
    forall|i: int, j: int| 0 <= i < j < s.len() ==> s[i].id < s[j].id
}

/// The user's listens that started within `from..=to`, in table order.
fn select_window(db: &Database, user_id: &str, from: i64, to: i64) -> (r: Vec<Classification>)
    requires
        db.wf(),
    ensures
        class_views(r@) == db@.classifications.filter(window_pred(user_id@, from, to)),
        ids_increasing(class_views(r@)),
{
    let ghost rows = db@.classifications;
    let ghost pred = window_pred(user_id@, from, to);
    let user = user_id.to_owned();
    let mut sel: Vec<Classification> = Vec::new();
    let mut i: usize = 0;
    while i < db.classifications.len()
        invariant
            rows == class_views(db.classifications@),
            ids_increasing(rows),
            pred == window_pred(user_id@, from, to),
            user@ == user_id@,
            i <= rows.len(),
            class_views(sel@) == rows.take(i as int).filter(pred),
            ids_increasing(class_views(sel@)),
            i < rows.len() && sel@.len() > 0 ==> class_views(sel@).last().id < rows[i as int].id,
        decreases db.classifications.len() - i,
    {
        let row = &db.classifications[i];
        proof {
            assert(rows[i as int] == row@);
            assert(rows.take(i + 1) == rows.take(i as int).push(row@));
            rows.take(i as int).lemma_filter_push(row@, pred);
            assert(pred(row@) == in_window(row@, user_id@, from, to));
        }
        if row.user_id == user && from <= row.started_at && row.started_at <= to {
            let c = row.clone();
            let ghost s0 = sel@;
            sel.push(c);
            assert(class_views(sel@) =~= class_views(s0).push(c@));
            proof {
                let sv = class_views(sel@);
                assert forall|a: int, b: int| 0 <= a < b < sv.len() implies sv[a].id < sv[b].id by {
                    if b == sv.len() - 1 && a < b {
                        if a < sv.len() - 2 {
                            assert(class_views(s0)[a].id < class_views(s0).last().id);
                        }
                    }
                }
                if i + 1 < rows.len() {
                    assert(rows[i as int].id < rows[i + 1].id);
                }
            }
        } else {
            proof {
                if i + 1 < rows.len() {
                    assert(rows[i as int].id < rows[i + 1].id);
                }
            }
        }
        i = i + 1;
    }
    assert(rows.take(rows.len() as int) == rows);
    sel
}

/// Inserting a row with a larger id than every row behind every row that
/// started no later, and before the first that started later, keeps the
/// order by start and id.
proof fn lemma_insert_keeps_sorted(ov: Seq<ClassificationView>, j: int, x: ClassificationView)
    requires
        start_ordered(ov),
        0 <= j <= ov.len(),
        forall|m: int| 0 <= m < j ==> ov[m].started_at <= x.started_at,
        forall|m: int| 0 <= m < ov.len() ==> ov[m].id < x.id,
        j < ov.len() ==> ov[j].started_at > x.started_at,
    ensures
        start_ordered(ov.insert(j, x)),
{
    let nv = ov.insert(j, x);
    ov.insert_ensures(j, x);
    assert forall|a: int, b: int| 0 <= a < b < nv.len() implies nv[a].started_at < nv[b].started_at
        || (nv[a].started_at == nv[b].started_at && nv[a].id < nv[b].id) by {
        if b < j {
        } else if b == j {
        } else if a < j {
            assert(nv[b] == ov[b - 1]);
        } else if a == j {
            assert(nv[b] == ov[b - 1]);
        } else {
            assert(nv[b] == ov[b - 1]);
            assert(nv[a] == ov[a - 1]);
        }
    }
}

/// One more row of `sv` moved into `out`.
proof fn lemma_insert_multiset(
    ov: Seq<ClassificationView>,
    j: int,
    sv: Seq<ClassificationView>,
    k: int,
)
    requires
        0 <= j <= ov.len(),
        0 <= k < sv.len(),
        ov.to_multiset() == sv.take(k).to_multiset(),
    ensures
        ov.insert(j, sv[k]).to_multiset() == sv.take(k + 1).to_multiset(),
{
    vstd::seq_lib::to_multiset_insert(ov, j, sv[k]);
    assert(sv.take(k + 1) == sv.take(k).push(sv[k]));
    sv.take(k).to_multiset_ensures();
}

proof fn lemma_views_insert(v: Seq<Classification>, j: int, x: Classification)
    requires
        0 <= j <= v.len(),
    ensures
        class_views(v.insert(j, x)) == class_views(v).insert(j, x@),
{
    v.insert_ensures(j, x);
    class_views(v).insert_ensures(j, x@);
    assert(class_views(v.insert(j, x)) =~= class_views(v).insert(j, x@));
}

/// `sel` reordered by start, earliest first; rows that started in the same
/// second keep their order (a stable sort).
#[verifier::spinoff_prover]
fn sort_by_start(sel: Vec<Classification>) -> (r: Vec<Classification>)
    requires
        ids_increasing(class_views(sel@)),
    ensures
        start_ordered(class_views(r@)),
        class_views(r@).to_multiset() == class_views(sel@).to_multiset(),
{
    let ghost sv = class_views(sel@);
    let mut out: Vec<Classification> = Vec::new();
    let mut k: usize = 0;
    assert(class_views(out@) =~= sv.take(0));
    while k < sel.len()
        invariant
            sv == class_views(sel@),
            ids_increasing(sv),
            k <= sel.len(),
            start_ordered(class_views(out@)),
            class_views(out@).to_multiset() == sv.take(k as int).to_multiset(),
            forall|m: int, t: int|
                0 <= m < out@.len() && k <= t < sv.len() ==> #[trigger] class_views(out@)[m].id
                    < #[trigger] sv[t].id,
        decreases sel.len() - k,
    {
        let x = sel[k].clone();
        assert(x@ == sv[k as int]);
        let ghost ov = class_views(out@);
        let mut j: usize = 0;
        while j < out.len() && out[j].started_at <= x.started_at
            invariant
                ov == class_views(out@),
                j <= out.len(),
                forall|m: int| 0 <= m < j ==> ov[m].started_at <= x.started_at,
            decreases out.len() - j,
        {
            assert(ov[j as int] == out@[j as int]@);
            j = j + 1;
        }
        proof {
            if j < out.len() {
                assert(ov[j as int] == out@[j as int]@);
            }
            assert forall|m: int| 0 <= m < ov.len() implies ov[m].id < x@.id by {
                assert(ov[m].id < sv[k as int].id);
            }
            lemma_views_insert(out@, j as int, x);
            lemma_insert_keeps_sorted(ov, j as int, x@);
            lemma_insert_multiset(ov, j as int, sv, k as int);
        }
        out.insert(j, x);
        proof {
            let nv = class_views(out@);
            ov.insert_ensures(j as int, x@);
            assert forall|m: int, t: int| 0 <= m < out@.len() && k + 1 <= t < sv.len() implies #[trigger] nv[m].id
                < #[trigger] sv[t].id by {
                assert(sv[k as int].id < sv[t].id);
                if m < j {
                    assert(nv[m] == ov[m]);
                    assert(ov[m].id < sv[t].id);
                } else if m > j {
                    assert(nv[m] == ov[m - 1]);
                    assert(ov[m - 1].id < sv[t].id);
                }
            }
        }
        k = k + 1;
    }
    assert(sv.take(sv.len() as int) == sv);
    out
}

/// The user's listens that started within `from..=to`, earliest first
/// (`ORDER BY started_at ASC`); listens that started in the same second
/// come in table order.
pub fn classifications_in_range(db: &Database, user_id: &str, from: i64, to: i64) -> (r: Vec<Classification>)
    requires
        db.wf(),
    ensures
        start_ordered(class_views(r@)),
        class_views(r@).to_multiset() == db@.classifications.filter(window_pred(user_id@, from, to)).to_multiset(),
        forall|i: int|
            0 <= i < r@.len() ==> {
                let x = #[trigger] class_views(r@)[i];
                &&& x.user_id == user_id@
                &&& from <= x.started_at <= to
                &&& db@.classifications.contains(x)
            },
        forall|x: ClassificationView|
            #[trigger] db@.classifications.contains(x) && x.user_id == user_id@ && from <= x.started_at <= to
                ==> class_views(r@).contains(x),
{
    let sel = select_window(db, user_id, from, to);
    let r = sort_by_start(sel);
    proof {
        let rows = db@.classifications;
        let out = class_views(r@);
        let f = rows.filter(window_pred(user_id@, from, to));
        out.to_multiset_ensures();
        f.to_multiset_ensures();
        assert forall|i: int| 0 <= i < r@.len() implies {
            let x = #[trigger] class_views(r@)[i];
            &&& x.user_id == user_id@
            &&& from <= x.started_at <= to
            &&& rows.contains(x)
        } by {
            let x = out[i];
            assert(out.contains(x));
            assert(out.to_multiset().count(x) > 0);
            assert(f.to_multiset().count(x) > 0);
            assert(f.contains(x));
            lemma_window_selects(rows, user_id@, from, to, x);
        }
        assert forall|x: ClassificationView|
            #[trigger] rows.contains(x) && x.user_id == user_id@ && from <= x.started_at <= to implies out.contains(x) by {
            lemma_window_selects(rows, user_id@, from, to, x);
            assert(f.contains(x));
            assert(f.to_multiset().count(x) > 0);
            assert(out.to_multiset().count(x) > 0);
        }
    }
    r
}

/// A listen is selected for the window `from..=to` of a user exactly when
/// it is one of the table's rows, it is that user's, and it started within
/// the window: nothing that started before `from` or after `to`, and
/// nothing of another user.
pub proof fn lemma_window_selects(
    rows: Seq<ClassificationView>,
    user_id: Seq<char>,
    from: i64,
    to: i64,
    x: ClassificationView,
)
    ensures
        rows.filter(window_pred(user_id, from, to)).contains(x) <==> (rows.contains(x) && x.user_id
            == user_id && from <= x.started_at && x.started_at <= to),
{
    let pred = window_pred(user_id, from, to);
    let f = rows.filter(pred);
    if f.contains(x) {
        rows.lemma_filter_contains_rev(pred, x);
        let i = choose|i: int| 0 <= i < f.len() && f[i] == x;
        rows.lemma_filter_pred(pred, i);
        assert(pred(x));
    }
    if rows.contains(x) && x.user_id == user_id && from <= x.started_at && x.started_at <= to {
        let k = choose|k: int| 0 <= k < rows.len() && rows[k] == x;
        assert(pred(rows[k]));
        rows.lemma_filter_contains(pred, k);
    }
}

// ------------------------------------------------------------------ stats

/// How many rows satisfy `p`.
pub open spec fn count_rows(rows: Seq<ClassificationView>, p: spec_fn(ClassificationView) -> bool) -> nat
    decreases rows.len(),
{
    if rows.len() == 0 {
        0
    } else {
        count_rows(rows.drop_last(), p) + if p(rows.last()) {
            1nat
        } else {
            0nat
        }
    }
}

proof fn lemma_count_step(rows: Seq<ClassificationView>, p: spec_fn(ClassificationView) -> bool, i: int)
    requires
        0 <= i < rows.len(),
    ensures
        count_rows(rows.take(i + 1), p) == count_rows(rows.take(i), p) + if p(rows[i]) {
            1nat
        } else {
            0nat
        },
{
    assert(rows.take(i + 1).drop_last() == rows.take(i));
}

proof fn lemma_count_le(rows: Seq<ClassificationView>, p: spec_fn(ClassificationView) -> bool)
    ensures
        count_rows(rows, p) <= rows.len(),
    decreases rows.len(),
{
    if rows.len() > 0 {
        lemma_count_le(rows.drop_last(), p);
    }
}

proof fn lemma_count_mono(
    rows: Seq<ClassificationView>,
    p: spec_fn(ClassificationView) -> bool,
    q: spec_fn(ClassificationView) -> bool,
)
    requires
        forall|r: ClassificationView| #[trigger] p(r) ==> q(r),
    ensures
        count_rows(rows, p) <= count_rows(rows, q),
    decreases rows.len(),
{
    if rows.len() > 0 {
        lemma_count_mono(rows.drop_last(), p, q);
    }
}

/// A finished listen of this user.
pub open spec fn ended_pred(user_id: Seq<char>) -> spec_fn(ClassificationView) -> bool {
    |r: ClassificationView| r.user_id == user_id && r.ended_at is Some
}

/// A listen of this user marked skipped.
pub open spec fn skipped_pred(user_id: Seq<char>) -> spec_fn(ClassificationView) -> bool {
    |r: ClassificationView| r.user_id == user_id && r.skipped == Some(true)
}

/// A skipped listen of this user and this track.
pub open spec fn track_skipped_pred(user_id: Seq<char>, track_id: Seq<char>) -> spec_fn(ClassificationView) -> bool {
    |r: ClassificationView| r.user_id == user_id && r.skipped == Some(true) && r.track_id == track_id
}

/// A finished listen of this user and this artist.
pub open spec fn artist_ended_pred(user_id: Seq<char>, artist: Seq<char>) -> spec_fn(ClassificationView) -> bool {
    |r: ClassificationView| r.user_id == user_id && r.ended_at is Some && r.artist_name == artist
}

/// A finished, skipped listen of this user and this artist.
pub open spec fn artist_skipped_pred(user_id: Seq<char>, artist: Seq<char>) -> spec_fn(ClassificationView) -> bool {
    |r: ClassificationView|
        r.user_id == user_id && r.ended_at is Some && r.artist_name == artist && r.skipped == Some(true)
}

/// One of `rows[..n]` is a skipped listen of this track by the user and
/// carries these track and artist names.
pub open spec fn group_witnessed(
    rows: Seq<ClassificationView>,
    user_id: Seq<char>,
    track_id: Seq<char>,
    track_name: Seq<char>,
    artist_name: Seq<char>,
    n: int,
) -> bool {
    exists|k: int|
        0 <= k < n && #[trigger] track_skipped_pred(user_id, track_id)(rows[k])
            && rows[k].track_name == track_name && rows[k].artist_name == artist_name
}

/// `res` lists, most skipped first, up to ten of the user's skipped tracks
/// (`GROUP BY track_id ORDER BY cnt DESC LIMIT 10`), as witnessed by `ids`,
/// the track ids of its entries. Each entry names the track and artist of one
/// of the track's skipped listens; a track left out was skipped no more often
/// than the last entry, and only when ten were listed.
pub open spec fn top_skipped_witness(
    rows: Seq<ClassificationView>,
    user_id: Seq<char>,
    res: Seq<TrackCount>,
    ids: Seq<Seq<char>>,
) -> bool {
    &&& ids.len() == res.len()
    &&& res.len() <= 10
    &&& forall|a: int, b: int| 0 <= a < b < ids.len() ==> ids[a] != ids[b]
    &&& forall|i: int|
        0 <= i < res.len() ==> #[trigger] res[i].count == count_rows(rows, track_skipped_pred(user_id, ids[i]))
    &&& forall|i: int|
        0 <= i < res.len() ==> #[trigger] group_witnessed(
            rows,
            user_id,
            ids[i],
            res[i].track_name@,
            res[i].artist_name@,
            rows.len() as int,
        )
    &&& forall|a: int, b: int| 0 <= a < b < res.len() ==> res[a].count >= res[b].count
    &&& forall|k: int|
        0 <= k < rows.len() && #[trigger] skipped_pred(user_id)(rows[k]) && !ids.contains(rows[k].track_id)
            ==> res.len() == 10 && count_rows(rows, track_skipped_pred(user_id, rows[k].track_id)) <= res[9].count
}

/// `res` holds the top list of skipped tracks (see `top_skipped_witness`).
pub open spec fn top_skipped_ok(rows: Seq<ClassificationView>, user_id: Seq<char>, res: Seq<TrackCount>) -> bool {
    exists|ids: Seq<Seq<char>>| #[trigger] top_skipped_witness(rows, user_id, res, ids)
}

/// Whether artist `a` was skipped at a rate no higher than artist `b`
/// (`skipped / total`, compared without division).
pub open spec fn rate_le(a_skipped: int, a_total: int, b_skipped: int, b_total: int) -> bool {
    a_skipped * b_total <= b_skipped * a_total
}

/// `res` lists, highest skip rate first, up to ten artists with at least three
/// finished listens of this user (`GROUP BY artist_name HAVING total >= 3
/// ORDER BY skip rate DESC LIMIT 10`); an artist left out has a skip rate no
/// higher than the last entry, and only when ten were listed.
pub open spec fn top_artists_ok(rows: Seq<ClassificationView>, user_id: Seq<char>, res: Seq<ArtistSkipRate>) -> bool {
    &&& res.len() <= 10
    &&& forall|a: int, b: int| 0 <= a < b < res.len() ==> res[a].artist_name@ != res[b].artist_name@
    &&& forall|i: int|
        0 <= i < res.len() ==> #[trigger] res[i].total == count_rows(
            rows,
            artist_ended_pred(user_id, res[i].artist_name@),
        ) && res[i].total >= 3 && res[i].skipped == count_rows(
            rows,
            artist_skipped_pred(user_id, res[i].artist_name@),
        )
    &&& forall|a: int, b: int|
        0 <= a < b < res.len() ==> rate_le(
            res[b].skipped as int,
            res[b].total as int,
            res[a].skipped as int,
            res[a].total as int,
        )
    &&& forall|k: int|
        0 <= k < rows.len() && #[trigger] ended_pred(user_id)(rows[k]) && count_rows(
            rows,
            artist_ended_pred(user_id, rows[k].artist_name),
        ) >= 3 && (forall|i: int| 0 <= i < res.len() ==> res[i].artist_name@ != rows[k].artist_name)
            ==> res.len() == 10 && rate_le(
            count_rows(rows, artist_skipped_pred(user_id, rows[k].artist_name)) as int,
            count_rows(rows, artist_ended_pred(user_id, rows[k].artist_name)) as int,
            res[9].skipped as int,
            res[9].total as int,
        )
}

/// Counts the user's finished listens and skipped listens.
fn count_listens(db: &Database, user_id: &str) -> (r: (i64, i64))
    requires
        db.wf(),
    ensures
        r.0 == count_rows(db@.classifications, ended_pred(user_id@)),
        r.1 == count_rows(db@.classifications, skipped_pred(user_id@)),
{
    let ghost rows = db@.classifications;
    let user = user_id.to_owned();
    let mut total: i64 = 0;
    let mut skipped: i64 = 0;
    let mut i: usize = 0;
    while i < db.classifications.len()
        invariant
            db.wf(),
            rows == db@.classifications,
            rows == class_views(db.classifications@),
            user@ == user_id@,
            i <= rows.len(),
            total == count_rows(rows.take(i as int), ended_pred(user_id@)),
            skipped == count_rows(rows.take(i as int), skipped_pred(user_id@)),
        decreases db.classifications.len() - i,
    {
        let row = &db.classifications[i];
        proof {
            assert(rows[i as int] == row@);
            lemma_count_step(rows, ended_pred(user_id@), i as int);
            lemma_count_step(rows, skipped_pred(user_id@), i as int);
            lemma_count_le(rows.take(i as int), ended_pred(user_id@));
            lemma_count_le(rows.take(i as int), skipped_pred(user_id@));
        }
        if row.user_id == user {
            if row.ended_at.is_some() {
                total = total + 1;
            }
            if row.skipped == Some(true) {
                skipped = skipped + 1;
            }
        }
        i = i + 1;
    }
    assert(rows.take(rows.len() as int) == rows);
    (total, skipped)
}

proof fn lemma_count_zero(rows: Seq<ClassificationView>, p: spec_fn(ClassificationView) -> bool)
    requires
        forall|k: int| 0 <= k < rows.len() ==> !p(#[trigger] rows[k]),
    ensures
        count_rows(rows, p) == 0,
    decreases rows.len(),
{
    if rows.len() > 0 {
        lemma_count_zero(rows.drop_last(), p);
    }
}

proof fn lemma_witness_grows(
    rows: Seq<ClassificationView>,
    user_id: Seq<char>,
    track_id: Seq<char>,
    track_name: Seq<char>,
    artist_name: Seq<char>,
    n: int,
    m: int,
)
    requires
        n <= m,
        group_witnessed(rows, user_id, track_id, track_name, artist_name, n),
    ensures
        group_witnessed(rows, user_id, track_id, track_name, artist_name, m),
{
    let k = choose|k: int|
        0 <= k < n && #[trigger] track_skipped_pred(user_id, track_id)(rows[k])
            && rows[k].track_name == track_name && rows[k].artist_name == artist_name;
    assert(0 <= k < m && track_skipped_pred(user_id, track_id)(rows[k]));
}

/// The skipped listens of one track.
struct SkipGroup {
    track_id: String,
    track_name: String,
    artist_name: String,
    count: i64,
}

/// `gs` groups the skipped listens of the user among `rows[..n]` by track.
spec fn skip_groups_ok(rows: Seq<ClassificationView>, user_id: Seq<char>, gs: Seq<SkipGroup>, n: int) -> bool {
    &&& forall|a: int, b: int| 0 <= a < b < gs.len() ==> gs[a].track_id@ != gs[b].track_id@
    &&& forall|g: int|
        0 <= g < gs.len() ==> #[trigger] gs[g].count == count_rows(
            rows.take(n),
            track_skipped_pred(user_id, gs[g].track_id@),
        )
    &&& forall|g: int| 0 <= g < gs.len() ==> #[trigger] group_witnessed(rows, user_id, gs[g].track_id@, gs[g].track_name@, gs[g].artist_name@, n)
    &&& forall|k: int|
        0 <= k < n && #[trigger] skipped_pred(user_id)(rows[k]) ==> exists|g: int|
            0 <= g < gs.len() && #[trigger] gs[g].track_id@ == rows[k].track_id
}

fn find_skip_group(gs: &Vec<SkipGroup>, track_id: &String) -> (r: Option<usize>)
    ensures
        match r {
            Some(j) => j < gs@.len() && gs@[j as int].track_id@ == track_id@,
            None => forall|g: int| 0 <= g < gs@.len() ==> gs@[g].track_id@ != track_id@,
        },
{
    let mut j: usize = 0;
    while j < gs.len()
        invariant
            j <= gs@.len(),
            forall|g: int| 0 <= g < j ==> gs@[g].track_id@ != track_id@,
        decreases gs.len() - j,
    {
        if gs[j].track_id == *track_id {
            return Some(j);
        }
        j = j + 1;
    }
    None
}

proof fn lemma_groups_skip_row(rows: Seq<ClassificationView>, user_id: Seq<char>, gs: Seq<SkipGroup>, i: int)
    requires
        0 <= i < rows.len(),
        skip_groups_ok(rows, user_id, gs, i),
        !skipped_pred(user_id)(rows[i]),
    ensures
        skip_groups_ok(rows, user_id, gs, i + 1),
{
    assert forall|h: int| 0 <= h < gs.len() implies #[trigger] gs[h].count
        == count_rows(rows.take(i + 1), track_skipped_pred(user_id, gs[h].track_id@)) by {
        lemma_count_step(rows, track_skipped_pred(user_id, gs[h].track_id@), i);
    }
    assert forall|h: int| 0 <= h < gs.len() implies #[trigger] group_witnessed(rows, user_id, gs[h].track_id@, gs[h].track_name@, gs[h].artist_name@, i + 1) by {
        lemma_witness_grows(rows, user_id, gs[h].track_id@, gs[h].track_name@, gs[h].artist_name@, i, i + 1);
    }
    assert forall|k: int| 0 <= k < i + 1 && #[trigger] skipped_pred(user_id)(rows[k])
        implies exists|g: int| 0 <= g < gs.len() && #[trigger] gs[g].track_id@ == rows[k].track_id by {
        if k == i {
            assert(false);
        }
    }
}

/// The user's skipped listens grouped by track, with counts.
#[verifier::spinoff_prover]
fn skip_groups(db: &Database, user_id: &str) -> (gs: Vec<SkipGroup>)
    requires
        db.wf(),
    ensures
        skip_groups_ok(db@.classifications, user_id@, gs@, db@.classifications.len() as int),
{
    let ghost rows = db@.classifications;
    let user = user_id.to_owned();
    let mut gs: Vec<SkipGroup> = Vec::new();
    let mut i: usize = 0;
    while i < db.classifications.len()
        invariant
            db.wf(),
            rows == db@.classifications,
            rows == class_views(db.classifications@),
            user@ == user_id@,
            i <= rows.len(),
            skip_groups_ok(rows, user_id@, gs@, i as int),
        decreases db.classifications.len() - i,
    {
        let row = &db.classifications[i];
        let ghost g0 = gs@;
        proof {
            assert(rows[i as int] == row@);
            assert(rows.take(i + 1) == rows.take(i as int).push(row@));
        }
        if row.user_id == user && row.skipped == Some(true) {
            assert(skipped_pred(user_id@)(rows[i as int]));
            match find_skip_group(&gs, &row.track_id) {
                Some(j) => {
                    proof {
                        lemma_count_le(rows.take(i as int), track_skipped_pred(user_id@, g0[j as int].track_id@));
                    }
                    let g = SkipGroup {
                        track_id: gs[j].track_id.clone(),
                        track_name: gs[j].track_name.clone(),
                        artist_name: gs[j].artist_name.clone(),
                        count: gs[j].count + 1,
                    };
                    gs.set(j, g);
                    proof {
                        let g1 = gs@;
                        assert forall|a: int, b: int| 0 <= a < b < g1.len() implies g1[a].track_id@
                            != g1[b].track_id@ by {
                            assert(g1[a].track_id@ == g0[a].track_id@);
                            assert(g1[b].track_id@ == g0[b].track_id@);
                        }
                        assert forall|h: int| 0 <= h < g1.len() implies #[trigger] g1[h].count
                            == count_rows(rows.take(i + 1), track_skipped_pred(user_id@, g1[h].track_id@)) by {
                            lemma_count_step(rows, track_skipped_pred(user_id@, g0[h].track_id@), i as int);
                            assert(rows.take(i as int + 1) == rows.take(i + 1));
                        }
                        assert forall|h: int| 0 <= h < g1.len() implies #[trigger] group_witnessed(rows, user_id@, g1[h].track_id@, g1[h].track_name@, g1[h].artist_name@, i + 1) by {
                            assert(g1[h].track_id@ == g0[h].track_id@);
                            assert(g1[h].track_name@ == g0[h].track_name@);
                            assert(g1[h].artist_name@ == g0[h].artist_name@);
                            lemma_witness_grows(rows, user_id@, g0[h].track_id@, g0[h].track_name@, g0[h].artist_name@, i as int, i + 1);
                        }
                        assert forall|k: int| 0 <= k < i + 1 && #[trigger] skipped_pred(user_id@)(rows[k])
                            implies exists|g: int| 0 <= g < g1.len() && #[trigger] g1[g].track_id@ == rows[k].track_id by {
                            if k < i {
                                let g = choose|g: int| 0 <= g < g0.len() && #[trigger] g0[g].track_id@ == rows[k].track_id;
                                assert(g1[g].track_id@ == g0[g].track_id@);
                            } else {
                                assert(g1[j as int].track_id@ == rows[k].track_id);
                            }
                        }
                        assert(skip_groups_ok(rows, user_id@, gs@, i + 1));
                    }
                },
                None => {
                    proof {
                        assert forall|k: int| 0 <= k < i implies !(#[trigger] track_skipped_pred(user_id@, row@.track_id)(rows.take(i as int)[k])) by {
                            assert(rows.take(i as int)[k] == rows[k]);
                            if track_skipped_pred(user_id@, row@.track_id)(rows[k]) {
                                assert(skipped_pred(user_id@)(rows[k]));
                                let g = choose|g: int| 0 <= g < g0.len() && #[trigger] g0[g].track_id@ == rows[k].track_id;
                            }
                        }
                        lemma_count_zero(rows.take(i as int), track_skipped_pred(user_id@, row@.track_id));
                    }
                    let g = SkipGroup {
                        track_id: row.track_id.clone(),
                        track_name: row.track_name.clone(),
                        artist_name: row.artist_name.clone(),
                        count: 1,
                    };
                    gs.push(g);
                    proof {
                        let g1 = gs@;
                        let n = g0.len() as int;
                        assert(g1[n] == g);
                        assert forall|h: int| 0 <= h < g1.len() implies #[trigger] g1[h].count
                            == count_rows(rows.take(i + 1), track_skipped_pred(user_id@, g1[h].track_id@)) by {
                            if h < n {
                                assert(g1[h] == g0[h]);
                            }
                            lemma_count_step(rows, track_skipped_pred(user_id@, g1[h].track_id@), i as int);
                            assert(rows.take(i as int + 1) == rows.take(i + 1));
                        }
                        assert forall|h: int| 0 <= h < g1.len() implies #[trigger] group_witnessed(rows, user_id@, g1[h].track_id@, g1[h].track_name@, g1[h].artist_name@, i + 1) by {
                            if h < n {
                                assert(g1[h] == g0[h]);
                                lemma_witness_grows(rows, user_id@, g0[h].track_id@, g0[h].track_name@, g0[h].artist_name@, i as int, i + 1);
                            } else {
                                assert(track_skipped_pred(user_id@, g1[h].track_id@)(rows[i as int]));
                            }
                        }
                        assert forall|k: int| 0 <= k < i + 1 && #[trigger] skipped_pred(user_id@)(rows[k])
                            implies exists|g: int| 0 <= g < g1.len() && #[trigger] g1[g].track_id@ == rows[k].track_id by {
                            if k < i {
                                let g = choose|g: int| 0 <= g < g0.len() && #[trigger] g0[g].track_id@ == rows[k].track_id;
                                assert(g1[g] == g0[g]);
                            } else {
                                assert(g1[n].track_id@ == rows[k].track_id);
                            }
                        }
                        assert(skip_groups_ok(rows, user_id@, gs@, i + 1));
                    }
                },
            }
        } else {
            proof {
                lemma_groups_skip_row(rows, user_id@, gs@, i as int);
            }
        }
        assert(skip_groups_ok(rows, user_id@, gs@, i + 1));
        i = i + 1;
    }
    assert(rows.take(rows.len() as int) == rows);
    gs
}

/// The indices `sel` pick, most skipped first, up to ten groups of `gs`,
/// and `res` describes them; a group left out counts no more than the last pick,
/// and only when ten were picked.
spec fn top_pick_ok(gs: Seq<SkipGroup>, res: Seq<TrackCount>, sel: Seq<int>) -> bool {
    &&& sel.len() == res.len()
    &&& res.len() <= 10
    &&& forall|i: int| 0 <= i < sel.len() ==> 0 <= #[trigger] sel[i] < gs.len()
    &&& forall|a: int, b: int| 0 <= a < b < sel.len() ==> sel[a] != sel[b]
    &&& forall|i: int|
        0 <= i < res.len() ==> #[trigger] res[i].count == gs[sel[i]].count && res[i].track_name@
            == gs[sel[i]].track_name@ && res[i].artist_name@ == gs[sel[i]].artist_name@
    &&& forall|a: int, b: int| 0 <= a < b < res.len() ==> res[a].count >= res[b].count
    &&& forall|g: int|
        0 <= g < gs.len() && !sel.contains(g) ==> res.len() == 10 && #[trigger] gs[g].count <= res[9].count
}

#[verifier::spinoff_prover]
fn top_skipped_of(gs: &Vec<SkipGroup>) -> (r: (Vec<TrackCount>, Ghost<Seq<int>>))
    ensures
        top_pick_ok(gs@, r.0@, r.1@),
{
    let n = gs.len();
    let mut taken: Vec<bool> = Vec::new();
    while taken.len() < n
        invariant
            taken.len() <= n,
            forall|g: int| 0 <= g < taken.len() ==> !taken@[g],
        decreases n - taken.len(),
    {
        taken.push(false);
    }
    let mut res: Vec<TrackCount> = Vec::new();
    let ghost mut sel: Seq<int> = Seq::empty();
    let mut done = false;
    while !done && res.len() < 10
        invariant
            n == gs@.len(),
            taken.len() == n,
            sel.len() == res.len(),
            res.len() <= 10,
            forall|g: int| 0 <= g < n ==> (taken@[g] <==> sel.contains(g)),
            forall|i: int| 0 <= i < sel.len() ==> 0 <= #[trigger] sel[i] < n,
            forall|a: int, b: int| 0 <= a < b < sel.len() ==> sel[a] != sel[b],
            forall|i: int|
                0 <= i < res.len() ==> #[trigger] res@[i].count == gs@[sel[i]].count && res@[i].track_name@
                    == gs@[sel[i]].track_name@ && res@[i].artist_name@ == gs@[sel[i]].artist_name@,
            forall|a: int, b: int| 0 <= a < b < res.len() ==> res@[a].count >= res@[b].count,
            forall|i: int, g: int|
                0 <= i < res.len() && 0 <= g < n && !taken@[g] ==> #[trigger] gs@[g].count <= #[trigger] res@[i].count,
            done ==> forall|g: int| 0 <= g < n ==> taken@[g],
        decreases 10 - res.len() + if done { 0int } else { 1int },
    {
        let mut best: Option<usize> = None;
        let mut j: usize = 0;
        while j < n
            invariant
                n == gs@.len(),
                taken.len() == n,
                j <= n,
                match best {
                    Some(b) => b < n && !taken@[b as int] && forall|m: int|
                        0 <= m < j && !taken@[m] ==> #[trigger] gs@[m].count <= gs@[b as int].count,
                    None => forall|m: int| 0 <= m < j ==> taken@[m],
                },
            decreases n - j,
        {
            if !taken[j] {
                match best {
                    None => {
                        best = Some(j);
                    },
                    Some(b) => {
                        if gs[j].count > gs[b].count {
                            best = Some(j);
                        }
                    },
                }
            }
            j = j + 1;
        }
        assert(forall|i: int|
            0 <= i < res.len() ==> #[trigger] res@[i].count == gs@[sel[i]].count && res@[i].track_name@
                == gs@[sel[i]].track_name@ && res@[i].artist_name@ == gs@[sel[i]].artist_name@);
        match best {
            None => {
                done = true;
            },
            Some(b) => {
                let ghost t0 = taken@;
                let ghost r0 = res@;
                taken.set(b, true);
                let tc = TrackCount {
                    track_name: gs[b].track_name.clone(),
                    artist_name: gs[b].artist_name.clone(),
                    count: gs[b].count,
                };
                res.push(tc);
                proof {
                    let s0 = sel;
                    sel = sel.push(b as int);
                    assert(!s0.contains(b as int));
                    assert forall|g: int| 0 <= g < n implies (taken@[g] <==> sel.contains(g)) by {
                        if g == b {
                            assert(sel[s0.len() as int] == g);
                        } else {
                            assert(taken@[g] == t0[g]);
                            if s0.contains(g) {
                                let i = choose|i: int| 0 <= i < s0.len() && s0[i] == g;
                                assert(sel[i] == g);
                            }
                            if sel.contains(g) {
                                let i = choose|i: int| 0 <= i < sel.len() && sel[i] == g;
                                assert(s0[i] == g);
                            }
                        }
                    }
                    assert forall|i: int| 0 <= i < res.len() implies #[trigger] res@[i].count == gs@[sel[i]].count && res@[i].track_name@
                        == gs@[sel[i]].track_name@ && res@[i].artist_name@ == gs@[sel[i]].artist_name@ by {
                        if i < r0.len() {
                            assert(res@[i] == r0[i]);
                            assert(sel[i] == s0[i]);
                        } else {
                            assert(res@[i] == tc);
                            assert(sel[i] == b as int);
                        }
                    }
                    assert(forall|i: int|
                        0 <= i < res.len() ==> #[trigger] res@[i].count == gs@[sel[i]].count && res@[i].track_name@
                            == gs@[sel[i]].track_name@ && res@[i].artist_name@ == gs@[sel[i]].artist_name@);
                    assert forall|a: int, bb: int| 0 <= a < bb < res.len() implies res@[a].count >= res@[bb].count by {
                        if bb == r0.len() {
                            assert(res@[a] == r0[a]);
                            assert(!t0[b as int]);
                            assert(gs@[b as int].count <= r0[a].count);
                        } else {
                            assert(res@[a] == r0[a]);
                            assert(res@[bb] == r0[bb]);
                        }
                    }
                    assert forall|i: int, g: int|
                        0 <= i < res.len() && 0 <= g < n && !taken@[g] implies #[trigger] gs@[g].count <= #[trigger] res@[i].count by {
                        assert(taken@[g] == t0[g]);
                        if i < r0.len() {
                            assert(res@[i] == r0[i]);
                        }
                    }
                }
            },
        }
    }
    proof {
        assert forall|g: int| 0 <= g < gs@.len() && !sel.contains(g) implies res@.len() == 10 && #[trigger] gs@[g].count <= res@[9].count by {
            assert(!taken@[g]);
            assert(!done);
        }
    }
    (res, Ghost(sel))
}

/// The finished listens of one artist.
struct ArtistGroup {
    artist_name: String,
    total: i64,
    skipped: i64,
}

/// `gs` groups the finished listens of the user among `rows[..n]` by artist.
spec fn artist_groups_ok(rows: Seq<ClassificationView>, user_id: Seq<char>, gs: Seq<ArtistGroup>, n: int) -> bool {
    &&& forall|a: int, b: int| 0 <= a < b < gs.len() ==> gs[a].artist_name@ != gs[b].artist_name@
    &&& forall|g: int|
        0 <= g < gs.len() ==> #[trigger] gs[g].total == count_rows(
            rows.take(n),
            artist_ended_pred(user_id, gs[g].artist_name@),
        ) && gs[g].skipped == count_rows(rows.take(n), artist_skipped_pred(user_id, gs[g].artist_name@))
    &&& forall|k: int|
        0 <= k < n && #[trigger] ended_pred(user_id)(rows[k]) ==> exists|g: int|
            0 <= g < gs.len() && #[trigger] gs[g].artist_name@ == rows[k].artist_name
}

fn find_artist_group(gs: &Vec<ArtistGroup>, name: &String) -> (r: Option<usize>)
    ensures
        match r {
            Some(j) => j < gs@.len() && gs@[j as int].artist_name@ == name@,
            None => forall|g: int| 0 <= g < gs@.len() ==> gs@[g].artist_name@ != name@,
        },
{
    let mut j: usize = 0;
    while j < gs.len()
        invariant
            j <= gs@.len(),
            forall|g: int| 0 <= g < j ==> gs@[g].artist_name@ != name@,
        decreases gs.len() - j,
    {
        if gs[j].artist_name == *name {
            return Some(j);
        }
        j = j + 1;
    }
    None
}

proof fn lemma_artist_counts_step(
    rows: Seq<ClassificationView>,
    user_id: Seq<char>,
    name: Seq<char>,
    i: int,
)
    requires
        0 <= i < rows.len(),
    ensures
        count_rows(rows.take(i + 1), artist_ended_pred(user_id, name)) == count_rows(
            rows.take(i),
            artist_ended_pred(user_id, name),
        ) + if artist_ended_pred(user_id, name)(rows[i]) {
            1nat
        } else {
            0nat
        },
        count_rows(rows.take(i + 1), artist_skipped_pred(user_id, name)) == count_rows(
            rows.take(i),
            artist_skipped_pred(user_id, name),
        ) + if artist_skipped_pred(user_id, name)(rows[i]) {
            1nat
        } else {
            0nat
        },
        count_rows(rows.take(i), artist_ended_pred(user_id, name)) <= i,
        count_rows(rows.take(i), artist_skipped_pred(user_id, name)) <= i,
{
    lemma_count_step(rows, artist_ended_pred(user_id, name), i);
    lemma_count_step(rows, artist_skipped_pred(user_id, name), i);
    lemma_count_le(rows.take(i), artist_ended_pred(user_id, name));
    lemma_count_le(rows.take(i), artist_skipped_pred(user_id, name));
}

/// The user's finished listens grouped by artist, with their totals and skips.
#[verifier::spinoff_prover]
fn artist_groups(db: &Database, user_id: &str) -> (gs: Vec<ArtistGroup>)
    requires
        db.wf(),
    ensures
        artist_groups_ok(db@.classifications, user_id@, gs@, db@.classifications.len() as int),
{
    let ghost rows = db@.classifications;
    let user = user_id.to_owned();
    let mut gs: Vec<ArtistGroup> = Vec::new();
    let mut i: usize = 0;
    while i < db.classifications.len()
        invariant
            db.wf(),
            rows == db@.classifications,
            rows == class_views(db.classifications@),
            user@ == user_id@,
            i <= rows.len(),
            artist_groups_ok(rows, user_id@, gs@, i as int),
        decreases db.classifications.len() - i,
    {
        let row = &db.classifications[i];
        let ghost g0 = gs@;
        proof {
            assert(rows[i as int] == row@);
        }
        if row.user_id == user && row.ended_at.is_some() {
            let sk: i64 = if row.skipped == Some(true) { 1 } else { 0 };
            match find_artist_group(&gs, &row.artist_name) {
                Some(j) => {
                    proof {
                        lemma_artist_counts_step(rows, user_id@, g0[j as int].artist_name@, i as int);
                    }
                    let g = ArtistGroup {
                        artist_name: gs[j].artist_name.clone(),
                        total: gs[j].total + 1,
                        skipped: gs[j].skipped + sk,
                    };
                    gs.set(j, g);
                    proof {
                        let g1 = gs@;
                        assert forall|a: int, b: int| 0 <= a < b < g1.len() implies g1[a].artist_name@
                            != g1[b].artist_name@ by {
                            assert(g1[a].artist_name@ == g0[a].artist_name@);
                            assert(g1[b].artist_name@ == g0[b].artist_name@);
                        }
                        assert forall|h: int| 0 <= h < g1.len() implies #[trigger] g1[h].total == count_rows(
                            rows.take(i + 1),
                            artist_ended_pred(user_id@, g1[h].artist_name@),
                        ) && g1[h].skipped == count_rows(rows.take(i + 1), artist_skipped_pred(user_id@, g1[h].artist_name@)) by {
                            lemma_artist_counts_step(rows, user_id@, g0[h].artist_name@, i as int);
                            assert(g1[h].artist_name@ == g0[h].artist_name@);
                        }
                        assert forall|k: int| 0 <= k < i + 1 && #[trigger] ended_pred(user_id@)(rows[k])
                            implies exists|g: int| 0 <= g < g1.len() && #[trigger] g1[g].artist_name@ == rows[k].artist_name by {
                            if k < i {
                                let g = choose|g: int| 0 <= g < g0.len() && #[trigger] g0[g].artist_name@ == rows[k].artist_name;
                                assert(g1[g].artist_name@ == g0[g].artist_name@);
                            } else {
                                assert(g1[j as int].artist_name@ == rows[k].artist_name);
                            }
                        }
                    }
                },
                None => {
                    proof {
                        assert forall|k: int| 0 <= k < i implies !(#[trigger] artist_ended_pred(user_id@, row@.artist_name)(rows.take(i as int)[k])) by {
                            assert(rows.take(i as int)[k] == rows[k]);
                            if artist_ended_pred(user_id@, row@.artist_name)(rows[k]) {
                                assert(ended_pred(user_id@)(rows[k]));
                                let g = choose|g: int| 0 <= g < g0.len() && #[trigger] g0[g].artist_name@ == rows[k].artist_name;
                            }
                        }
                        lemma_count_zero(rows.take(i as int), artist_ended_pred(user_id@, row@.artist_name));
                        lemma_count_mono(
                            rows.take(i as int),
                            artist_skipped_pred(user_id@, row@.artist_name),
                            artist_ended_pred(user_id@, row@.artist_name),
                        );
                    }
                    let g = ArtistGroup { artist_name: row.artist_name.clone(), total: 1, skipped: sk };
                    gs.push(g);
                    proof {
                        let g1 = gs@;
                        let n = g0.len() as int;
                        assert(g1[n] == g);
                        assert forall|h: int| 0 <= h < g1.len() implies #[trigger] g1[h].total == count_rows(
                            rows.take(i + 1),
                            artist_ended_pred(user_id@, g1[h].artist_name@),
                        ) && g1[h].skipped == count_rows(rows.take(i + 1), artist_skipped_pred(user_id@, g1[h].artist_name@)) by {
                            if h < n {
                                assert(g1[h] == g0[h]);
                            }
                            lemma_artist_counts_step(rows, user_id@, g1[h].artist_name@, i as int);
                        }
                        assert forall|k: int| 0 <= k < i + 1 && #[trigger] ended_pred(user_id@)(rows[k])
                            implies exists|g: int| 0 <= g < g1.len() && #[trigger] g1[g].artist_name@ == rows[k].artist_name by {
                            if k < i {
                                let g = choose|g: int| 0 <= g < g0.len() && #[trigger] g0[g].artist_name@ == rows[k].artist_name;
                                assert(g1[g] == g0[g]);
                            } else {
                                assert(g1[n].artist_name@ == rows[k].artist_name);
                            }
                        }
                    }
                },
            }
        } else {
            proof {
                assert(!ended_pred(user_id@)(rows[i as int]));
                assert forall|h: int| 0 <= h < g0.len() implies #[trigger] g0[h].total == count_rows(
                    rows.take(i + 1),
                    artist_ended_pred(user_id@, g0[h].artist_name@),
                ) && g0[h].skipped == count_rows(rows.take(i + 1), artist_skipped_pred(user_id@, g0[h].artist_name@)) by {
                    lemma_artist_counts_step(rows, user_id@, g0[h].artist_name@, i as int);
                }
                assert forall|k: int| 0 <= k < i + 1 && #[trigger] ended_pred(user_id@)(rows[k])
                    implies exists|g: int| 0 <= g < g0.len() && #[trigger] g0[g].artist_name@ == rows[k].artist_name by {
                    if k == i {
                        assert(false);
                    }
                }
            }
        }
        i = i + 1;
    }
    assert(rows.take(rows.len() as int) == rows);
    gs
}

proof fn lemma_rate_trans(ms: int, mt: int, bs: int, bt: int, js: int, jt: int)
    requires
        mt > 0,
        bt > 0,
        jt > 0,
        rate_le(ms, mt, bs, bt),
        bs * jt < js * bt,
    ensures
        rate_le(ms, mt, js, jt),
{
    assert(ms * bt * jt <= bs * mt * jt) by (nonlinear_arith)
        requires
            ms * bt <= bs * mt,
            jt > 0,
    ;
    assert(bs * jt * mt < js * bt * mt) by (nonlinear_arith)
        requires
            bs * jt < js * bt,
            mt > 0,
    ;
    assert(ms * jt * bt <= js * mt * bt) by (nonlinear_arith)
        requires
            ms * bt * jt <= bs * mt * jt,
            bs * jt * mt < js * bt * mt,
    ;
    assert(ms * jt <= js * mt) by (nonlinear_arith)
        requires
            ms * jt * bt <= js * mt * bt,
            bt > 0,
    ;
}

proof fn lemma_product_fits(a: int, b: int)
    requires
        0 <= a <= i64::MAX,
        0 <= b <= i64::MAX,
    ensures
        0 <= a * b <= i64::MAX * i64::MAX,
{
    assert(0 <= a * b <= i64::MAX * i64::MAX) by (nonlinear_arith)
        requires
            0 <= a <= i64::MAX,
            0 <= b <= i64::MAX,
    ;
}

/// Group `g` takes part in the artist ranking.
spec fn eligible(gs: Seq<ArtistGroup>, g: int) -> bool {
    gs[g].total >= 3
}

/// The picks `sel` rank, highest skip rate first, up to ten eligible groups
/// of `gs`; `res` describes them. An eligible group left out has a rate no
/// higher than the last pick, and only when ten were picked.
spec fn artist_pick_ok(gs: Seq<ArtistGroup>, res: Seq<ArtistSkipRate>, sel: Seq<int>) -> bool {
    &&& sel.len() == res.len()
    &&& res.len() <= 10
    &&& forall|i: int| 0 <= i < sel.len() ==> 0 <= #[trigger] sel[i] < gs.len() && eligible(gs, sel[i])
    &&& forall|a: int, b: int| 0 <= a < b < sel.len() ==> sel[a] != sel[b]
    &&& forall|i: int|
        0 <= i < res.len() ==> #[trigger] res[i].total == gs[sel[i]].total && res[i].skipped
            == gs[sel[i]].skipped && res[i].artist_name@ == gs[sel[i]].artist_name@
    &&& forall|a: int, b: int|
        0 <= a < b < res.len() ==> rate_le(
            res[b].skipped as int,
            res[b].total as int,
            res[a].skipped as int,
            res[a].total as int,
        )
    &&& forall|g: int|
        0 <= g < gs.len() && eligible(gs, g) && !sel.contains(g) ==> res.len() == 10 && rate_le(
            #[trigger] gs[g].skipped as int,
            gs[g].total as int,
            res[9].skipped as int,
            res[9].total as int,
        )
}

#[verifier::spinoff_prover]
fn top_artists_of(gs: &Vec<ArtistGroup>) -> (r: (Vec<ArtistSkipRate>, Ghost<Seq<int>>))
    requires
        forall|g: int| 0 <= g < gs@.len() ==> 0 <= #[trigger] gs@[g].skipped && 0 <= gs@[g].total,
    ensures
        artist_pick_ok(gs@, r.0@, r.1@),
{
    let n = gs.len();
    let mut taken: Vec<bool> = Vec::new();
    while taken.len() < n
        invariant
            taken.len() <= n,
            forall|g: int| 0 <= g < taken.len() ==> !taken@[g],
        decreases n - taken.len(),
    {
        taken.push(false);
    }
    let mut res: Vec<ArtistSkipRate> = Vec::new();
    let ghost mut sel: Seq<int> = Seq::empty();
    let mut done = false;
    while !done && res.len() < 10
        invariant
            n == gs@.len(),
            forall|g: int| 0 <= g < gs@.len() ==> 0 <= #[trigger] gs@[g].skipped && 0 <= gs@[g].total,
            taken.len() == n,
            sel.len() == res.len(),
            res.len() <= 10,
            forall|g: int| 0 <= g < n ==> (taken@[g] <==> sel.contains(g)),
            forall|i: int| 0 <= i < sel.len() ==> 0 <= #[trigger] sel[i] < n && eligible(gs@, sel[i]),
            forall|a: int, b: int| 0 <= a < b < sel.len() ==> sel[a] != sel[b],
            forall|i: int|
                0 <= i < res.len() ==> #[trigger] res@[i].total == gs@[sel[i]].total && res@[i].skipped
                    == gs@[sel[i]].skipped && res@[i].artist_name@ == gs@[sel[i]].artist_name@,
            forall|a: int, b: int|
                0 <= a < b < res.len() ==> rate_le(
                    res@[b].skipped as int,
                    res@[b].total as int,
                    res@[a].skipped as int,
                    res@[a].total as int,
                ),
            forall|i: int, g: int|
                0 <= i < res.len() && 0 <= g < n && eligible(gs@, g) && !taken@[g] ==> rate_le(
                    #[trigger] gs@[g].skipped as int,
                    gs@[g].total as int,
                    #[trigger] res@[i].skipped as int,
                    res@[i].total as int,
                ),
            done ==> forall|g: int| 0 <= g < n && eligible(gs@, g) ==> taken@[g],
        decreases 10 - res.len() + if done { 0int } else { 1int },
    {
        let mut best: Option<usize> = None;
        let mut j: usize = 0;
        while j < n
            invariant
                n == gs@.len(),
                forall|g: int| 0 <= g < gs@.len() ==> 0 <= #[trigger] gs@[g].skipped && 0 <= gs@[g].total,
                taken.len() == n,
                j <= n,
                match best {
                    Some(b) => b < n && !taken@[b as int] && eligible(gs@, b as int) && forall|m: int|
                        0 <= m < j && eligible(gs@, m) && !taken@[m] ==> rate_le(
                            #[trigger] gs@[m].skipped as int,
                            gs@[m].total as int,
                            gs@[b as int].skipped as int,
                            gs@[b as int].total as int,
                        ),
                    None => forall|m: int| 0 <= m < j && eligible(gs@, m) ==> taken@[m],
                },
            decreases n - j,
        {
            if !taken[j] && gs[j].total >= 3 {
                match best {
                    None => {
                        best = Some(j);
                    },
                    Some(b) => {
                        proof {
                            lemma_product_fits(gs@[j as int].skipped as int, gs@[b as int].total as int);
                            lemma_product_fits(gs@[b as int].skipped as int, gs@[j as int].total as int);
                        }
                        let lhs = (gs[j].skipped as i128) * (gs[b].total as i128);
                        let rhs = (gs[b].skipped as i128) * (gs[j].total as i128);
                        if lhs > rhs {
                            proof {
                                assert forall|m: int|
                                    0 <= m < j + 1 && eligible(gs@, m) && !taken@[m] implies rate_le(
                                    #[trigger] gs@[m].skipped as int,
                                    gs@[m].total as int,
                                    gs@[j as int].skipped as int,
                                    gs@[j as int].total as int,
                                ) by {
                                    if m < j {
                                        lemma_rate_trans(
                                            gs@[m].skipped as int,
                                            gs@[m].total as int,
                                            gs@[b as int].skipped as int,
                                            gs@[b as int].total as int,
                                            gs@[j as int].skipped as int,
                                            gs@[j as int].total as int,
                                        );
                                    }
                                }
                            }
                            best = Some(j);
                        }
                    },
                }
            }
            j = j + 1;
        }
        assert(forall|i: int|
            0 <= i < res.len() ==> #[trigger] res@[i].total == gs@[sel[i]].total && res@[i].skipped
                == gs@[sel[i]].skipped && res@[i].artist_name@ == gs@[sel[i]].artist_name@);
        match best {
            None => {
                done = true;
            },
            Some(b) => {
                let ghost t0 = taken@;
                let ghost r0 = res@;
                taken.set(b, true);
                let ar = ArtistSkipRate {
                    artist_name: gs[b].artist_name.clone(),
                    total: gs[b].total,
                    skipped: gs[b].skipped,
                };
                res.push(ar);
                proof {
                    let s0 = sel;
                    sel = sel.push(b as int);
                    assert(!s0.contains(b as int));
                    assert forall|g: int| 0 <= g < n implies (taken@[g] <==> sel.contains(g)) by {
                        if g == b {
                            assert(sel[s0.len() as int] == g);
                        } else {
                            assert(taken@[g] == t0[g]);
                            if s0.contains(g) {
                                let i = choose|i: int| 0 <= i < s0.len() && s0[i] == g;
                                assert(sel[i] == g);
                            }
                            if sel.contains(g) {
                                let i = choose|i: int| 0 <= i < sel.len() && sel[i] == g;
                                assert(s0[i] == g);
                            }
                        }
                    }
                    assert forall|i: int| 0 <= i < res.len() implies #[trigger] res@[i].total == gs@[sel[i]].total && res@[i].skipped
                        == gs@[sel[i]].skipped && res@[i].artist_name@ == gs@[sel[i]].artist_name@ by {
                        if i < r0.len() {
                            assert(res@[i] == r0[i]);
                            assert(sel[i] == s0[i]);
                        } else {
                            assert(res@[i] == ar);
                            assert(sel[i] == b as int);
                        }
                    }
                    assert forall|a: int, bb: int| 0 <= a < bb < res.len() implies rate_le(
                        res@[bb].skipped as int,
                        res@[bb].total as int,
                        res@[a].skipped as int,
                        res@[a].total as int,
                    ) by {
                        assert(res@[a] == r0[a]);
                        if bb == r0.len() {
                            assert(res@[bb] == ar);
                            assert(!t0[b as int]);
                            assert(rate_le(gs@[b as int].skipped as int, gs@[b as int].total as int, r0[a].skipped as int, r0[a].total as int));
                        } else {
                            assert(res@[bb] == r0[bb]);
                        }
                    }
                    assert forall|i: int, g: int|
                        0 <= i < res.len() && 0 <= g < n && eligible(gs@, g) && !taken@[g] implies rate_le(
                        #[trigger] gs@[g].skipped as int,
                        gs@[g].total as int,
                        #[trigger] res@[i].skipped as int,
                        res@[i].total as int,
                    ) by {
                        assert(taken@[g] == t0[g]);
                        if i < r0.len() {
                            assert(res@[i] == r0[i]);
                        } else {
                            assert(res@[i] == ar);
                        }
                    }
                    assert forall|i: int| 0 <= i < sel.len() implies 0 <= #[trigger] sel[i] < n && eligible(gs@, sel[i]) by {
                        if i < s0.len() {
                            assert(sel[i] == s0[i]);
                        }
                    }
                }
            },
        }
    }
    proof {
        assert forall|g: int| 0 <= g < gs@.len() && eligible(gs@, g) && !sel.contains(g) implies res@.len() == 10 && rate_le(
            #[trigger] gs@[g].skipped as int,
            gs@[g].total as int,
            res@[9].skipped as int,
            res@[9].total as int,
        ) by {
            assert(!taken@[g]);
            assert(!done);
        }
    }
    (res, Ghost(sel))
}

proof fn lemma_count_mono_rows(
    rows: Seq<ClassificationView>,
    p: spec_fn(ClassificationView) -> bool,
    q: spec_fn(ClassificationView) -> bool,
)
    requires
        forall|i: int| 0 <= i < rows.len() && #[trigger] p(rows[i]) ==> q(rows[i]),
    ensures
        count_rows(rows, p) <= count_rows(rows, q),
    decreases rows.len(),
{
    if rows.len() > 0 {
        let d = rows.drop_last();
        assert forall|i: int| 0 <= i < d.len() && #[trigger] p(d[i]) implies q(d[i]) by {
            assert(d[i] == rows[i]);
        }
        lemma_count_mono_rows(d, p, q);
    }
}

proof fn lemma_top_skipped(
    rows: Seq<ClassificationView>,
    user_id: Seq<char>,
    gs: Seq<SkipGroup>,
    res: Seq<TrackCount>,
    sel: Seq<int>,
)
    requires
        skip_groups_ok(rows, user_id, gs, rows.len() as int),
        top_pick_ok(gs, res, sel),
    ensures
        top_skipped_ok(rows, user_id, res),
{
    assert(rows.take(rows.len() as int) == rows);
    let ids = Seq::new(sel.len(), |i: int| gs[sel[i]].track_id@);
    assert forall|i: int| 0 <= i < res.len() implies #[trigger] res[i].count == count_rows(
        rows,
        track_skipped_pred(user_id, ids[i]),
    ) by {
        assert(gs[sel[i]].count == count_rows(rows.take(rows.len() as int), track_skipped_pred(user_id, gs[sel[i]].track_id@)));
    }
    assert forall|i: int| 0 <= i < res.len() implies #[trigger] group_witnessed(
        rows,
        user_id,
        ids[i],
        res[i].track_name@,
        res[i].artist_name@,
        rows.len() as int,
    ) by {
        assert(res[i].count == gs[sel[i]].count);
        assert(0 <= sel[i] < gs.len());
    }
    assert forall|a: int, b: int| 0 <= a < b < ids.len() implies ids[a] != ids[b] by {
        assert(sel[a] != sel[b]);
        if sel[a] < sel[b] {
            assert(gs[sel[a]].track_id@ != gs[sel[b]].track_id@);
        } else {
            assert(gs[sel[b]].track_id@ != gs[sel[a]].track_id@);
        }
    }
    assert forall|k: int|
        0 <= k < rows.len() && #[trigger] skipped_pred(user_id)(rows[k]) && !ids.contains(rows[k].track_id)
            implies res.len() == 10 && count_rows(rows, track_skipped_pred(user_id, rows[k].track_id)) <= res[9].count by {
        let g = choose|g: int| 0 <= g < gs.len() && #[trigger] gs[g].track_id@ == rows[k].track_id;
        if sel.contains(g) {
            let i = choose|i: int| 0 <= i < sel.len() && sel[i] == g;
            assert(ids[i] == rows[k].track_id);
        }
        assert(gs[g].count == count_rows(rows.take(rows.len() as int), track_skipped_pred(user_id, gs[g].track_id@)));
    }
    assert(top_skipped_witness(rows, user_id, res, ids));
}

proof fn lemma_top_artists(
    rows: Seq<ClassificationView>,
    user_id: Seq<char>,
    gs: Seq<ArtistGroup>,
    res: Seq<ArtistSkipRate>,
    sel: Seq<int>,
)
    requires
        artist_groups_ok(rows, user_id, gs, rows.len() as int),
        artist_pick_ok(gs, res, sel),
    ensures
        top_artists_ok(rows, user_id, res),
{
    assert(rows.take(rows.len() as int) == rows);
    assert forall|a: int, b: int| 0 <= a < b < res.len() implies res[a].artist_name@ != res[b].artist_name@ by {
        assert(res[a].total == gs[sel[a]].total);
        assert(res[b].total == gs[sel[b]].total);
        assert(0 <= sel[a] < gs.len() && 0 <= sel[b] < gs.len());
        if sel[a] < sel[b] {
            assert(gs[sel[a]].artist_name@ != gs[sel[b]].artist_name@);
        } else {
            assert(gs[sel[b]].artist_name@ != gs[sel[a]].artist_name@);
        }
    }
    assert forall|i: int| 0 <= i < res.len() implies #[trigger] res[i].total == count_rows(
        rows,
        artist_ended_pred(user_id, res[i].artist_name@),
    ) && res[i].total >= 3 && res[i].skipped == count_rows(
        rows,
        artist_skipped_pred(user_id, res[i].artist_name@),
    ) by {
        let g = sel[i];
        assert(res[i].total == gs[sel[i]].total);
        assert(0 <= sel[i] < gs.len());
        assert(gs[g].total == count_rows(rows.take(rows.len() as int), artist_ended_pred(user_id, gs[g].artist_name@)));
        assert(eligible(gs, g));
    }
    assert forall|k: int|
        0 <= k < rows.len() && #[trigger] ended_pred(user_id)(rows[k]) && count_rows(
            rows,
            artist_ended_pred(user_id, rows[k].artist_name),
        ) >= 3 && (forall|i: int| 0 <= i < res.len() ==> res[i].artist_name@ != rows[k].artist_name)
        implies res.len() == 10 && rate_le(
            count_rows(rows, artist_skipped_pred(user_id, rows[k].artist_name)) as int,
            count_rows(rows, artist_ended_pred(user_id, rows[k].artist_name)) as int,
            res[9].skipped as int,
            res[9].total as int,
        ) by {
        let g = choose|g: int| 0 <= g < gs.len() && #[trigger] gs[g].artist_name@ == rows[k].artist_name;
        assert(gs[g].total == count_rows(rows.take(rows.len() as int), artist_ended_pred(user_id, gs[g].artist_name@)));
        if sel.contains(g) {
            let i = choose|i: int| 0 <= i < sel.len() && sel[i] == g;
            assert(res[i].total == gs[sel[i]].total);
            assert(res[i].artist_name@ == gs[g].artist_name@);
        }
        assert(eligible(gs, g));
    }
}

/// The user's listening statistics: finished listens, skips, the most
/// skipped tracks and the artists skipped at the highest rate.
pub fn get_stats(db: &Database, user_id: &str) -> (st: Stats)
    requires
        db.wf(),
    ensures
        st.total_listens == count_rows(db@.classifications, ended_pred(user_id@)),
        st.skipped == count_rows(db@.classifications, skipped_pred(user_id@)),
        st.completed == st.total_listens - st.skipped,
        0 <= st.skipped <= st.total_listens,
        top_skipped_ok(db@.classifications, user_id@, st.top_skipped@),
        top_artists_ok(db@.classifications, user_id@, st.top_artists_by_skip_rate@),
{
    let ghost rows = db@.classifications;
    let (total, skipped) = count_listens(db, user_id);
    proof {
        assert forall|i: int| 0 <= i < rows.len() && #[trigger] skipped_pred(user_id@)(rows[i]) implies ended_pred(
            user_id@,
        )(rows[i]) by {
            assert(rows[i].skipped is Some);
        }
        lemma_count_mono_rows(rows, skipped_pred(user_id@), ended_pred(user_id@));
    }
    let completed = total - skipped;
    let sg = skip_groups(db, user_id);
    let (top_skipped, Ghost(sel1)) = top_skipped_of(&sg);
    proof {
        lemma_top_skipped(rows, user_id@, sg@, top_skipped@, sel1);
    }
    let ag = artist_groups(db, user_id);
    proof {
        assert forall|g: int| 0 <= g < ag@.len() implies 0 <= #[trigger] ag@[g].skipped && 0 <= ag@[g].total by {
            assert(ag@[g].total == count_rows(rows.take(rows.len() as int), artist_ended_pred(user_id@, ag@[g].artist_name@)));
        }
    }
    let (top_artists, Ghost(sel2)) = top_artists_of(&ag);
    proof {
        lemma_top_artists(rows, user_id@, ag@, top_artists@, sel2);
    }
    Stats {
        total_listens: total,
        completed,
        skipped,
        top_skipped,
        top_artists_by_skip_rate: top_artists,
    }
}

// ------------------------------------------------------------------- laws

/// A listen just opened is found by a range query of its user that covers
/// its start (a read gives back what was written).
pub proof fn lemma_opened_listen_in_range(
    rows: Seq<ClassificationView>,
    row: ClassificationView,
    user_id: Seq<char>,
    from: i64,
    to: i64,
)
    requires
        row.user_id == user_id,
        from <= row.started_at <= to,
    ensures
        rows.push(row).filter(window_pred(user_id, from, to)).contains(row),
        rows.push(row).filter(window_pred(user_id, from, to)).to_multiset().count(row) > 0,
{
    rows.lemma_filter_push(row, window_pred(user_id, from, to));
    let f = rows.filter(window_pred(user_id, from, to));
    assert(f.push(row)[f.len() as int] == row);
    f.push(row).to_multiset_ensures();
}

/// Closing the listen that `open_classification` just added sets its end,
/// listened time and verdict, and changes no other row.
pub proof fn lemma_close_after_open(
    d: DatabaseView,
    row: ClassificationView,
    ended_at: i64,
    listened_ms: i64,
    skipped: bool,
)
    requires
        db_wf(d),
        row.id == d.last_classification_id + 1,
    ensures
        ({
            let after = closed_rows(d.classifications.push(row), row.id, ended_at, listened_ms, skipped);
            &&& after.len() == d.classifications.len() + 1
            &&& after[d.classifications.len() as int] == (ClassificationView {
                ended_at: Some(ended_at),
                listened_ms,
                skipped: Some(skipped),
                ..row
            })
            &&& forall|i: int| 0 <= i < d.classifications.len() ==> after[i] == d.classifications[i]
        }),
{
    let n = d.classifications.len() as int;
    let rows = d.classifications.push(row);
    assert forall|i: int| 0 <= i < n implies rows[i].id != row.id by {
        assert(rows[i] == d.classifications[i]);
    }
}

/// Upserting a user twice leaves one row for the user, with the second
/// name and tokens and the creation time of the first.
pub proof fn lemma_upsert_twice(
    users: Seq<UserView>,
    id: Seq<char>,
    name1: Seq<char>,
    tokens1: Seq<char>,
    now1: i64,
    name2: Seq<char>,
    tokens2: Seq<char>,
    now2: i64,
)
    requires
        users_unique(users),
    ensures
        ({
            let u1 = upserted(users, id, name1, tokens1, now1);
            let u2 = upserted(u1, id, name2, tokens2, now2);
            &&& u2.len() == u1.len()
            &&& u1.len() == users.len() || u1.len() == users.len() + 1
            &&& exists|i: int|
                0 <= i < u2.len() && #[trigger] u2[i].spotify_id == id && u2[i].display_name == name2
                    && u2[i].tokens == tokens2 && u2[i].created_at == u1[i].created_at
        }),
{
    let u1 = upserted(users, id, name1, tokens1, now1);
    let i1 = match user_index(users, id) {
        Some(i) => i,
        None => users.len() as int,
    };
    assert(u1[i1].spotify_id == id);
    assert(user_index(u1, id) is Some);
    let j = user_index(u1, id).unwrap();
    let u2 = upserted(u1, id, name2, tokens2, now2);
    assert(u2[j].spotify_id == id && u2[j].display_name == name2);
}

/// A listen just opened counts as started near its own start.
pub proof fn lemma_opened_listen_is_near(
    rows: Seq<ClassificationView>,
    row: ClassificationView,
    tolerance: i64,
)
    requires
        tolerance >= 0,
    ensures
        exists|i: int|
            0 <= i < rows.push(row).len() && #[trigger] started_near(
                rows.push(row)[i],
                row.user_id,
                row.track_id,
                row.started_at,
                tolerance,
            ),
{
    let n = rows.len() as int;
    assert(started_near(rows.push(row)[n], row.user_id, row.track_id, row.started_at, tolerance));
}

/// `count_rows` counts what a filter keeps.
proof fn lemma_count_is_filter_len(rows: Seq<ClassificationView>, p: spec_fn(ClassificationView) -> bool)
    ensures
        count_rows(rows, p) == rows.filter(p).len(),
    decreases rows.len(),
{
    reveal(Seq::filter);
    if rows.len() > 0 {
        lemma_count_is_filter_len(rows.drop_last(), p);
    }
}

/// A row that `p` rejects, added at the end, changes no count.
proof fn lemma_count_push_other(rows: Seq<ClassificationView>, p: spec_fn(ClassificationView) -> bool, r: ClassificationView)
    requires
        !p(r),
    ensures
        count_rows(rows.push(r), p) == count_rows(rows, p),
{
    assert(rows.push(r).drop_last() =~= rows);
}

/// The statistics count the user's own rows only: the finished listens are
/// the user's rows with an end, and the skips the user's rows marked
/// skipped.
pub proof fn lemma_stats_count_user_rows(rows: Seq<ClassificationView>, user_id: Seq<char>)
    ensures
        count_rows(rows, ended_pred(user_id)) == rows.filter(
            |r: ClassificationView| r.user_id == user_id && r.ended_at is Some,
        ).len(),
        count_rows(rows, skipped_pred(user_id)) == rows.filter(
            |r: ClassificationView| r.user_id == user_id && r.skipped == Some(true),
        ).len(),
{
    lemma_count_is_filter_len(rows, ended_pred(user_id));
    lemma_count_is_filter_len(rows, skipped_pred(user_id));
    assert(ended_pred(user_id) =~= (|r: ClassificationView| r.user_id == user_id && r.ended_at is Some));
    assert(skipped_pred(user_id) =~= (|r: ClassificationView| r.user_id == user_id && r.skipped == Some(true)));
}

/// A listen of another user leaves a user's statistics as they were: the
/// counts of finished and skipped listens, the most-skipped tracks and the
/// artists by skip rate.
pub proof fn lemma_stats_ignore_other_users(
    rows: Seq<ClassificationView>,
    user_id: Seq<char>,
    r: ClassificationView,
    top: Seq<TrackCount>,
    artists: Seq<ArtistSkipRate>,
)
    requires
        r.user_id != user_id,
    ensures
        count_rows(rows.push(r), ended_pred(user_id)) == count_rows(rows, ended_pred(user_id)),
        count_rows(rows.push(r), skipped_pred(user_id)) == count_rows(rows, skipped_pred(user_id)),
        top_skipped_ok(rows.push(r), user_id, top) <==> top_skipped_ok(rows, user_id, top),
        top_artists_ok(rows.push(r), user_id, artists) <==> top_artists_ok(rows, user_id, artists),
{
    let rows2 = rows.push(r);
    let n = rows.len() as int;
    assert(!ended_pred(user_id)(r));
    assert(!skipped_pred(user_id)(r));
    lemma_count_push_other(rows, ended_pred(user_id), r);
    lemma_count_push_other(rows, skipped_pred(user_id), r);
    assert forall|t: Seq<char>| #[trigger] count_rows(rows2, track_skipped_pred(user_id, t)) == count_rows(
        rows,
        track_skipped_pred(user_id, t),
    ) by {
        assert(!track_skipped_pred(user_id, t)(r));
        lemma_count_push_other(rows, track_skipped_pred(user_id, t), r);
    }
    assert forall|a: Seq<char>| #[trigger] count_rows(rows2, artist_ended_pred(user_id, a)) == count_rows(
        rows,
        artist_ended_pred(user_id, a),
    ) by {
        assert(!artist_ended_pred(user_id, a)(r));
        lemma_count_push_other(rows, artist_ended_pred(user_id, a), r);
    }
    assert forall|a: Seq<char>| #[trigger] count_rows(rows2, artist_skipped_pred(user_id, a)) == count_rows(
        rows,
        artist_skipped_pred(user_id, a),
    ) by {
        assert(!artist_skipped_pred(user_id, a)(r));
        lemma_count_push_other(rows, artist_skipped_pred(user_id, a), r);
    }
    assert forall|t: Seq<char>, tn: Seq<char>, an: Seq<char>|
        #[trigger] group_witnessed(rows2, user_id, t, tn, an, n + 1) == group_witnessed(rows, user_id, t, tn, an, n) by {
        if group_witnessed(rows2, user_id, t, tn, an, n + 1) {
            let k = choose|k: int|
                0 <= k < n + 1 && #[trigger] track_skipped_pred(user_id, t)(rows2[k]) && rows2[k].track_name == tn
                    && rows2[k].artist_name == an;
            assert(k < n);
            assert(rows2[k] == rows[k]);
            assert(track_skipped_pred(user_id, t)(rows[k]));
        }
        if group_witnessed(rows, user_id, t, tn, an, n) {
            let k = choose|k: int|
                0 <= k < n && #[trigger] track_skipped_pred(user_id, t)(rows[k]) && rows[k].track_name == tn
                    && rows[k].artist_name == an;
            assert(rows2[k] == rows[k]);
            assert(track_skipped_pred(user_id, t)(rows2[k]));
        }
    }
    assert forall|ids: Seq<Seq<char>>|
        #[trigger] top_skipped_witness(rows2, user_id, top, ids) == top_skipped_witness(rows, user_id, top, ids) by {
        if top_skipped_witness(rows2, user_id, top, ids) {
            assert forall|i: int| 0 <= i < top.len() implies #[trigger] group_witnessed(
                rows,
                user_id,
                ids[i],
                top[i].track_name@,
                top[i].artist_name@,
                rows.len() as int,
            ) by {
                assert(group_witnessed(rows2, user_id, ids[i], top[i].track_name@, top[i].artist_name@, n + 1));
            }
            assert forall|k: int|
                0 <= k < rows.len() && #[trigger] skipped_pred(user_id)(rows[k]) && !ids.contains(rows[k].track_id)
                    implies top.len() == 10 && count_rows(rows, track_skipped_pred(user_id, rows[k].track_id))
                    <= top[9].count by {
                assert(rows2[k] == rows[k]);
                assert(skipped_pred(user_id)(rows2[k]));
            }
        }
        if top_skipped_witness(rows, user_id, top, ids) {
            assert forall|i: int| 0 <= i < top.len() implies #[trigger] group_witnessed(
                rows2,
                user_id,
                ids[i],
                top[i].track_name@,
                top[i].artist_name@,
                rows2.len() as int,
            ) by {
                assert(group_witnessed(rows, user_id, ids[i], top[i].track_name@, top[i].artist_name@, n));
            }
            assert forall|k: int|
                0 <= k < rows2.len() && #[trigger] skipped_pred(user_id)(rows2[k]) && !ids.contains(rows2[k].track_id)
                    implies top.len() == 10 && count_rows(rows2, track_skipped_pred(user_id, rows2[k].track_id))
                    <= top[9].count by {
                assert(k < n);
                assert(rows2[k] == rows[k]);
                assert(skipped_pred(user_id)(rows[k]));
            }
        }
    }
    if top_skipped_ok(rows2, user_id, top) {
        let ids = choose|ids: Seq<Seq<char>>| #[trigger] top_skipped_witness(rows2, user_id, top, ids);
        assert(top_skipped_witness(rows, user_id, top, ids));
    }
    if top_skipped_ok(rows, user_id, top) {
        let ids = choose|ids: Seq<Seq<char>>| #[trigger] top_skipped_witness(rows, user_id, top, ids);
        assert(top_skipped_witness(rows2, user_id, top, ids));
    }
    if top_artists_ok(rows2, user_id, artists) {
        assert forall|k: int|
            0 <= k < rows.len() && #[trigger] ended_pred(user_id)(rows[k]) && count_rows(
                rows,
                artist_ended_pred(user_id, rows[k].artist_name),
            ) >= 3 && (forall|i: int| 0 <= i < artists.len() ==> artists[i].artist_name@ != rows[k].artist_name)
                implies artists.len() == 10 && rate_le(
                count_rows(rows, artist_skipped_pred(user_id, rows[k].artist_name)) as int,
                count_rows(rows, artist_ended_pred(user_id, rows[k].artist_name)) as int,
                artists[9].skipped as int,
                artists[9].total as int,
            ) by {
            assert(rows2[k] == rows[k]);
            assert(ended_pred(user_id)(rows2[k]));
        }
    }
    if top_artists_ok(rows, user_id, artists) {
        assert forall|k: int|
            0 <= k < rows2.len() && #[trigger] ended_pred(user_id)(rows2[k]) && count_rows(
                rows2,
                artist_ended_pred(user_id, rows2[k].artist_name),
            ) >= 3 && (forall|i: int| 0 <= i < artists.len() ==> artists[i].artist_name@ != rows2[k].artist_name)
                implies artists.len() == 10 && rate_le(
                count_rows(rows2, artist_skipped_pred(user_id, rows2[k].artist_name)) as int,
                count_rows(rows2, artist_ended_pred(user_id, rows2[k].artist_name)) as int,
                artists[9].skipped as int,
                artists[9].total as int,
            ) by {
            assert(k < n);
            assert(rows2[k] == rows[k]);
            assert(ended_pred(user_id)(rows[k]));
        }
    }
}

} // verus!
