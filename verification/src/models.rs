//! The records the tracker reads from Spotify and keeps in its tables.
use vstd::prelude::*;
use vstd::string::*;

use crate::text::{opt_view, seq_join};

verus! {

/// What `/me/player` reports about the current playback.
pub struct PlaybackState {
    pub device: Option<Device>,
    pub shuffle_state: Option<bool>,
    pub repeat_state: Option<String>,
    pub timestamp: Option<i64>,
    pub context: Option<SpotifyContext>,
    pub progress_ms: Option<i64>,
    pub item: Option<TrackItem>,
    pub currently_playing_type: Option<String>,
    pub is_playing: bool,
}

/// The device that plays.
pub struct Device {
    pub id: Option<String>,
    pub name: Option<String>,
    pub device_type: Option<String>,
}

/// A track as Spotify describes it.
pub struct TrackItem {
    pub id: String,
    pub name: String,
    pub duration_ms: i64,
    pub artists: Vec<ArtistRef>,
    pub album: AlbumRef,
    pub uri: String,
}

/// An artist of a track.
pub struct ArtistRef {
    pub id: String,
    pub name: String,
}

/// The album of a track.
pub struct AlbumRef {
    pub id: String,
    pub name: String,
}

/// The playlist, album or collection a track was played from.
pub struct SpotifyContext {
    pub uri: Option<String>,
    pub context_type: Option<String>,
}

/// The answer of `/me/player/recently-played`.
pub struct RecentlyPlayedResponse {
    pub items: Vec<RecentlyPlayedItem>,
}

/// One finished play in the recently-played history.
pub struct RecentlyPlayedItem {
    pub track: TrackItem,
    pub played_at: String,
    pub context: Option<SpotifyContext>,
}

/// An OAuth token set, with the second at which it was issued.
pub struct TokenData {
    pub access_token: String,
    pub token_type: String,
    pub expires_in: i64,
    pub refresh_token: Option<String>,
    pub scope: Option<String>,
    pub created_at: i64,
}

/// The signed-in user's profile.
pub struct UserProfile {
    pub id: String,
    pub display_name: Option<String>,
}

/// One row of the `playback_events` table: a single poll.
pub struct PlaybackEvent {
    pub id: i64,
    pub user_id: String,
    pub track_id: String,
    pub track_name: String,
    pub artist_name: String,
    pub album_name: String,
    pub duration_ms: i64,
    pub progress_ms: i64,
    pub is_playing: bool,
    pub shuffle: bool,
    pub repeat_state: String,
    pub context_uri: Option<String>,
    pub device_name: Option<String>,
    pub polled_at: i64,
}

/// One row of the `classifications` table: a single listen.
pub struct Classification {
    pub id: i64,
    pub user_id: String,
    pub track_id: String,
    pub track_name: String,
    pub artist_name: String,
    pub album_name: String,
    pub started_at: i64,
    pub ended_at: Option<i64>,
    pub duration_ms: i64,
    pub listened_ms: i64,
    pub skipped: Option<bool>,
    pub context_uri: Option<String>,
}

/// Listening statistics of one user. The skip rates, which are ratios,
/// are left to the presentation layer: `skipped / total_listens`.
pub struct Stats {
    pub total_listens: i64,
    pub completed: i64,
    pub skipped: i64,
    pub top_skipped: Vec<TrackCount>,
    pub top_artists_by_skip_rate: Vec<ArtistSkipRate>,
}

/// How often a track was skipped.
pub struct TrackCount {
    pub track_name: String,
    pub artist_name: String,
    pub count: i64,
}

/// How often an artist's finished listens were skips (`skipped / total`).
pub struct ArtistSkipRate {
    pub artist_name: String,
    pub total: i64,
    pub skipped: i64,
}

/// A `playback_events` row as plain values.
pub struct PlaybackEventView {
    pub id: i64,
    pub user_id: Seq<char>,
    pub track_id: Seq<char>,
    pub track_name: Seq<char>,
    pub artist_name: Seq<char>,
    pub album_name: Seq<char>,
    pub duration_ms: i64,
    pub progress_ms: i64,
    pub is_playing: bool,
    pub shuffle: bool,
    pub repeat_state: Seq<char>,
    pub context_uri: Option<Seq<char>>,
    pub device_name: Option<Seq<char>>,
    pub polled_at: i64,
}

/// A `classifications` row as plain values.
pub struct ClassificationView {
    pub id: i64,
    pub user_id: Seq<char>,
    pub track_id: Seq<char>,
    pub track_name: Seq<char>,
    pub artist_name: Seq<char>,
    pub album_name: Seq<char>,
    pub started_at: i64,
    pub ended_at: Option<i64>,
    pub duration_ms: i64,
    pub listened_ms: i64,
    pub skipped: Option<bool>,
    pub context_uri: Option<Seq<char>>,
}

impl View for PlaybackEvent {
    type V = PlaybackEventView;

    open spec fn view(&self) -> PlaybackEventView {
        PlaybackEventView {
            id: self.id,
            user_id: self.user_id@,
            track_id: self.track_id@,
            track_name: self.track_name@,
            artist_name: self.artist_name@,
            album_name: self.album_name@,
            duration_ms: self.duration_ms,
            progress_ms: self.progress_ms,
            is_playing: self.is_playing,
            shuffle: self.shuffle,
            repeat_state: self.repeat_state@,
            context_uri: opt_view(self.context_uri),
            device_name: opt_view(self.device_name),
            polled_at: self.polled_at,
        }
    }
}

impl View for Classification {
    type V = ClassificationView;

    open spec fn view(&self) -> ClassificationView {
        ClassificationView {
            id: self.id,
            user_id: self.user_id@,
            track_id: self.track_id@,
            track_name: self.track_name@,
            artist_name: self.artist_name@,
            album_name: self.album_name@,
            started_at: self.started_at,
            ended_at: self.ended_at,
            duration_ms: self.duration_ms,
            listened_ms: self.listened_ms,
            skipped: self.skipped,
            context_uri: opt_view(self.context_uri),
        }
    }
}

impl Clone for Classification {
    fn clone(&self) -> (r: Self)
        ensures
            r@ == self@,
    {
        Classification {
            id: self.id,
            user_id: self.user_id.clone(),
            track_id: self.track_id.clone(),
            track_name: self.track_name.clone(),
            artist_name: self.artist_name.clone(),
            album_name: self.album_name.clone(),
            started_at: self.started_at,
            ended_at: self.ended_at,
            duration_ms: self.duration_ms,
            listened_ms: self.listened_ms,
            skipped: self.skipped,
            context_uri: crate::text::opt_clone(&self.context_uri),
        }
    }
}

/// The names of `artists`, in order.
pub open spec fn artist_name_seq(artists: Seq<ArtistRef>) -> Seq<Seq<char>> {
    artists.map_values(|a: ArtistRef| a.name@)
}

/// The artists' names of a track joined by ", ".
pub open spec fn artist_names_spec(artists: Seq<ArtistRef>) -> Seq<char> {
    seq_join(artist_name_seq(artists), ", "@)
}

impl TrackItem {
    /// The names of the track's artists, separated by ", ".
    pub fn artist_names(&self) -> (r: String)
        ensures
            r@ == artist_names_spec(self.artists@),
    {
        let ghost names = artist_name_seq(self.artists@);
        let mut r = String::new();
        let n = self.artists.len();
        let mut i: usize = 0;
        while i < n
            invariant
                n == self.artists@.len(),
                names == artist_name_seq(self.artists@),
                i <= n,
                r@ == seq_join(names.take(i as int), ", "@),
            decreases n - i,
        {
            if i > 0 {
                r.append(", ");
            }
            r.append(self.artists[i].name.as_str());
            assert(names.take(i + 1).drop_last() == names.take(i as int));
            i = i + 1;
        }
        assert(names.take(n as int) == names);
        r
    }
}

/// Whether a token issued at `created_at`, valid for `expires_in` seconds,
/// has run out at second `now`.
pub open spec fn token_expired_at(created_at: i64, expires_in: i64, now: i64) -> bool {
    now >= created_at + expires_in
}

impl TokenData {
    /// Whether the token has run out at second `now`.
    pub fn is_expired_at(&self, now: i64) -> (r: bool)
        ensures
            r == token_expired_at(self.created_at, self.expires_in, now),
    {
        (now as i128) >= (self.created_at as i128) + (self.expires_in as i128)
    }

    /// Whether the token has run out now, by the system clock.
    pub fn is_expired(&self) -> (r: bool)
        ensures
            exists|now: i64|
                crate::clock::clock_reading(now as int) && r == #[trigger] token_expired_at(
                    self.created_at,
                    self.expires_in,
                    now,
                ),
    {
        let now = crate::clock::now_timestamp();
        self.is_expired_at(now)
    }
}

} // verus!
