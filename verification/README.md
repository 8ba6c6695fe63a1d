# deadair

deadair records what a Spotify account plays and tells which tracks were
skipped: a listen counts as a skip when less than 80% of the track was heard.

The logic is a Verus library, proved against its contracts:

- `src/store.rs` — the three tables (users, listens, playback events) with
  their invariant, and the queries on them: listens in a time window,
  listening statistics, the most skipped tracks and artists.
- `src/poller.rs` — one poll of the playback state: which listen opens,
  closes or is a replay, and whether it was a skip.
- `src/reconciler.rs` — filling the gaps from the recently-played history;
  a second run on the same history changes nothing.
- `src/session.rs` — the signed session cookie; only a value that signing
  made verifies.
- `src/api.rs`, `src/pages.rs`, `src/auth.rs`, `src/spotify.rs` — the export
  window, the HTML pages, the sign-in flow and the authorization address.
- `src/clock.rs`, `src/text.rs`, `src/models.rs` — the clock and calendar,
  text helpers, and the data types.

`app/` is the server around it: HTTP handlers, the Spotify API calls, the
background loops and the SQLite file the tables are kept in.
