//! The HTML pages: the landing page and the dashboard.
use vstd::prelude::*;
use vstd::string::*;

use crate::models::{Classification, Stats, TrackCount};
use crate::text::{dec_string, push_int};

verus! {

/// The page style shared by the landing page and the dashboard.
pub const STYLE: &'static str = "body{font-family:'SF Mono','Menlo','Monaco','Courier New',monospace;background:#fff;color:#000;max-width:40em;margin:4em auto;padding:0 1em;line-height:1.6}a{color:#000}hr{border:none;border-top:1px solid #000;margin:2em 0}h1{font-weight:400;letter-spacing:0.05em}";

/// The landing page up to its style.
pub const LANDING_HEAD: &'static str = "<!DOCTYPE html>\n<html><head><meta charset=\"utf-8\"><meta name=\"viewport\" content=\"width=device-width,initial-scale=1\">\n<title>deadair</title><style>";

/// The landing page after its style.
pub const LANDING_TAIL: &'static str = "</style></head>\n<body>\n<h1>deadair</h1>\n<p>spotify playback tracker</p>\n<hr>\n<p><a href=\"/auth/login\">login with spotify</a></p>\n</body></html>";

/// The dashboard up to the shared style.
pub const DASHBOARD_HEAD: &'static str = "<!DOCTYPE html>\n<html><head><meta charset=\"utf-8\"><meta name=\"viewport\" content=\"width=device-width,initial-scale=1\">\n<title>deadair</title>\n<style>";

/// The dashboard's own style, up to the user's name.
pub const DASHBOARD_STYLE_TAIL: &'static str = "\ntable{border-collapse:collapse;width:100%}th,td{text-align:left;padding:0.3em 1em 0.3em 0}\nth{border-bottom:1px solid #000}h2{font-weight:400;font-size:1em;margin-top:2em}\n.tabs{margin-top:2em}.tabs input{display:none}.tabs label{cursor:pointer;padding:0.3em 0;margin-right:1.5em;border-bottom:1px solid transparent}\n.tabs input:checked+label{border-bottom:1px solid #000}.tab-content{display:none;margin-top:1em}\n#tab-playback:checked~.tc-playback,#tab-classifications:checked~.tc-classifications{display:block}</style></head>\n<body>\n<h1>deadair</h1>\n<p>";

/// Between the user's name and the number of listens.
pub const DASHBOARD_AFTER_NAME: &'static str = "</p>\n<hr>\n<p>";

/// After the number of listens.
pub const DASHBOARD_AFTER_TOTAL: &'static str = " listens &middot; ";

/// After the number of skips.
pub const DASHBOARD_AFTER_SKIPPED: &'static str = " skipped (";

/// After the skip percentage.
pub const DASHBOARD_AFTER_PCT: &'static str = "%) &middot; ";

/// After the number of listens played through.
pub const DASHBOARD_AFTER_COMPLETED: &'static str = " played</p>\n";

/// The tab bar, up to the playback table.
pub const DASHBOARD_TABS: &'static str = "\n<div class=\"tabs\">\n<input type=\"radio\" name=\"tab\" id=\"tab-playback\" checked><label for=\"tab-playback\">playback</label>\n<input type=\"radio\" name=\"tab\" id=\"tab-classifications\"><label for=\"tab-classifications\">classifications</label>\n<div class=\"tab-content tc-playback\">";

/// Between the playback and the classification tables.
pub const DASHBOARD_BETWEEN_TABLES: &'static str = "</div>\n<div class=\"tab-content tc-classifications\">";

/// The links at the foot of the dashboard.
pub const DASHBOARD_TAIL: &'static str = "</div>\n</div>\n<hr>\n<p><a href=\"/api/events?format=csv\">events csv</a> &middot; <a href=\"/api/playback?format=csv&amp;since=2020-01-01&amp;limit=0\">playback csv (all)</a> &middot; <a href=\"/api/stats\">stats</a></p>\n<hr>\n<p><a href=\"/auth/logout\">logout</a></p>\n</body></html>";

/// The start of a table row.
pub const ROW_START: &'static str = "<tr><td>";

/// Between two cells.
pub const CELL_BREAK: &'static str = "</td><td>";

/// The end of a table row.
pub const ROW_END: &'static str = "</td></tr>";

/// The end of a table.
pub const TABLE_END: &'static str = "</table>";

/// The heading of the most-skipped table.
pub const TOP_SKIPPED_HEAD: &'static str = "<h2>top skipped</h2><table><tr><th>track</th><th>artist</th><th>times</th></tr>";

/// The heading of the playback table.
pub const PLAYBACK_HEAD: &'static str = "<table><tr><th>track</th><th>artist</th><th>listened</th><th>duration</th><th>polls</th></tr>";

/// The heading of the classification table.
pub const CLASSIFICATION_HEAD: &'static str = "<table><tr><th>track</th><th>artist</th><th>listened</th><th>duration</th><th></th></tr>";

/// A row of the playback table: a track, how long it was heard, its length
/// and how many polls saw it.
pub struct ListenGroup {
    pub track_name: String,
    pub artist_name: String,
    pub listened_ms: i64,
    pub duration_ms: i64,
    pub polls: i64,
}

/// The landing page.
pub open spec fn landing_html() -> Seq<char> {
    LANDING_HEAD@ + STYLE@ + LANDING_TAIL@
}

/// The landing page for visitors who are not signed in.
pub fn landing_page() -> (r: String)
    ensures
        r@ == landing_html(),
{
    let mut r = LANDING_HEAD.to_owned();
    r.append(STYLE);
    r.append(LANDING_TAIL);
    r
}

/// `x / d` and `x % d` rounded toward zero, as integer division in Rust is.
pub open spec fn trunc_div(x: int, d: int) -> int {
    if x >= 0 {
        x / d
    } else {
        -((-x) / d)
    }
}

pub open spec fn trunc_rem(x: int, d: int) -> int {
    if x >= 0 {
        x % d
    } else {
        -((-x) % d)
    }
}

/// A duration in milliseconds as whole minutes and seconds, such as `3m 59s`.
pub open spec fn fmt_ms(ms: int) -> Seq<char> {
    let s = trunc_div(ms, 1000);
    dec_string(trunc_div(s, 60)) + seq!['m', ' '] + dec_string(trunc_rem(s, 60)) + seq!['s']
}

fn push_ms(r: &mut String, ms: i64)
    ensures
        final(r)@ == old(r)@ + fmt_ms(ms as int),
{
    let s: i64 = if ms >= 0 {
        ms / 1000
    } else {
        -((-(ms as i128)) / 1000) as i64
    };
    let m: i64 = if s >= 0 {
        s / 60
    } else {
        -((-(s as i128)) / 60) as i64
    };
    let sec: i64 = if s >= 0 {
        s % 60
    } else {
        -((-(s as i128)) % 60) as i64
    };
    push_int(r, m);
    r.push('m');
    r.push(' ');
    push_int(r, sec);
    r.push('s');
    assert(final(r)@ =~= old(r)@ + fmt_ms(ms as int));
}

/// A row of the most-skipped table.
pub open spec fn top_row(t: TrackCount) -> Seq<char> {
    ROW_START@ + t.track_name@ + CELL_BREAK@ + t.artist_name@ + CELL_BREAK@ + dec_string(t.count as int)
        + ROW_END@
}

/// The rows of the most-skipped table.
pub open spec fn top_rows(ts: Seq<TrackCount>) -> Seq<char>
    decreases ts.len(),
{
    if ts.len() == 0 {
        Seq::empty()
    } else {
        top_rows(ts.drop_last()) + top_row(ts.last())
    }
}

/// The most-skipped table; nothing when no track was skipped.
pub open spec fn top_table(ts: Seq<TrackCount>) -> Seq<char> {
    if top_rows(ts).len() == 0 {
        Seq::empty()
    } else {
        TOP_SKIPPED_HEAD@ + top_rows(ts) + TABLE_END@
    }
}

/// A row of the playback table.
pub open spec fn group_row(g: ListenGroup) -> Seq<char> {
    ROW_START@ + g.track_name@ + CELL_BREAK@ + g.artist_name@ + CELL_BREAK@ + fmt_ms(g.listened_ms as int)
        + CELL_BREAK@ + fmt_ms(g.duration_ms as int) + CELL_BREAK@ + dec_string(g.polls as int) + ROW_END@
}

/// The rows of the playback table.
pub open spec fn group_rows(gs: Seq<ListenGroup>) -> Seq<char>
    decreases gs.len(),
{
    if gs.len() == 0 {
        Seq::empty()
    } else {
        group_rows(gs.drop_last()) + group_row(gs.last())
    }
}

/// The verdict column: "skip", nothing for a played listen, "?" while open.
pub open spec fn skip_marker(skipped: Option<bool>) -> Seq<char> {
    match skipped {
        Some(true) => "skip"@,
        Some(false) => ""@,
        None => "?"@,
    }
}

/// A row of the classification table.
pub open spec fn class_row(c: Classification) -> Seq<char> {
    ROW_START@ + c.track_name@ + CELL_BREAK@ + c.artist_name@ + CELL_BREAK@ + fmt_ms(c.listened_ms as int)
        + CELL_BREAK@ + fmt_ms(c.duration_ms as int) + CELL_BREAK@ + skip_marker(c.skipped) + ROW_END@
}

/// The rows for `cs[j..]`, latest first.
pub open spec fn class_rows_from(cs: Seq<Classification>, j: int) -> Seq<char>
    decreases cs.len() - j,
{
    if j < 0 || j >= cs.len() {
        Seq::empty()
    } else {
        class_rows_from(cs, j + 1) + class_row(cs[j])
    }
}

/// The dashboard of a signed-in user.
pub open spec fn dashboard_html(
    display_name: Seq<char>,
    stats: Stats,
    skip_pct: Seq<char>,
    groups: Seq<ListenGroup>,
    classifications: Seq<Classification>,
) -> Seq<char> {
    DASHBOARD_HEAD@ + STYLE@ + DASHBOARD_STYLE_TAIL@ + display_name + DASHBOARD_AFTER_NAME@ + dec_string(
        stats.total_listens as int,
    ) + DASHBOARD_AFTER_TOTAL@ + dec_string(stats.skipped as int) + DASHBOARD_AFTER_SKIPPED@ + skip_pct
        + DASHBOARD_AFTER_PCT@ + dec_string(stats.completed as int) + DASHBOARD_AFTER_COMPLETED@
        + top_table(stats.top_skipped@) + DASHBOARD_TABS@ + PLAYBACK_HEAD@ + group_rows(groups)
        + TABLE_END@ + DASHBOARD_BETWEEN_TABLES@ + CLASSIFICATION_HEAD@ + class_rows_from(classifications, 0)
        + TABLE_END@ + DASHBOARD_TAIL@
}

fn top_rows_string(ts: &Vec<TrackCount>) -> (r: String)
    ensures
        r@ == top_rows(ts@),
{
    let mut r = String::new();
    let mut i: usize = 0;
    while i < ts.len()
        invariant
            i <= ts@.len(),
            r@ == top_rows(ts@.take(i as int)),
        decreases ts.len() - i,
    {
        let t = &ts[i];
        let ghost before = r@;
        r.append(ROW_START);
        r.append(t.track_name.as_str());
        r.append(CELL_BREAK);
        r.append(t.artist_name.as_str());
        r.append(CELL_BREAK);
        push_int(&mut r, t.count);
        r.append(ROW_END);
        assert(ts@.take(i + 1).drop_last() =~= ts@.take(i as int));
        assert(r@ =~= before + top_row(*t));
        i = i + 1;
    }
    assert(ts@.take(ts@.len() as int) =~= ts@);
    r
}

fn group_rows_string(gs: &[ListenGroup]) -> (r: String)
    ensures
        r@ == group_rows(gs@),
{
    let mut r = String::new();
    let mut i: usize = 0;
    while i < gs.len()
        invariant
            i <= gs@.len(),
            r@ == group_rows(gs@.take(i as int)),
        decreases gs.len() - i,
    {
        let g = &gs[i];
        let ghost before = r@;
        r.append(ROW_START);
        r.append(g.track_name.as_str());
        r.append(CELL_BREAK);
        r.append(g.artist_name.as_str());
        r.append(CELL_BREAK);
        push_ms(&mut r, g.listened_ms);
        r.append(CELL_BREAK);
        push_ms(&mut r, g.duration_ms);
        r.append(CELL_BREAK);
        push_int(&mut r, g.polls);
        r.append(ROW_END);
        assert(gs@.take(i + 1).drop_last() =~= gs@.take(i as int));
        assert(r@ =~= before + group_row(*g));
        i = i + 1;
    }
    assert(gs@.take(gs@.len() as int) =~= gs@);
    r
}

fn class_rows_string(cs: &[Classification]) -> (r: String)
    ensures
        r@ == class_rows_from(cs@, 0),
{
    let mut r = String::new();
    let mut j: usize = cs.len();
    while j > 0
        invariant
            j <= cs@.len(),
            r@ == class_rows_from(cs@, j as int),
        decreases j,
    {
        let c = &cs[j - 1];
        let ghost before = r@;
        r.append(ROW_START);
        r.append(c.track_name.as_str());
        r.append(CELL_BREAK);
        r.append(c.artist_name.as_str());
        r.append(CELL_BREAK);
        push_ms(&mut r, c.listened_ms);
        r.append(CELL_BREAK);
        push_ms(&mut r, c.duration_ms);
        r.append(CELL_BREAK);
        match c.skipped {
            Some(true) => r.append("skip"),
            Some(false) => r.append(""),
            None => r.append("?"),
        }
        r.append(ROW_END);
        assert(r@ =~= before + class_row(*c));
        j = j - 1;
    }
    r
}

/// The dashboard: the user's name, the listening statistics (with the skip
/// percentage as the caller renders it), the most-skipped tracks, the
/// playback table, and the listens, latest first.
pub fn dashboard_page(
    display_name: &str,
    stats: &Stats,
    skip_pct: &str,
    groups: &[ListenGroup],
    classifications: &[Classification],
) -> (r: String)
    ensures
        r@ == dashboard_html(display_name@, *stats, skip_pct@, groups@, classifications@),
{
    let top = top_rows_string(&stats.top_skipped);
    let mut r = DASHBOARD_HEAD.to_owned();
    r.append(STYLE);
    r.append(DASHBOARD_STYLE_TAIL);
    r.append(display_name);
    r.append(DASHBOARD_AFTER_NAME);
    push_int(&mut r, stats.total_listens);
    r.append(DASHBOARD_AFTER_TOTAL);
    push_int(&mut r, stats.skipped);
    r.append(DASHBOARD_AFTER_SKIPPED);
    r.append(skip_pct);
    r.append(DASHBOARD_AFTER_PCT);
    push_int(&mut r, stats.completed);
    r.append(DASHBOARD_AFTER_COMPLETED);
    if !top.as_str().is_empty() {
        r.append(TOP_SKIPPED_HEAD);
        r.append(top.as_str());
        r.append(TABLE_END);
    }
    r.append(DASHBOARD_TABS);
    r.append(PLAYBACK_HEAD);
    let rows = group_rows_string(groups);
    r.append(rows.as_str());
    r.append(TABLE_END);
    r.append(DASHBOARD_BETWEEN_TABLES);
    r.append(CLASSIFICATION_HEAD);
    let crows = class_rows_string(classifications);
    r.append(crows.as_str());
    r.append(TABLE_END);
    r.append(DASHBOARD_TAIL);
    assert(r@ =~= dashboard_html(display_name@, *stats, skip_pct@, groups@, classifications@));
    r
}

/// A listen's row in the classification table: the track, the artist, the
/// time heard, the track's length, and then "skip" for a skipped listen,
/// an empty cell for a listen heard to the end, and "?" while it is open.
pub proof fn lemma_class_row_verdict(c: Classification)
    ensures
        c.skipped == Some(true) ==> class_row(c) == ROW_START@ + c.track_name@ + CELL_BREAK@ + c.artist_name@
            + CELL_BREAK@ + fmt_ms(c.listened_ms as int) + CELL_BREAK@ + fmt_ms(c.duration_ms as int)
            + CELL_BREAK@ + "skip"@ + ROW_END@,
        c.skipped == Some(false) ==> class_row(c) == ROW_START@ + c.track_name@ + CELL_BREAK@ + c.artist_name@
            + CELL_BREAK@ + fmt_ms(c.listened_ms as int) + CELL_BREAK@ + fmt_ms(c.duration_ms as int)
            + CELL_BREAK@ + ROW_END@,
        c.skipped is None ==> class_row(c) == ROW_START@ + c.track_name@ + CELL_BREAK@ + c.artist_name@
            + CELL_BREAK@ + fmt_ms(c.listened_ms as int) + CELL_BREAK@ + fmt_ms(c.duration_ms as int)
            + CELL_BREAK@ + "?"@ + ROW_END@,
{
    reveal_strlit("");
    let pre = ROW_START@ + c.track_name@ + CELL_BREAK@ + c.artist_name@ + CELL_BREAK@ + fmt_ms(c.listened_ms as int)
        + CELL_BREAK@ + fmt_ms(c.duration_ms as int) + CELL_BREAK@;
    if c.skipped == Some(false) {
        assert(pre + ""@ =~= pre);
    }
}

} // verus!
