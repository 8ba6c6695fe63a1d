//! Backfilling listens from the recently-played history, for the times
//! the poller did not see.
use vstd::prelude::*;

use crate::clock::{parse_rfc3339, rfc3339_timestamp, RFC3339_BOUND};
use crate::models::{artist_names_spec, ClassificationView, RecentlyPlayedItem};
use crate::poller::{is_skip, skipped_listen};
use crate::store::{
    class_views, classification_exists_near, close_classification, closed_rows, db_wf,
    open_classification, opened_row, started_near, Database, DatabaseView, DbError,
};
use crate::text::{chars_le, lemma_chars_le_antisym, lemma_chars_le_total, lemma_chars_le_trans, opt_view, str_le};

verus! {

/// A history entry counts as already known when a listen of its track
/// started within this many seconds of the moment the entry began.
pub const NEAR_TOLERANCE_S: i64 = 30;

/// Entry `x` of the history comes before entry `y`: by the text of
/// `played_at`, and by position where the texts are equal.
pub open spec fn played_before(items: Seq<RecentlyPlayedItem>, x: int, y: int) -> bool {
    let a = items[x].played_at@;
    let b = items[y].played_at@;
    (chars_le(a, b) && a != b) || (a == b && x < y)
}

/// `order` lists the positions of all history entries, sorted by `played_at`
/// (a stable sort, as `sort_by_key`).
pub open spec fn is_played_order(items: Seq<RecentlyPlayedItem>, order: Seq<int>) -> bool {
    &&& order.len() == items.len()
    &&& forall|i: int| 0 <= i < order.len() ==> 0 <= #[trigger] order[i] < items.len()
    &&& forall|a: int, b: int| 0 <= a < b < order.len() ==> played_before(items, order[a], order[b])
}

pub open spec fn usize_seq_as_ints(v: Seq<usize>) -> Seq<int> {
    v.map_values(|x: usize| x as int)
}

proof fn lemma_played_before_trans(items: Seq<RecentlyPlayedItem>, x: int, y: int, z: int)
    requires
        played_before(items, x, y),
        played_before(items, y, z),
    ensures
        played_before(items, x, z),
{
    let a = items[x].played_at@;
    let b = items[y].played_at@;
    let c = items[z].played_at@;
    if a == b {
    } else if b == c {
    } else {
        lemma_chars_le_trans(a, b, c);
        if a == c {
            lemma_chars_le_antisym(a, b);
        }
    }
}

/// The positions of the history entries in the order they were played.
fn played_order(items: &[RecentlyPlayedItem]) -> (order: Vec<usize>)
    ensures
        is_played_order(items@, usize_seq_as_ints(order@)),
{
    let n = items.len();
    let mut order: Vec<usize> = Vec::new();
    let mut k: usize = 0;
    while k < n
        invariant
            n == items@.len(),
            k <= n,
            order@.len() == k,
            forall|i: int| 0 <= i < k ==> #[trigger] order@[i] < k,
            forall|a: int, b: int|
                0 <= a < b < k ==> played_before(items@, order@[a] as int, order@[b] as int),
        decreases n - k,
    {
        let ghost o0 = order@;
        let mut j: usize = 0;
        while j < order.len() && str_le(items[order[j]].played_at.as_str(), items[k].played_at.as_str())
            invariant
                n == items@.len(),
                k < n,
                o0 == order@,
                order@.len() == k,
                forall|i: int| 0 <= i < k ==> #[trigger] order@[i] < k,
                j <= order@.len(),
                forall|m: int|
                    0 <= m < j ==> chars_le(items@[order@[m] as int].played_at@, items@[k as int].played_at@),
            decreases order@.len() - j,
        {
            j = j + 1;
        }
        proof {
            let ak = items@[k as int].played_at@;
            if j < o0.len() {
                let aj = items@[o0[j as int] as int].played_at@;
                assert(!chars_le(aj, ak));
                lemma_chars_le_total(aj, ak);
                assert(played_before(items@, k as int, o0[j as int] as int));
            }
        }
        order.insert(j, k);
        proof {
            let o1 = order@;
            o0.insert_ensures(j as int, k);
            assert forall|i: int| 0 <= i < k + 1 implies #[trigger] o1[i] < k + 1 by {
                if i < j {
                    assert(o1[i] == o0[i]);
                } else if i > j {
                    assert(o1[i] == o0[i - 1]);
                }
            }
            assert forall|a: int, b: int| 0 <= a < b < k + 1 implies played_before(
                items@,
                o1[a] as int,
                o1[b] as int,
            ) by {
                let ak = items@[k as int].played_at@;
                if b < j {
                    assert(o1[a] == o0[a] && o1[b] == o0[b]);
                } else if b == j {
                    assert(o1[a] == o0[a]);
                    assert(chars_le(items@[o0[a] as int].played_at@, ak));
                    assert(o0[a] < k);
                } else if a < j {
                    assert(o1[a] == o0[a] && o1[b] == o0[b - 1]);
                    if a < b - 1 {
                    }
                } else if a == j {
                    assert(o1[b] == o0[b - 1]);
                    if b - 1 > j {
                        assert(played_before(items@, o0[j as int] as int, o0[b - 1] as int));
                        lemma_played_before_trans(items@, k as int, o0[j as int] as int, o0[b - 1] as int);
                    }
                } else {
                    assert(o1[a] == o0[a - 1] && o1[b] == o0[b - 1]);
                }
            }
        }
        k = k + 1;
    }
    assert(usize_seq_as_ints(order@).len() == n);
    order
}

/// The moment history entry `p` of `order` was played, 0 when unreadable.
pub open spec fn played_at_of(items: Seq<RecentlyPlayedItem>, order: Seq<int>, p: int) -> i64 {
    match rfc3339_timestamp(items[order[p]].played_at@) {
        Some(t) => t,
        None => 0,
    }
}

/// How long entry `p` was heard: until the next entry started, but no
/// longer than the track; the whole track for the last entry.
pub open spec fn listened_of(items: Seq<RecentlyPlayedItem>, order: Seq<int>, p: int) -> int {
    let duration = items[order[p]].track.duration_ms as int;
    if p + 1 < order.len() {
        let gap = (played_at_of(items, order, p + 1) - played_at_of(items, order, p)) * 1000;
        if gap < duration {
            gap
        } else {
            duration
        }
    } else {
        duration
    }
}

/// When entry `p` began: when it was played, less the whole seconds it was heard.
pub open spec fn started_at_of(items: Seq<RecentlyPlayedItem>, order: Seq<int>, p: int) -> i64 {
    (played_at_of(items, order, p) - trunc_div_1000(listened_of(items, order, p))) as i64
}

/// `x / 1000`, rounded toward zero as integer division in Rust is.
pub open spec fn trunc_div_1000(x: int) -> int {
    if x >= 0 {
        x / 1000
    } else {
        -((-x) / 1000)
    }
}

/// Some listen of this user and track started within `tolerance` seconds of `around`.
pub open spec fn exists_near(
    d: DatabaseView,
    user_id: Seq<char>,
    track_id: Seq<char>,
    around: i64,
    tolerance: i64,
) -> bool {
    exists|i: int|
        0 <= i < d.classifications.len() && #[trigger] started_near(
            d.classifications[i],
            user_id,
            track_id,
            around,
            tolerance,
        )
}

/// The tables once entry `p` is recorded: a new listen under the next id,
/// started when the entry began and closed when it was played.
pub open spec fn recorded(
    d: DatabaseView,
    user_id: Seq<char>,
    items: Seq<RecentlyPlayedItem>,
    order: Seq<int>,
    p: int,
) -> DatabaseView {
    let item = items[order[p]];
    let played_at = played_at_of(items, order, p);
    let listened = listened_of(items, order, p);
    let id = (d.last_classification_id + 1) as i64;
    let opened = DatabaseView {
        classifications: d.classifications.push(
            opened_row(
                id,
                user_id,
                item.track.id@,
                item.track.name@,
                artist_names_spec(item.track.artists@),
                item.track.album.name@,
                started_at_of(items, order, p),
                item.track.duration_ms,
                match item.context {
                    Some(c) => opt_view(c.uri),
                    None => None,
                },
            ),
        ),
        last_classification_id: id,
        ..d
    };
    let closed = DatabaseView {
        classifications: closed_rows(
            opened.classifications,
            id,
            played_at,
            listened as i64,
            is_skip(listened, item.track.duration_ms as int),
        ),
        ..opened
    };
    closed
}

/// The tables and the outcome after the entries `order[p..]` are backfilled:
/// an entry with a listen of its track that started near when the entry
/// began is passed over; any other becomes a closed listen that ended when the
/// entry was played.
pub open spec fn backfill_from(
    d: DatabaseView,
    user_id: Seq<char>,
    items: Seq<RecentlyPlayedItem>,
    order: Seq<int>,
    p: int,
) -> (DatabaseView, Result<(), DbError>)
    decreases order.len() - p,
{
    if p < 0 || p >= order.len() {
        (d, Ok(()))
    } else {
        let item = items[order[p]];
        if exists_near(d, user_id, item.track.id@, started_at_of(items, order, p), NEAR_TOLERANCE_S) {
            backfill_from(d, user_id, items, order, p + 1)
        } else if d.last_classification_id == i64::MAX {
            (d, Err(DbError::Full))
        } else {
            backfill_from(recorded(d, user_id, items, order, p), user_id, items, order, p + 1)
        }
    }
}

/// When history entry `p` was played (0 when its time cannot be read).
fn played_at_at(items: &[RecentlyPlayedItem], order: &Vec<usize>, p: usize) -> (t: i64)
    requires
        p < order@.len(),
        forall|i: int| 0 <= i < order@.len() ==> #[trigger] order@[i] < items@.len(),
    ensures
        t == played_at_of(items@, usize_seq_as_ints(order@), p as int),
        -RFC3339_BOUND <= t <= RFC3339_BOUND,
{
    match parse_rfc3339(items[order[p]].played_at.as_str()) {
        Some(t) => t,
        None => 0,
    }
}

/// Records the recently-played entries that no listen accounts for yet, in
/// the order they were played: each becomes a listen that ended when the
/// entry was played and lasted until the next entry began (at most the
/// track's length).
pub fn backfill(db: &mut Database, user_id: &str, items: &[RecentlyPlayedItem]) -> (r: Result<(), DbError>)
    requires
        old(db).wf(),
    ensures
        final(db).wf(),
        exists|order: Seq<int>|
            is_played_order(items@, order) && (final(db)@, r) == #[trigger] backfill_from(
                old(db)@,
                user_id@,
                items@,
                order,
                0,
            ),
        old(db)@.classifications.len() <= final(db)@.classifications.len(),
        forall|i: int|
            old(db)@.classifications.len() <= i < final(db)@.classifications.len() ==> backfilled_listen(
                #[trigger] final(db)@.classifications[i],
                user_id@,
            ),
{
    let order = played_order(items);
    let ghost ord = usize_seq_as_ints(order@);
    let n = order.len();
    let mut p: usize = 0;
    while p < n
        invariant
            db.wf(),
            n == order@.len(),
            ord == usize_seq_as_ints(order@),
            is_played_order(items@, ord),
            p <= n,
            backfill_from(old(db)@, user_id@, items@, ord, 0) == backfill_from(
                db@,
                user_id@,
                items@,
                ord,
                p as int,
            ),
            old(db)@.classifications.len() <= db@.classifications.len(),
            forall|i: int|
                old(db)@.classifications.len() <= i < db@.classifications.len() ==> backfilled_listen(
                    #[trigger] db@.classifications[i],
                    user_id@,
                ),
        decreases n - p,
    {
        assert(forall|i: int| 0 <= i < order@.len() ==> #[trigger] order@[i] < items@.len()) by {
            assert forall|i: int| 0 <= i < order@.len() implies #[trigger] order@[i] < items@.len() by {
                assert(ord[i] == order@[i] as int);
            }
        }
        let item = &items[order[p]];
        let played_at = played_at_at(items, &order, p);
        let duration = item.track.duration_ms;
        let listened: i64 = if p + 1 < n {
            let next = played_at_at(items, &order, p + 1);
            let gap = (next - played_at) * 1000;
            if gap < duration {
                gap
            } else {
                duration
            }
        } else {
            duration
        };
        let whole_seconds: i64 = if listened >= 0 {
            listened / 1000
        } else {
            -((-(listened as i128)) / 1000) as i64
        };
        let started_at = played_at - whole_seconds;
        let ghost d0 = db@;
        if classification_exists_near(db, user_id, &item.track.id, started_at, NEAR_TOLERANCE_S) {
            assert(exists_near(d0, user_id@, item.track.id@, started_at, NEAR_TOLERANCE_S));
            p = p + 1;
            continue;
        }
        let skipped = skipped_listen(listened, duration);
        let artist_name = item.track.artist_names();
        let context_uri: Option<&str> = match &item.context {
            Some(c) => match &c.uri {
                Some(u) => Some(u.as_str()),
                None => None,
            },
            None => None,
        };
        let opened = open_classification(
            db,
            user_id,
            &item.track.id,
            &item.track.name,
            &artist_name,
            &item.track.album.name,
            started_at,
            duration,
            context_uri,
        );
        match opened {
            Ok(id) => {
                let ghost d1 = db@;
                close_classification(db, id, played_at, listened, skipped);
                proof {
                    let m = d0.classifications.len() as int;
                    assert forall|i: int|
                        old(db)@.classifications.len() <= i < db@.classifications.len() implies backfilled_listen(
                        #[trigger] db@.classifications[i],
                        user_id@,
                    ) by {
                        if i < m {
                            assert(d1.classifications[i] == d0.classifications[i]);
                            assert(d0.classifications[i].id <= d0.last_classification_id);
                            assert(db@.classifications[i] == d0.classifications[i]);
                        } else {
                            assert(d1.classifications[i].id == id);
                        }
                    }
                }
            },
            Err(_) => {
                return Err(DbError::Full);
            },
        }
        p = p + 1;
    }
    Ok(())
}

/// Two sequences, each strictly increasing under the asymmetric relation
/// `lt`, with the same elements, are equal up to position `k`.
proof fn lemma_sorted_prefix<A>(s1: Seq<A>, s2: Seq<A>, lt: spec_fn(A, A) -> bool, k: int)
    requires
        s1.len() == s2.len(),
        0 <= k <= s1.len(),
        forall|a: int, b: int| 0 <= a < b < s1.len() ==> #[trigger] lt(s1[a], s1[b]),
        forall|a: int, b: int| 0 <= a < b < s2.len() ==> #[trigger] lt(s2[a], s2[b]),
        forall|x: A, y: A| #[trigger] lt(x, y) ==> !lt(y, x),
        forall|i: int| 0 <= i < s1.len() ==> s2.contains(#[trigger] s1[i]),
        forall|i: int| 0 <= i < s2.len() ==> s1.contains(#[trigger] s2[i]),
    ensures
        forall|i: int| 0 <= i < k ==> s1[i] == s2[i],
    decreases k,
{
    if k > 0 {
        lemma_sorted_prefix(s1, s2, lt, k - 1);
        let m = k - 1;
        assert(s2.contains(s1[m]));
        assert(s1.contains(s2[m]));
        let j = choose|j: int| 0 <= j < s2.len() && s2[j] == s1[m];
        let i = choose|i: int| 0 <= i < s1.len() && s1[i] == s2[m];
        if s1[m] != s2[m] {
            if j < m {
                assert(lt(s1[j], s1[m]));
                assert(s1[j] == s2[j]);
            } else {
                assert(j > m);
                assert(lt(s2[m], s2[j]));
                if i < m {
                    assert(lt(s2[i], s2[m]));
                    assert(s1[i] == s2[i]);
                } else {
                    assert(i > m);
                    assert(lt(s1[m], s1[i]));
                }
            }
        }
    }
}

/// Two sequences, each strictly increasing under an asymmetric relation,
/// with the same elements, are equal.
proof fn lemma_sorted_same_elements<A>(s1: Seq<A>, s2: Seq<A>, lt: spec_fn(A, A) -> bool)
    requires
        s1.len() == s2.len(),
        forall|a: int, b: int| 0 <= a < b < s1.len() ==> #[trigger] lt(s1[a], s1[b]),
        forall|a: int, b: int| 0 <= a < b < s2.len() ==> #[trigger] lt(s2[a], s2[b]),
        forall|x: A, y: A| #[trigger] lt(x, y) ==> !lt(y, x),
        forall|i: int| 0 <= i < s1.len() ==> s2.contains(#[trigger] s1[i]),
        forall|i: int| 0 <= i < s2.len() ==> s1.contains(#[trigger] s2[i]),
    ensures
        s1 == s2,
{
    lemma_sorted_prefix(s1, s2, lt, s1.len() as int);
    assert(s1 =~= s2);
}

/// `played_before` never holds both ways.
proof fn lemma_played_before_asym(items: Seq<RecentlyPlayedItem>)
    ensures
        forall|x: int, y: int| #[trigger] played_before(items, x, y) ==> !played_before(items, y, x),
{
    assert forall|x: int, y: int| #[trigger] played_before(items, x, y) implies !played_before(
        items,
        y,
        x,
    ) by {
        let a = items[x].played_at@;
        let b = items[y].played_at@;
        if played_before(items, y, x) && a != b {
            lemma_chars_le_antisym(a, b);
        }
    }
}

/// A played order lists every position of the history.
proof fn lemma_played_order_onto(items: Seq<RecentlyPlayedItem>, order: Seq<int>)
    requires
        is_played_order(items, order),
    ensures
        forall|j: int| 0 <= j < items.len() ==> #[trigger] order.contains(j),
{
    let n = items.len() as int;
    assert(order.no_duplicates()) by {
        assert forall|i: int, j: int| 0 <= i < order.len() && 0 <= j < order.len() && i != j implies order[i]
            != order[j] by {
            if i < j {
                assert(played_before(items, order[i], order[j]));
            } else {
                assert(played_before(items, order[j], order[i]));
            }
        }
    }
    order.unique_seq_to_set();
    vstd::set_lib::lemma_int_range(0, n);
    let all = vstd::set_lib::set_int_range(0, n);
    assert(order.to_set().subset_of(all)) by {
        assert forall|x: int| order.to_set().contains(x) implies all.contains(x) by {
            assert(order.contains(x));
            let i = choose|i: int| 0 <= i < order.len() && order[i] == x;
            assert(0 <= order[i] < n);
        }
    }
    vstd::set_lib::lemma_subset_equality(order.to_set(), all);
    assert forall|j: int| 0 <= j < items.len() implies #[trigger] order.contains(j) by {
        assert(all.contains(j));
        assert(order.to_set().contains(j));
    }
}

/// The history has one played order only.
proof fn lemma_played_order_unique(items: Seq<RecentlyPlayedItem>, o1: Seq<int>, o2: Seq<int>)
    requires
        is_played_order(items, o1),
        is_played_order(items, o2),
    ensures
        o1 == o2,
{
    lemma_played_order_onto(items, o1);
    lemma_played_order_onto(items, o2);
    lemma_played_before_asym(items);
    let lt = |x: int, y: int| played_before(items, x, y);
    assert forall|a: int, b: int| 0 <= a < b < o1.len() implies #[trigger] lt(o1[a], o1[b]) by {}
    assert forall|a: int, b: int| 0 <= a < b < o2.len() implies #[trigger] lt(o2[a], o2[b]) by {}
    assert forall|x: int, y: int| #[trigger] lt(x, y) implies !lt(y, x) by {
        assert(played_before(items, x, y));
    }
    assert forall|i: int| 0 <= i < o1.len() implies o2.contains(#[trigger] o1[i]) by {
        assert(o2.contains(o1[i]));
    }
    assert forall|i: int| 0 <= i < o2.len() implies o1.contains(#[trigger] o2[i]) by {
        assert(o1.contains(o2[i]));
    }
    lemma_sorted_same_elements(o1, o2, lt);
}

/// Every row of `d` is still in `d2`, at the same place, with the same
/// user, track and start.
pub open spec fn keeps_starts(d: DatabaseView, d2: DatabaseView) -> bool {
    &&& d.classifications.len() <= d2.classifications.len()
    &&& forall|i: int|
        0 <= i < d.classifications.len() ==> {
            let r = #[trigger] d2.classifications[i];
            &&& r.user_id == d.classifications[i].user_id
            &&& r.track_id == d.classifications[i].track_id
            &&& r.started_at == d.classifications[i].started_at
        }
}

/// A backfill that succeeds keeps the rows it found and leaves, for every
/// entry it went through, a listen of that track that started near when the
/// entry began.
proof fn lemma_backfill_records(
    d: DatabaseView,
    user_id: Seq<char>,
    items: Seq<RecentlyPlayedItem>,
    order: Seq<int>,
    p: int,
    d1: DatabaseView,
)
    requires
        0 <= p,
        backfill_from(d, user_id, items, order, p) == (d1, Ok::<(), DbError>(())),
    ensures
        keeps_starts(d, d1),
        forall|q: int|
            p <= q < order.len() ==> exists_near(
                d1,
                user_id,
                items[order[q]].track.id@,
                #[trigger] started_at_of(items, order, q),
                NEAR_TOLERANCE_S,
            ),
    decreases order.len() - p,
{
    if p >= order.len() {
    } else {
        let item = items[order[p]];
        let start = started_at_of(items, order, p);
        if exists_near(d, user_id, item.track.id@, start, NEAR_TOLERANCE_S) {
            lemma_backfill_records(d, user_id, items, order, p + 1, d1);
            let i = choose|i: int|
                0 <= i < d.classifications.len() && #[trigger] started_near(
                    d.classifications[i],
                    user_id,
                    item.track.id@,
                    start,
                    NEAR_TOLERANCE_S,
                );
            assert(started_near(d1.classifications[i], user_id, item.track.id@, start, NEAR_TOLERANCE_S));
        } else {
            let closed = recorded(d, user_id, items, order, p);
            assert(d.last_classification_id != i64::MAX);
            assert(backfill_from(d, user_id, items, order, p) == backfill_from(closed, user_id, items, order, p + 1));
            lemma_backfill_records(closed, user_id, items, order, p + 1, d1);
            let k = d.classifications.len() as int;
            assert(keeps_starts(d, closed));
            assert(started_near(closed.classifications[k], user_id, item.track.id@, start, NEAR_TOLERANCE_S));
            assert(started_near(d1.classifications[k], user_id, item.track.id@, start, NEAR_TOLERANCE_S));
            assert forall|i: int| 0 <= i < d.classifications.len() implies {
                let r = #[trigger] d1.classifications[i];
                &&& r.user_id == d.classifications[i].user_id
                &&& r.track_id == d.classifications[i].track_id
                &&& r.started_at == d.classifications[i].started_at
            } by {
                assert(closed.classifications[i].started_at == d.classifications[i].started_at);
            }
        }
    }
}

/// A backfill whose every remaining entry is already known changes nothing.
proof fn lemma_backfill_known(
    d: DatabaseView,
    user_id: Seq<char>,
    items: Seq<RecentlyPlayedItem>,
    order: Seq<int>,
    p: int,
)
    requires
        0 <= p,
        forall|q: int|
            p <= q < order.len() ==> exists_near(
                d,
                user_id,
                items[order[q]].track.id@,
                #[trigger] started_at_of(items, order, q),
                NEAR_TOLERANCE_S,
            ),
    ensures
        backfill_from(d, user_id, items, order, p) == (d, Ok::<(), DbError>(())),
    decreases order.len() - p,
{
    if p < order.len() {
        assert(exists_near(d, user_id, items[order[p]].track.id@, started_at_of(items, order, p), NEAR_TOLERANCE_S));
        lemma_backfill_known(d, user_id, items, order, p + 1);
    }
}

/// Backfilling the same history a second time changes nothing: every entry
/// that the first run went through is found again, so each listen is
/// recorded once.
pub proof fn lemma_backfill_twice(
    d: DatabaseView,
    user_id: Seq<char>,
    items: Seq<RecentlyPlayedItem>,
    first: Seq<int>,
    second: Seq<int>,
    d1: DatabaseView,
)
    requires
        is_played_order(items, first),
        is_played_order(items, second),
        backfill_from(d, user_id, items, first, 0) == (d1, Ok::<(), DbError>(())),
    ensures
        backfill_from(d1, user_id, items, second, 0) == (d1, Ok::<(), DbError>(())),
{
    lemma_played_order_unique(items, first, second);
    lemma_backfill_records(d, user_id, items, first, 0, d1);
    lemma_backfill_known(d1, user_id, items, first, 0);
}

/// Two histories whose entries come in the same played order are backfilled
/// alike.
proof fn lemma_backfill_same_entries(
    d: DatabaseView,
    user_id: Seq<char>,
    items: Seq<RecentlyPlayedItem>,
    o1: Seq<int>,
    items2: Seq<RecentlyPlayedItem>,
    o2: Seq<int>,
    p: int,
)
    requires
        o1.len() == o2.len(),
        forall|k: int| 0 <= k < o1.len() ==> #[trigger] items[o1[k]] == items2[o2[k]],
    ensures
        backfill_from(d, user_id, items, o1, p) == backfill_from(d, user_id, items2, o2, p),
    decreases o1.len() - p,
{
    if 0 <= p < o1.len() {
        assert(items[o1[p]] == items2[o2[p]]);
        if p + 1 < o1.len() {
            assert(items[o1[p + 1]] == items2[o2[p + 1]]);
        }
        assert(played_at_of(items, o1, p) == played_at_of(items2, o2, p));
        assert(listened_of(items, o1, p) == listened_of(items2, o2, p));
        assert(started_at_of(items, o1, p) == started_at_of(items2, o2, p));
        assert(recorded(d, user_id, items, o1, p) == recorded(d, user_id, items2, o2, p));
        lemma_backfill_same_entries(d, user_id, items, o1, items2, o2, p + 1);
        lemma_backfill_same_entries(recorded(d, user_id, items, o1, p), user_id, items, o1, items2, o2, p + 1);
    }
}

/// No two entries of the history were played at the same moment.
pub open spec fn played_at_distinct(items: Seq<RecentlyPlayedItem>) -> bool {
    forall|i: int, j: int| 0 <= i < j < items.len() ==> items[i].played_at@ != items[j].played_at@
}

/// Where no two entries share a `played_at`, the order in which the history
/// lists its entries does not matter: the same entries in another order are
/// backfilled alike.
pub proof fn lemma_backfill_any_listing(
    d: DatabaseView,
    user_id: Seq<char>,
    items: Seq<RecentlyPlayedItem>,
    o1: Seq<int>,
    items2: Seq<RecentlyPlayedItem>,
    o2: Seq<int>,
)
    requires
        items.len() == items2.len(),
        forall|i: int| 0 <= i < items.len() ==> items2.contains(#[trigger] items[i]),
        forall|i: int| 0 <= i < items2.len() ==> items.contains(#[trigger] items2[i]),
        played_at_distinct(items),
        played_at_distinct(items2),
        is_played_order(items, o1),
        is_played_order(items2, o2),
    ensures
        backfill_from(d, user_id, items, o1, 0) == backfill_from(d, user_id, items2, o2, 0),
{
    let n = items.len() as int;
    lemma_played_order_onto(items, o1);
    lemma_played_order_onto(items2, o2);
    let s1 = Seq::new(n as nat, |k: int| items[o1[k]]);
    let s2 = Seq::new(n as nat, |k: int| items2[o2[k]]);
    let lt = |x: RecentlyPlayedItem, y: RecentlyPlayedItem|
        chars_le(x.played_at@, y.played_at@) && x.played_at@ != y.played_at@;
    assert forall|a: int, b: int| 0 <= a < b < s1.len() implies #[trigger] lt(s1[a], s1[b]) by {
        assert(played_before(items, o1[a], o1[b]));
        if o1[a] != o1[b] {
            if o1[a] < o1[b] {
                assert(items[o1[a]].played_at@ != items[o1[b]].played_at@);
            } else {
                assert(items[o1[b]].played_at@ != items[o1[a]].played_at@);
            }
        }
    }
    assert forall|a: int, b: int| 0 <= a < b < s2.len() implies #[trigger] lt(s2[a], s2[b]) by {
        assert(played_before(items2, o2[a], o2[b]));
        if o2[a] != o2[b] {
            if o2[a] < o2[b] {
                assert(items2[o2[a]].played_at@ != items2[o2[b]].played_at@);
            } else {
                assert(items2[o2[b]].played_at@ != items2[o2[a]].played_at@);
            }
        }
    }
    assert forall|x: RecentlyPlayedItem, y: RecentlyPlayedItem| #[trigger] lt(x, y) implies !lt(y, x) by {
        if lt(y, x) {
            lemma_chars_le_antisym(x.played_at@, y.played_at@);
        }
    }
    assert forall|i: int| 0 <= i < s1.len() implies s2.contains(#[trigger] s1[i]) by {
        assert(items2.contains(items[o1[i]]));
        let j = choose|j: int| 0 <= j < items2.len() && items2[j] == items[o1[i]];
        assert(o2.contains(j));
        let k = choose|k: int| 0 <= k < o2.len() && o2[k] == j;
        assert(s2[k] == s1[i]);
    }
    assert forall|i: int| 0 <= i < s2.len() implies s1.contains(#[trigger] s2[i]) by {
        assert(items.contains(items2[o2[i]]));
        let j = choose|j: int| 0 <= j < items.len() && items[j] == items2[o2[i]];
        assert(o1.contains(j));
        let k = choose|k: int| 0 <= k < o1.len() && o1[k] == j;
        assert(s1[k] == s2[i]);
    }
    lemma_sorted_same_elements(s1, s2, lt);
    assert forall|k: int| 0 <= k < o1.len() implies #[trigger] items[o1[k]] == items2[o2[k]] by {
        assert(s1[k] == s2[k]);
    }
    lemma_backfill_same_entries(d, user_id, items, o1, items2, o2, 0);
}

/// A listen that a backfill records: the user's, finished, heard no longer
/// than the track lasts, and started as long before its end as it was
/// heard, in whole seconds rounded toward zero.
pub open spec fn backfilled_listen(r: ClassificationView, user_id: Seq<char>) -> bool {
    &&& r.user_id == user_id
    &&& r.ended_at is Some
    &&& r.listened_ms <= r.duration_ms
    &&& r.started_at == r.ended_at->0 - (if r.listened_ms >= 0 {
        r.listened_ms / 1000
    } else {
        -((-r.listened_ms) / 1000)
    })
}

proof fn lemma_backfill_rows_from(
    d: DatabaseView,
    user_id: Seq<char>,
    items: Seq<RecentlyPlayedItem>,
    order: Seq<int>,
    p: int,
    k: int,
)
    requires
        0 <= p,
        0 <= k <= d.classifications.len(),
        forall|q: int| p <= q < order.len() ==> -RFC3339_BOUND <= #[trigger] played_at_of(items, order, q) <= RFC3339_BOUND,
        forall|i: int|
            k <= i < d.classifications.len() ==> backfilled_listen(#[trigger] d.classifications[i], user_id)
                && d.classifications[i].id <= d.last_classification_id,
    ensures
        ({
            let d1 = backfill_from(d, user_id, items, order, p).0;
            &&& k <= d1.classifications.len()
            &&& forall|i: int| k <= i < d1.classifications.len() ==> backfilled_listen(#[trigger] d1.classifications[i], user_id)
        }),
    decreases order.len() - p,
{
    if p < order.len() {
        let item = items[order[p]];
        if exists_near(d, user_id, item.track.id@, started_at_of(items, order, p), NEAR_TOLERANCE_S) {
            lemma_backfill_rows_from(d, user_id, items, order, p + 1, k);
        } else if d.last_classification_id == i64::MAX {
        } else {
            let d2 = recorded(d, user_id, items, order, p);
            let n = d.classifications.len() as int;
            let id = (d.last_classification_id + 1) as i64;
            let played = played_at_of(items, order, p);
            assert(-RFC3339_BOUND <= played <= RFC3339_BOUND);
            if p + 1 < order.len() {
                assert(-RFC3339_BOUND <= played_at_of(items, order, p + 1) <= RFC3339_BOUND);
            }
            let listened = listened_of(items, order, p);
            assert(listened <= item.track.duration_ms);
            assert(i64::MIN <= listened <= i64::MAX);
            assert(d2.classifications.len() == n + 1);
            assert forall|i: int| k <= i < d2.classifications.len() implies backfilled_listen(
                #[trigger] d2.classifications[i],
                user_id,
            ) && d2.classifications[i].id <= d2.last_classification_id by {
                if i < n {
                    assert(d.classifications[i].id != id);
                    assert(d2.classifications[i] == d.classifications[i]);
                } else {
                    let row = d2.classifications[i];
                    assert(row.ended_at == Some(played));
                    assert(row.listened_ms == listened);
                    assert(row.started_at == started_at_of(items, order, p));
                }
            }
            lemma_backfill_rows_from(d2, user_id, items, order, p + 1, k);
        }
    }
}

/// Every listen that a backfill adds is the user's, finished, heard no
/// longer than its track lasts, and started exactly its heard time (in
/// whole seconds, rounded toward zero) before it ended: a listen never
/// starts earlier than its end less the time heard. The history's times
/// are those `chrono` reads, within `RFC3339_BOUND` of the epoch.
pub proof fn lemma_backfilled_listens(
    d: DatabaseView,
    user_id: Seq<char>,
    items: Seq<RecentlyPlayedItem>,
    order: Seq<int>,
)
    requires
        forall|q: int| 0 <= q < order.len() ==> -RFC3339_BOUND <= #[trigger] played_at_of(items, order, q) <= RFC3339_BOUND,
    ensures
        ({
            let d1 = backfill_from(d, user_id, items, order, 0).0;
            &&& d.classifications.len() <= d1.classifications.len()
            &&& forall|i: int|
                d.classifications.len() <= i < d1.classifications.len() ==> backfilled_listen(
                    #[trigger] d1.classifications[i],
                    user_id,
                )
        }),
{
    lemma_backfill_rows_from(d, user_id, items, order, 0, d.classifications.len() as int);
}

} // verus!
