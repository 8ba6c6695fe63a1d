//! The time window of the export endpoints.
use vstd::prelude::*;
use vstd::string::*;

use crate::clock::{clock_reading, day_timestamp, iso_day_start, now_timestamp};
use crate::text::{chars_of, opt_view, string_of_range};

verus! {

/// The query of `/api/events` (and of the playback export).
pub struct EventsParams {
    pub format: Option<String>,
    pub since: Option<String>,
    pub until: Option<String>,
    pub last: Option<String>,
    pub limit: Option<i64>,
}

/// Why a window cannot be read from the query.
#[derive(Debug, PartialEq, Eq, Structural)]
pub enum WindowError {
    /// The count of `last` is not a number.
    InvalidNumber,
    /// The unit of `last` is none of `m`, `h`, `d`.
    UnknownUnit,
    /// `since` or `until` is not a `%Y-%m-%d` date.
    InvalidDate,
}

/// Whether every character of `s` is an ASCII digit.
pub open spec fn all_digits(s: Seq<char>) -> bool {
    forall|i: int| 0 <= i < s.len() ==> '0' <= #[trigger] s[i] <= '9'
}

/// The number that the digits `s` write in decimal.
pub open spec fn digits_value(s: Seq<char>) -> int
    decreases s.len(),
{
    if s.len() == 0 {
        0
    } else {
        digits_value(s.drop_last()) * 10 + (s.last() as int - '0' as int)
    }
}

/// What `str::parse::<i64>` makes of `s`: an optional sign, then at least
/// one ASCII digit, with a value in range.
pub open spec fn parse_i64_spec(s: Seq<char>) -> Option<i64> {
    let neg = s.len() > 0 && s[0] == '-';
    let body = if s.len() > 0 && (s[0] == '-' || s[0] == '+') {
        s.drop_first()
    } else {
        s
    };
    if body.len() == 0 || !all_digits(body) {
        None
    } else {
        let v = if neg {
            -digits_value(body)
        } else {
            digits_value(body)
        };
        if i64::MIN <= v <= i64::MAX {
            Some(v as i64)
        } else {
            None
        }
    }
}

proof fn lemma_digits_value_nonneg(s: Seq<char>)
    requires
        all_digits(s),
    ensures
        digits_value(s) >= 0,
    decreases s.len(),
{
    if s.len() > 0 {
        lemma_digits_value_nonneg(s.drop_last());
    }
}

/// `s` as `str::parse::<i64>` reads it.
pub fn parse_i64(s: &str) -> (r: Option<i64>)
    ensures
        r == parse_i64_spec(s@),
{
    let v = chars_of(s);
    let n = v.len();
    let neg = n > 0 && v[0] == '-';
    let start: usize = if n > 0 && (v[0] == '-' || v[0] == '+') {
        1
    } else {
        0
    };
    let ghost body = if n > 0 && (v@[0] == '-' || v@[0] == '+') {
        s@.drop_first()
    } else {
        s@
    };
    assert(body =~= v@.skip(start as int));
    if start == n {
        return None;
    }
    // the magnitude, held exactly while it stays below `CAP`, and as `CAP` beyond
    let cap: i128 = 9_223_372_036_854_775_809;
    let mut acc: i128 = 0;
    let mut i: usize = start;
    while i < n
        invariant
            v@ == s@,
            n == v@.len(),
            start <= i <= n,
            body == v@.skip(start as int),
            body == (if s@.len() > 0 && (s@[0] == '-' || s@[0] == '+') {
                s@.drop_first()
            } else {
                s@
            }),
            neg == (s@.len() > 0 && s@[0] == '-'),
            cap == 9_223_372_036_854_775_809,
            all_digits(v@.subrange(start as int, i as int)),
            digits_value(v@.subrange(start as int, i as int)) < cap ==> acc == digits_value(
                v@.subrange(start as int, i as int),
            ),
            digits_value(v@.subrange(start as int, i as int)) >= cap ==> acc == cap,
        decreases n - i,
    {
        let c = v[i];
        if c < '0' || c > '9' {
            assert(body[i - start] == c);
            assert(!all_digits(body));
            return None;
        }
        let ghost pre = v@.subrange(start as int, i as int);
        let ghost post = v@.subrange(start as int, i + 1);
        proof {
            assert(post.drop_last() =~= pre);
            assert(post.last() == c);
            lemma_digits_value_nonneg(pre);
        }
        let d: i128 = if c == '0' {
            0
        } else if c == '1' {
            1
        } else if c == '2' {
            2
        } else if c == '3' {
            3
        } else if c == '4' {
            4
        } else if c == '5' {
            5
        } else if c == '6' {
            6
        } else if c == '7' {
            7
        } else if c == '8' {
            8
        } else {
            9
        };
        assert(d == c as int - '0' as int);
        if acc < cap {
            let next = acc * 10 + d;
            if next < cap {
                acc = next;
            } else {
                acc = cap;
            }
        }
        i = i + 1;
    }
    assert(v@.subrange(start as int, n as int) =~= body);
    proof {
        lemma_digits_value_nonneg(body);
    }
    if neg {
        if acc <= 9_223_372_036_854_775_808 {
            Some((-acc) as i64)
        } else {
            None
        }
    } else {
        if acc <= 9_223_372_036_854_775_807 {
            Some(acc as i64)
        } else {
            None
        }
    }
}

/// The seconds in one unit of `last`: minutes, hours or days.
pub open spec fn unit_seconds(c: char) -> Option<int> {
    if c == 'm' {
        Some(60)
    } else if c == 'h' {
        Some(3600)
    } else if c == 'd' {
        Some(86400)
    } else {
        None
    }
}

/// The window `(from, to)` in seconds that a query asks for at second `now`:
/// the last `N` minutes, hours or days; the days from `since` to `until`
/// (to the end of that day, or to now without `until`); or the last day.
pub open spec fn window_spec(
    last: Option<Seq<char>>,
    since: Option<Seq<char>>,
    until: Option<Seq<char>>,
    now: i64,
) -> Result<(int, int), WindowError> {
    match last {
        Some(l) => match parse_i64_spec(l.drop_last()) {
            None => Err(WindowError::InvalidNumber),
            Some(n) => match unit_seconds(l.last()) {
                None => Err(WindowError::UnknownUnit),
                Some(f) => Ok((now - n * f, now as int)),
            },
        },
        None => match since {
            Some(sn) => match iso_day_start(sn) {
                None => Err(WindowError::InvalidDate),
                Some(from) => match until {
                    Some(u) => match iso_day_start(u) {
                        None => Err(WindowError::InvalidDate),
                        Some(t) => Ok((from as int, t + 86399)),
                    },
                    None => Ok((from as int, now as int)),
                },
            },
            None => Ok((now - 86400, now as int)),
        },
    }
}

/// Whether the window can be worked out without the arithmetic leaving
/// `i64` and without cutting a character of `last` in two (where the
/// server would fail).
pub open spec fn window_computable(
    last: Option<Seq<char>>,
    since: Option<Seq<char>>,
    now: i64,
) -> bool {
    match last {
        Some(l) => l.len() > 0 && (l.last() as int) < 128 && match (
            parse_i64_spec(l.drop_last()),
            unit_seconds(l.last()),
        ) {
            (Some(n), Some(f)) => i64::MIN <= n * f <= i64::MAX && i64::MIN <= now - n * f <= i64::MAX,
            _ => true,
        },
        None => since is Some || now - 86400 >= i64::MIN,
    }
}

fn unit_seconds_of(c: char) -> (r: Option<i64>)
    ensures
        match r {
            Some(f) => unit_seconds(c) == Some(f as int),
            None => unit_seconds(c) is None,
        },
{
    if c == 'm' {
        Some(60)
    } else if c == 'h' {
        Some(3600)
    } else if c == 'd' {
        Some(86400)
    } else {
        None
    }
}

/// The count and the unit of `last`: all but its last character, read as a
/// number, and the seconds of the unit its last character names.
fn split_last(l: &str) -> (r: (Option<i64>, Option<i64>, char))
    requires
        l@.len() > 0,
    ensures
        r.0 == parse_i64_spec(l@.drop_last()),
        match r.1 {
            Some(f) => unit_seconds(l@.last()) == Some(f as int),
            None => unit_seconds(l@.last()) is None,
        },
        r.2 == l@.last(),
{
    let v = chars_of(l);
    let k = v.len() - 1;
    let num = string_of_range(&v, 0, k);
    assert(num@ =~= l@.drop_last());
    (parse_i64(num.as_str()), unit_seconds_of(v[k]), v[k])
}

/// Whether the window of the query can be worked out at second `now`.
pub fn window_fits(params: &EventsParams, now: i64) -> (r: bool)
    ensures
        r == window_computable(opt_view(params.last), opt_view(params.since), now),
{
    match &params.last {
        Some(l) => {
            if l.as_str().is_empty() {
                return false;
            }
            let (n, f, c) = split_last(l.as_str());
            if !(c < '\u{80}') {
                return false;
            }
            match (n, f) {
                (Some(n), Some(f)) => {
                    proof {
                        let ni = n as int;
                        let fi = f as int;
                        assert(0 < fi <= 86400);
                        assert(-0x8000_0000_0000_0000 * 86400 <= ni * fi <= 0x7fff_ffff_ffff_ffff * 86400) by (nonlinear_arith)
                            requires
                                -0x8000_0000_0000_0000 <= ni <= 0x7fff_ffff_ffff_ffff,
                                0 < fi <= 86400,
                        ;
                    }
                    let secs = (n as i128) * (f as i128);
                    let rest = (now as i128) - secs;
                    secs >= i64::MIN as i128 && secs <= i64::MAX as i128 && rest >= i64::MIN as i128
                        && rest <= i64::MAX as i128
                },
                _ => true,
            }
        },
        None => params.since.is_some() || now >= i64::MIN + 86400,
    }
}

/// The window `(from, to)` that the query asks for at second `now`.
pub fn resolve_window_at(params: &EventsParams, now: i64) -> (r: Result<(i64, i64), WindowError>)
    requires
        window_computable(opt_view(params.last), opt_view(params.since), now),
    ensures
        match r {
            Ok((from, to)) => window_spec(
                opt_view(params.last),
                opt_view(params.since),
                opt_view(params.until),
                now,
            ) == Ok::<(int, int), WindowError>((from as int, to as int)),
            Err(e) => window_spec(
                opt_view(params.last),
                opt_view(params.since),
                opt_view(params.until),
                now,
            ) == Err::<(int, int), WindowError>(e),
        },
{
    if let Some(l) = &params.last {
        let (n, f, _c) = split_last(l.as_str());
        let n = match n {
            Some(n) => n,
            None => {
                return Err(WindowError::InvalidNumber);
            },
        };
        let f = match f {
            Some(f) => f,
            None => {
                return Err(WindowError::UnknownUnit);
            },
        };
        let secs = n * f;
        return Ok((now - secs, now));
    }
    if let Some(since) = &params.since {
        let from = match day_timestamp(since.as_str(), 0, 0, 0) {
            Some(t) => t,
            None => {
                return Err(WindowError::InvalidDate);
            },
        };
        let to = match &params.until {
            Some(until) => match day_timestamp(until.as_str(), 23, 59, 59) {
                Some(t) => t,
                None => {
                    return Err(WindowError::InvalidDate);
                },
            },
            None => now,
        };
        return Ok((from, to));
    }
    Ok((now - 86400, now))
}

/// The window that the query asks for now, by the system clock; `None`
/// where it cannot be worked out at that second (see `window_computable`),
/// which never happens for a query without `last`.
pub fn resolve_window(params: &EventsParams) -> (r: Option<Result<(i64, i64), WindowError>>)
    ensures
        params.last is None ==> r is Some,
        match r {
            Some(w) => exists|now: i64|
                clock_reading(now as int) && #[trigger] window_computable(opt_view(params.last), opt_view(params.since), now)
                    && match w {
                    Ok((from, to)) => window_spec(
                        opt_view(params.last),
                        opt_view(params.since),
                        opt_view(params.until),
                        now,
                    ) == Ok::<(int, int), WindowError>((from as int, to as int)),
                    Err(e) => window_spec(
                        opt_view(params.last),
                        opt_view(params.since),
                        opt_view(params.until),
                        now,
                    ) == Err::<(int, int), WindowError>(e),
                },
            None => exists|now: i64|
                clock_reading(now as int) && !#[trigger] window_computable(opt_view(params.last), opt_view(params.since), now),
        },
{
    let now = now_timestamp();
    if window_fits(params, now) {
        Some(resolve_window_at(params, now))
    } else {
        None
    }
}

/// How many playback events the export returns: 1000 by default, and all
/// of them for a limit of 0 (`LIMIT -1`).
pub fn playback_limit(limit: Option<i64>) -> (r: i64)
    ensures
        r == match limit {
            Some(0) => -1,
            Some(n) => n as int,
            None => 1000,
        },
{
    match limit {
        Some(0) => -1,
        Some(n) => n,
        None => 1000,
    }
}

} // verus!
