//! When a trigger is due, and how a schedule is written down.
//!
//! `at 09:00 mon–fri` has to mean nine where you are, on the days you mean. The local time is
//! the machine's to say, so it comes in as a [`LocalTime`].

use crate::text::{
    begins, chars_of, decimal, first_of, lemma_first_of, lemma_first_of_is, lowercase, number, number_within, owned, padded, parse_number,
    pieces, quote, quoted, same, split_any, split_once, split_once_any, starts_with, string_of,
    texts, to_lower, trim, trimmed, two_places,
};
use vstd::prelude::*;
use vstd::string::*;

verus! {

/// The shortest interval a trigger may be given. Anything faster is a busy-wait.
pub const MIN_INTERVAL_SECS: u64 = 60;

/// All seven bits set: what `--at` means without `--days`.
pub const EVERY_DAY: u8 = 0x7f;

/// When a trigger fires.
#[derive(Debug, Clone, Copy, PartialEq, Eq, Structural)]
pub enum When {
    /// Every `secs` seconds, counted from the last firing rather than from a fixed grid.
    Every { secs: u64 },
    /// At a local wall-clock time, on the days named by `days`: bit 0 Sunday through bit 6
    /// Saturday.
    At { hour: u32, min: u32, days: u8 },
}

/// A moment, as a local clock shows it. Weekdays count from Sunday.
#[derive(Debug, Clone, Copy, PartialEq, Eq, Structural)]
pub struct LocalTime {
    pub hour: u32,
    pub min: u32,
    pub sec: u32,
    pub wday: u32,
}

/// Why a schedule could not be read.
#[derive(Debug, Clone, PartialEq, Eq)]
pub enum ScheduleError {
    /// A shorter interval than is allowed.
    TooFast,
    /// Not a length of time.
    BadDuration(String),
    /// Not the name of a day.
    BadDay(String),
    /// No colon in it.
    BadTime(String),
    BadHour(String),
    BadMinute(String),
    /// Numbers, but of no time of day.
    NotATime(String),
}

/// The same, as text.
pub enum ScheduleErrorView {
    TooFast,
    BadDuration(Seq<char>),
    BadDay(Seq<char>),
    BadTime(Seq<char>),
    BadHour(Seq<char>),
    BadMinute(Seq<char>),
    NotATime(Seq<char>),
}

impl View for ScheduleError {
    type V = ScheduleErrorView;

    open spec fn view(&self) -> ScheduleErrorView {
        match *self {
            ScheduleError::TooFast => ScheduleErrorView::TooFast,
            ScheduleError::BadDuration(s) => ScheduleErrorView::BadDuration(s@),
            ScheduleError::BadDay(s) => ScheduleErrorView::BadDay(s@),
            ScheduleError::BadTime(s) => ScheduleErrorView::BadTime(s@),
            ScheduleError::BadHour(s) => ScheduleErrorView::BadHour(s@),
            ScheduleError::BadMinute(s) => ScheduleErrorView::BadMinute(s@),
            ScheduleError::NotATime(s) => ScheduleErrorView::NotATime(s@),
        }
    }
}

impl ScheduleErrorView {
    /// The sentence a person is shown.
    pub open spec fn message(self) -> Seq<char> {
        match self {
            ScheduleErrorView::TooFast =>
                "the shortest interval is 60s — a faster trigger is a busy-wait, not a schedule"@,
            ScheduleErrorView::BadDuration(s) => "cannot read "@ + quoted(s)
                + " as a duration — try 30m, 2h or 1d"@,
            ScheduleErrorView::BadDay(s) => "cannot read "@ + quoted(s)
                + " as a day — try mon-fri, or sat,sun"@,
            ScheduleErrorView::BadTime(s) => "cannot read "@ + quoted(s)
                + " as a time of day — try 09:00 or 21:30"@,
            ScheduleErrorView::BadHour(s) => "cannot read "@ + quoted(s)
                + " as an hour — try 09:00 or 21:30"@,
            ScheduleErrorView::BadMinute(s) => "cannot read "@ + quoted(s)
                + " as a minute — try 09:00 or 21:30"@,
            ScheduleErrorView::NotATime(s) => quoted(s)
                + " is not a time of day — hours are 0–23, minutes 0–59"@,
        }
    }
}

/// `cannot read "x"` and what it could not be read as.
fn cannot_read(s: &str, rest: &str) -> (r: String)
    ensures
        r@ == "cannot read "@ + quoted(s@) + rest@,
{
    let mut m = owned("cannot read ");
    m.append(quote(s).as_str());
    m.append(rest);
    m
}

impl ScheduleError {
    /// The sentence a person is shown.
    pub fn message(&self) -> (r: String)
        ensures
            r@ == self@.message(),
    {
        match self {
            ScheduleError::TooFast => owned(
                "the shortest interval is 60s — a faster trigger is a busy-wait, not a schedule",
            ),
            ScheduleError::BadDuration(s) => cannot_read(
                s.as_str(),
                " as a duration — try 30m, 2h or 1d",
            ),
            ScheduleError::BadDay(s) => cannot_read(
                s.as_str(),
                " as a day — try mon-fri, or sat,sun",
            ),
            ScheduleError::BadTime(s) => cannot_read(
                s.as_str(),
                " as a time of day — try 09:00 or 21:30",
            ),
            ScheduleError::BadHour(s) => cannot_read(
                s.as_str(),
                " as an hour — try 09:00 or 21:30",
            ),
            ScheduleError::BadMinute(s) => cannot_read(
                s.as_str(),
                " as a minute — try 09:00 or 21:30",
            ),
            ScheduleError::NotATime(s) => {
                let mut m = quote(s.as_str());
                m.append(" is not a time of day — hours are 0–23, minutes 0–59");
                m
            },
        }
    }
}

// -- days --------------------------------------------------------------------

/// Whether a set of days holds this one.
pub open spec fn has_day(days: u8, d: u8) -> bool {
    days & (1u8 << d) != 0
}

/// What `--at` means without `--days`.
pub fn every_day() -> (r: u8)
    ensures
        r == EVERY_DAY,
{
    EVERY_DAY
}

/// Whether a set of days holds this one.
pub fn day_allowed(wday: u32, days: u8) -> (r: bool)
    requires
        wday < 7,
    ensures
        r == has_day(days, wday as u8),
{
    days & (1u8 << (wday as u8)) != 0
}

/// A set of days with one more in it.
fn with_day(days: u8, d: u8) -> (r: u8)
    requires
        d < 8,
    ensures
        forall|e: u8| e < 8 ==> (#[trigger] has_day(r, e) == (has_day(days, e) || e == d)),
{
    let r: u8 = days | (1u8 << d);
    assert forall|e: u8| e < 8 implies (#[trigger] has_day(r, e) == (has_day(days, e) || e
        == d)) by {
        assert(((days | (1u8 << d)) & (1u8 << e) != 0) == ((days & (1u8 << e) != 0) || e == d))
            by (bit_vector)
            requires
                d < 8,
                e < 8,
        ;
    }
    r
}

/// Sunday first.
pub open spec fn day_name(d: int) -> Seq<char> {
    if d == 0 {
        "sun"@
    } else if d == 1 {
        "mon"@
    } else if d == 2 {
        "tue"@
    } else if d == 3 {
        "wed"@
    } else if d == 4 {
        "thu"@
    } else if d == 5 {
        "fri"@
    } else {
        "sat"@
    }
}

/// Sunday first.
fn name_of_day(d: u8) -> (r: &'static str)
    requires
        d < 7,
    ensures
        r@ == day_name(d as int),
{
    match d {
        0 => "sun",
        1 => "mon",
        2 => "tue",
        3 => "wed",
        4 => "thu",
        5 => "fri",
        _ => "sat",
    }
}

/// The days below `n` that are in the set, in order.
pub open spec fn days_below(days: u8, n: int) -> Seq<int>
    decreases n,
{
    if n <= 0 {
        Seq::empty()
    } else if has_day(days, (n - 1) as u8) {
        days_below(days, n - 1).push(n - 1)
    } else {
        days_below(days, n - 1)
    }
}

/// Whether each number is one more than the one before it.
pub open spec fn contiguous(s: Seq<int>) -> bool {
    forall|i: int| 0 <= i < s.len() - 1 ==> #[trigger] s[i + 1] == s[i] + 1
}

/// How a set of days reads: nothing for every day, a range for a run of three or more, and a
/// list otherwise.
pub open spec fn days_words(days: u8) -> Option<Seq<char>> {
    let set = days_below(days, 7);
    if set.len() == 7 {
        None
    } else if set.len() == 0 {
        Some("never"@)
    } else if contiguous(set) && set.len() > 2 {
        Some(day_name(set[0]) + "–"@ + day_name(set.last()))
    } else {
        Some(crate::text::joined(set.map_values(|d: int| day_name(d)), ","@))
    }
}

/// `mon–fri`, `sat,sun`, or `None` for every day, which needs no saying.
pub fn describe_days(days: u8) -> (r: Option<String>)
    ensures
        match r {
            Some(t) => days_words(days) == Some(t@),
            None => days_words(days) is None,
        },
{
    let mut set: Vec<u8> = Vec::new();
    let mut names: Vec<String> = Vec::new();
    let ghost want = days_below(days, 7);
    let mut run = true;
    let mut d: u8 = 0;
    while d < 7
        invariant
            d <= 7,
            set@.len() <= d,
            set@.len() == names@.len(),
            forall|i: int| 0 <= i < set@.len() ==> (#[trigger] set@[i]) < d,
            set@.map_values(|x: u8| x as int) == days_below(days, d as int),
            texts(names@) == days_below(days, d as int).map_values(|x: int| day_name(x)),
            run == contiguous(days_below(days, d as int)),
        decreases 7 - d,
    {
        let ghost before = days_below(days, d as int);
        let ghost names0 = names@;
        if day_allowed(d as u32, days) {
            let ghost after = before.push(d as int);
            proof {
                assert(after == days_below(days, d + 1));
                if set@.len() > 0 {
                    assert(before.last() == set@.last() as int);
                    assert(after[after.len() - 2 + 1] == d as int);
                }
                if contiguous(after) {
                    assert forall|i: int| 0 <= i < before.len() - 1 implies #[trigger] before[i
                        + 1] == before[i] + 1 by {
                        assert(after[i + 1] == after[i] + 1);
                    }
                }
            }
            if set.len() > 0 && set[set.len() - 1] + 1 != d {
                run = false;
            }
            proof {
                if set@.len() > 0 && before.last() + 1 == d && contiguous(before) {
                    assert forall|i: int| 0 <= i < after.len() - 1 implies #[trigger] after[i + 1]
                        == after[i] + 1 by {
                        if i < before.len() - 1 {
                            assert(before[i + 1] == before[i] + 1);
                        }
                    }
                }
            }
            set.push(d);
            names.push(owned(name_of_day(d)));
            proof {
                assert(set@.map_values(|x: u8| x as int) =~= after);
                let f = |x: int| day_name(x);
                assert forall|i: int| 0 <= i < after.len() implies #[trigger] texts(names@)[i]
                    == after.map_values(f)[i] by {
                    if i < before.len() {
                        assert(texts(names0)[i] == before.map_values(f)[i]);
                    }
                }
                assert(texts(names@) =~= after.map_values(f));
            }
        }
        d = d + 1;
    }
    let n: usize = set.len();
    proof {
        let m = set@.map_values(|x: u8| x as int);
        assert(m == want);
        assert(n == want.len());
        if n > 0 {
            assert(m[0] == set@[0] as int);
            assert(m.last() == set@[n - 1] as int);
        }
    }
    if n == 7 {
        return None;
    }
    if n == 0 {
        return Some(owned("never"));
    }
    // Contiguous runs read as a range, which is how they were almost certainly written.
    if run && n > 2 {
        let mut s = owned(name_of_day(set[0]));
        s.append("–");
        s.append(name_of_day(set[n - 1]));
        return Some(s);
    }
    Some(crate::text::join(&names, ","))
}

/// The day, at or after `d`, whose name this is: the name itself, or anything longer that
/// begins with it.
pub open spec fn day_from(n: Seq<char>, d: int) -> Option<int>
    decreases 7 - d,
{
    if d >= 7 {
        None
    } else if n == day_name(d) || (n.len() > 3 && begins(n, day_name(d))) {
        Some(d)
    } else {
        day_from(n, d + 1)
    }
}

/// The day a name means.
pub open spec fn day_of(name: Seq<char>) -> Option<int> {
    day_from(trimmed(name), 0)
}

/// The day a name means, or the name where it means none.
fn read_day(name: &str) -> (r: Result<u8, String>)
    ensures
        match r {
            Ok(d) => d < 7 && day_of(name@) == Some(d as int),
            Err(n) => day_of(name@) is None && n@ == trimmed(name@),
        },
{
    let n = trim(name);
    let mut d: u8 = 0;
    while d < 7
        invariant
            d <= 7,
            n@ == trimmed(name@),
            day_of(name@) == day_from(n@, d as int),
        decreases 7 - d,
    {
        if same(n.as_str(), name_of_day(d)) || (n.as_str().unicode_len() > 3 && starts_with(
            n.as_str(),
            name_of_day(d),
        )) {
            return Ok(d);
        }
        d = d + 1;
    }
    Err(n)
}

/// The first and last day that one part of a list names, or the name that means no day.
pub open spec fn part_range(part: Seq<char>) -> Result<(int, int), Seq<char>> {
    match split_once(part, "-"@) {
        Some((a, b)) => match (day_of(a), day_of(b)) {
            (None, _) => Err(trimmed(a)),
            (Some(_), None) => Err(trimmed(b)),
            (Some(from), Some(to)) => Ok((from, to)),
        },
        None => match day_of(part) {
            None => Err(trimmed(part)),
            Some(d) => Ok((d, d)),
        },
    }
}

/// Whether a day is within a range, which may run over the end of the week.
pub open spec fn in_range(from: int, to: int, d: int) -> bool {
    if from <= to {
        from <= d <= to
    } else {
        from <= d || d <= to
    }
}

/// The first name in a list of parts that means no day.
pub open spec fn bad_day(parts: Seq<Seq<char>>) -> Option<Seq<char>>
    decreases parts.len(),
{
    if parts.len() == 0 {
        None
    } else {
        match bad_day(parts.drop_last()) {
            Some(n) => Some(n),
            None => match part_range(parts.last()) {
                Err(n) => Some(n),
                Ok(_) => None,
            },
        }
    }
}

/// Whether a list of parts names a day.
pub open spec fn names_day(parts: Seq<Seq<char>>, d: int) -> bool
    decreases parts.len(),
{
    if parts.len() == 0 {
        false
    } else {
        names_day(parts.drop_last(), d) || (part_range(parts.last()) matches Ok((from, to))
            && in_range(from, to, d))
    }
}

/// Whether words, lowered, mean every day.
pub open spec fn means_daily(low: Seq<char>) -> bool {
    low.len() == 0 || low == "daily"@ || low == "all"@
}

/// What a list of days, lowered, comes to.
pub open spec fn days_read(low: Seq<char>, r: Result<u8, ScheduleErrorView>) -> bool {
    let parts = pieces(low, ","@);
    match r {
        Ok(days) => if means_daily(low) {
            days == EVERY_DAY
        } else {
            &&& bad_day(parts) is None
            &&& !has_day(days, 7)
            &&& forall|d: u8| d < 7 ==> (#[trigger] has_day(days, d) == names_day(parts, d as int))
        },
        Err(e) => !means_daily(low) && bad_day(parts) is Some && e == ScheduleErrorView::BadDay(
            bad_day(parts)->Some_0,
        ),
    }
}

/// The result of reading days, as values.
pub open spec fn days_outcome(r: Result<u8, ScheduleError>) -> Result<u8, ScheduleErrorView> {
    match r {
        Ok(d) => Ok(d),
        Err(e) => Err(e@),
    }
}

/// What days read as.
pub open spec fn days_in(spec: Seq<char>) -> Result<u8, ScheduleErrorView> {
    choose|r: Result<u8, ScheduleErrorView>| #[trigger] days_read(lowercase(trimmed(spec)), r)
}

/// Days read as one thing.
pub proof fn lemma_days_read_once(
    low: Seq<char>,
    a: Result<u8, ScheduleErrorView>,
    b: Result<u8, ScheduleErrorView>,
)
    requires
        days_read(low, a),
        days_read(low, b),
    ensures
        a == b,
{
    match (a, b) {
        (Ok(x), Ok(y)) => {
            if !means_daily(low) {
                let parts = pieces(low, ","@);
                assert forall|d: u8| d < 8 implies #[trigger] has_day(x, d) == has_day(y, d) by {
                    if d < 7 {
                        assert(has_day(x, d) == names_day(parts, d as int));
                        assert(has_day(y, d) == names_day(parts, d as int));
                    }
                }
                assert(has_day(x, 0) == has_day(y, 0));
                assert(has_day(x, 1) == has_day(y, 1));
                assert(has_day(x, 2) == has_day(y, 2));
                assert(has_day(x, 3) == has_day(y, 3));
                assert(has_day(x, 4) == has_day(y, 4));
                assert(has_day(x, 5) == has_day(y, 5));
                assert(has_day(x, 6) == has_day(y, 6));
                assert(has_day(x, 7) == has_day(y, 7));
                assert(x == y) by (bit_vector)
                    requires
                        (x & (1u8 << 0u8) != 0) == (y & (1u8 << 0u8) != 0),
                        (x & (1u8 << 1u8) != 0) == (y & (1u8 << 1u8) != 0),
                        (x & (1u8 << 2u8) != 0) == (y & (1u8 << 2u8) != 0),
                        (x & (1u8 << 3u8) != 0) == (y & (1u8 << 3u8) != 0),
                        (x & (1u8 << 4u8) != 0) == (y & (1u8 << 4u8) != 0),
                        (x & (1u8 << 5u8) != 0) == (y & (1u8 << 5u8) != 0),
                        (x & (1u8 << 6u8) != 0) == (y & (1u8 << 6u8) != 0),
                        (x & (1u8 << 7u8) != 0) == (y & (1u8 << 7u8) != 0),
                ;
            }
        },
        _ => {},
    }
}

/// [`parse_days`], on words that have been trimmed and lowered.
pub fn parse_days_lowered(low: &str) -> (r: Result<u8, ScheduleError>)
    ensures
        days_read(low@, days_outcome(r)),
{
    if low.is_empty() || same(low, "daily") || same(low, "all") {
        return Ok(EVERY_DAY);
    }
    let parts = split_any(low, ",");
    let ghost ps = pieces(low@, ","@);
    let mut mask: u8 = 0;
    let mut i: usize = 0;
    proof {
        assert forall|d: u8| d < 8 implies !#[trigger] has_day(0, d) by {
            assert(0u8 & (1u8 << d) == 0) by (bit_vector);
        }
        assert(ps.take(0) =~= Seq::<Seq<char>>::empty());
    }
    while i < parts.len()
        invariant
            i <= parts@.len(),
            texts(parts@) == ps,
            ps == pieces(low@, ","@),
            !means_daily(low@),
            bad_day(ps.take(i as int)) is None,
            !has_day(mask, 7),
            forall|d: u8|
                d < 7 ==> (#[trigger] has_day(mask, d) == names_day(ps.take(i as int), d as int)),
        decreases parts@.len() - i,
    {
        let part = parts[i].as_str();
        proof {
            assert(ps[i as int] == part@);
            assert(ps.take(i as int + 1).drop_last() =~= ps.take(i as int));
            assert(ps.take(i as int + 1).last() == part@);
        }
        let (from, to): (u8, u8) = match split_once_any(part, "-") {
            Some((a, b)) => {
                let from = match read_day(a.as_str()) {
                    Ok(d) => d,
                    Err(n) => {
                        proof {
                            lemma_bad_day_sticks(ps, i as int + 1);
                        }
                        return Err(ScheduleError::BadDay(n));
                    },
                };
                let to = match read_day(b.as_str()) {
                    Ok(d) => d,
                    Err(n) => {
                        proof {
                            lemma_bad_day_sticks(ps, i as int + 1);
                        }
                        return Err(ScheduleError::BadDay(n));
                    },
                };
                (from, to)
            },
            None => match read_day(part) {
                Ok(d) => (d, d),
                Err(n) => {
                    proof {
                        lemma_bad_day_sticks(ps, i as int + 1);
                    }
                    return Err(ScheduleError::BadDay(n));
                },
            },
        };
        let ghost before = mask;
        let mut d: u8 = 0;
        while d < 7
            invariant
                d <= 7,
                from < 7,
                to < 7,
                !has_day(mask, 7),
                forall|e: u8|
                    e < 7 ==> (#[trigger] has_day(mask, e) == (has_day(before, e) || (e < d
                        && in_range(from as int, to as int, e as int)))),
            decreases 7 - d,
        {
            let inside = if from <= to {
                from <= d && d <= to
            } else {
                from <= d || d <= to
            };
            if inside {
                mask = with_day(mask, d);
            }
            d = d + 1;
        }
        i = i + 1;
    }
    proof {
        assert(ps.take(ps.len() as int) =~= ps);
    }
    Ok(mask)
}

/// A bad name stays the first one, whatever follows.
proof fn lemma_bad_day_sticks(parts: Seq<Seq<char>>, k: int)
    requires
        0 <= k <= parts.len(),
        bad_day(parts.take(k)) is Some,
    ensures
        bad_day(parts) == bad_day(parts.take(k)),
    decreases parts.len() - k,
{
    if k == parts.len() {
        assert(parts.take(k) =~= parts);
    } else {
        assert(parts.take(k + 1).drop_last() =~= parts.take(k));
        lemma_bad_day_sticks(parts, k + 1);
    }
}

/// `mon-fri`, `mon,wed,fri`, `sat`, `daily`. Gives the day bitmask.
pub fn parse_days(spec: &str) -> (r: Result<u8, ScheduleError>)
    ensures
        days_read(lowercase(trimmed(spec@)), days_outcome(r)),
        days_outcome(r) == days_in(spec@),
{
    let t = trim(spec);
    let low = to_lower(t.as_str());
    let r = parse_days_lowered(low.as_str());
    proof {
        lemma_days_read_once(low@, days_outcome(r), days_in(spec@));
    }
    r
}

/// The pieces of two lists joined are those of both.
proof fn lemma_pieces_joined(a: Seq<char>, b: Seq<char>)
    ensures
        pieces(a + ","@ + b, ","@) == pieces(a, ","@) + pieces(b, ","@),
    decreases a.len(),
{
    reveal_strlit(",");
    let comma = ","@;
    assert(comma =~= seq![',']);
    assert(comma[0] == ',');
    let s = a + comma + b;
    lemma_first_of(a, comma);
    let k = first_of(a, comma);
    assert forall|i: int| 0 <= i < k implies !comma.contains(#[trigger] s[i]) by {
        assert(s[i] == a[i]);
    }
    if k < a.len() {
        assert(s[k] == a[k]);
        lemma_first_of_is(s, comma, k);
        lemma_pieces_joined(a.skip(k + 1), b);
        assert(s.take(k) =~= a.take(k));
        assert(s.skip(k + 1) =~= a.skip(k + 1) + comma + b);
        assert(seq![a.take(k)] + (pieces(a.skip(k + 1), comma) + pieces(b, comma)) =~= (seq![
            a.take(k),
        ] + pieces(a.skip(k + 1), comma)) + pieces(b, comma));
    } else {
        assert(s[k] == ',');
        assert(comma.contains(s[k]));
        lemma_first_of_is(s, comma, k);
        assert(s.take(k) =~= a);
        assert(s.skip(k + 1) =~= b);
    }
}

/// Two lists of parts name what either names, and are good where both are.
proof fn lemma_parts_joined(p: Seq<Seq<char>>, q: Seq<Seq<char>>, d: int)
    requires
        bad_day(p) is None,
        bad_day(q) is None,
    ensures
        bad_day(p + q) is None,
        names_day(p + q, d) == (names_day(p, d) || names_day(q, d)),
    decreases q.len(),
{
    if q.len() == 0 {
        assert(p + q =~= p);
    } else {
        assert((p + q).drop_last() =~= p + q.drop_last());
        assert((p + q).last() == q.last());
        lemma_parts_joined(p, q.drop_last(), d);
    }
}

/// A set of days that holds what either of two holds.
proof fn lemma_days_joined(x: u8, y: u8, d: u8)
    requires
        d < 8,
    ensures
        has_day(x | y, d) == (has_day(x, d) || has_day(y, d)),
{
    assert(((x | y) & (1u8 << d) != 0) == ((x & (1u8 << d) != 0) || (y & (1u8 << d) != 0)))
        by (bit_vector)
        requires
            d < 8,
    ;
}

/// Joining two lists of days gives the days of both, whichever comes first. The lists are of days
/// and ranges, lowered as they are read; the words that mean every day stand alone.
pub proof fn law_joined_days_are_the_days_of_both(a: Seq<char>, b: Seq<char>, x: u8, y: u8)
    requires
        !means_daily(a),
        !means_daily(b),
        days_read(a, Ok(x)),
        days_read(b, Ok(y)),
    ensures
        days_read(a + ","@ + b, Ok(x | y)),
        days_read(b + ","@ + a, Ok(x | y)),
{
    lemma_joined_one_way(a, b, x, y);
    lemma_joined_one_way(b, a, y, x);
    assert(x | y == y | x) by (bit_vector);
}

proof fn lemma_joined_one_way(a: Seq<char>, b: Seq<char>, x: u8, y: u8)
    requires
        !means_daily(a),
        !means_daily(b),
        days_read(a, Ok(x)),
        days_read(b, Ok(y)),
    ensures
        days_read(a + ","@ + b, Ok(x | y)),
{
    let both = a + ","@ + b;
    let p = pieces(a, ","@);
    let q = pieces(b, ","@);
    lemma_pieces_joined(a, b);
    assert(!means_daily(both)) by {
        reveal_strlit(",");
        reveal_strlit("daily");
        reveal_strlit("all");
        assert(both[a.len() as int] == ',');
        if both == "daily"@ {
            assert("daily"@[a.len() as int] == ',');
        }
        if both == "all"@ {
            assert("all"@[a.len() as int] == ',');
        }
    }
    lemma_parts_joined(p, q, 0);
    lemma_days_joined(x, y, 7);
    assert forall|d: u8| d < 7 implies (#[trigger] has_day(x | y, d) == names_day(
        p + q,
        d as int,
    )) by {
        lemma_days_joined(x, y, d);
        lemma_parts_joined(p, q, d as int);
        assert(has_day(x, d) == names_day(p, d as int));
        assert(has_day(y, d) == names_day(q, d as int));
    }
}

/// A day that is found is a day.
proof fn lemma_day_from(n: Seq<char>, d: int)
    requires
        0 <= d,
    ensures
        day_from(n, d) matches Some(k) ==> d <= k < 7,
    decreases 7 - d,
{
    if d < 7 {
        lemma_day_from(n, d + 1);
    }
}

/// Days that could be read are at least one, and only days.
pub proof fn law_days_that_are_read_are_some(low: Seq<char>, days: u8)
    requires
        days_read(low, Ok(days)),
    ensures
        1 <= days <= 127,
{
    if !means_daily(low) {
        let parts = pieces(low, ","@);
        lemma_first_of(low, ","@);
        assert(parts.len() > 0);
        let part = parts.last();
        assert(part_range(part) is Ok);
        let from = part_range(part)->Ok_0.0;
        match split_once(part, "-"@) {
            Some((a, b)) => {
                lemma_day_from(trimmed(a), 0);
            },
            None => {
                lemma_day_from(trimmed(part), 0);
            },
        }
        let d = from as u8;
        assert(names_day(parts, d as int));
        assert(has_day(days, d));
        assert(days != 0) by (bit_vector)
            requires
                days & (1u8 << d) != 0,
        ;
        assert(days <= 127) by (bit_vector)
            requires
                days & (1u8 << 7u8) == 0,
        ;
    }
}

/// A range has every day from the first forward to the last, both included, over the end of the
/// week where that is on the way.
pub proof fn law_a_range_runs_forward(from: int, to: int, d: int)
    requires
        0 <= from < 7,
        0 <= to < 7,
        0 <= d < 7,
    ensures
        in_range(from, to, d) <==> (d - from) % 7 <= (to - from) % 7,
{
}

/// Case and the space around a list make no difference to what it comes to.
pub proof fn law_case_and_outer_space_do_not_matter(a: Seq<char>, b: Seq<char>)
    requires
        lowercase(trimmed(a)) == lowercase(trimmed(b)),
    ensures
        days_in(a) == days_in(b),
{
}

// -- intervals ---------------------------------------------------------------

/// How many seconds a unit stands for.
pub open spec fn unit_secs(c: char) -> nat {
    if c == 's' {
        1
    } else if c == 'm' {
        60
    } else if c == 'h' {
        3600
    } else if c == 'd' {
        86_400
    } else {
        0
    }
}

/// How many seconds a text writes: a number with a unit behind it, or bare seconds.
pub open spec fn duration_in(s: Seq<char>) -> Option<nat> {
    let t = trimmed(s);
    if t.len() > 0 && unit_secs(t.last()) > 0 {
        match number_within(t.drop_last(), u64::MAX as nat) {
            Some(n) if n * unit_secs(t.last()) <= u64::MAX => Some(n * unit_secs(t.last())),
            _ => None,
        }
    } else {
        number_within(t, u64::MAX as nat)
    }
}

/// `30s`, `30m`, `2h`, `1d`, or bare seconds.
pub fn parse_duration(spec: &str) -> (r: Result<u64, ScheduleError>)
    ensures
        match r {
            Ok(n) => duration_in(spec@) == Some(n as nat),
            Err(e) => duration_in(spec@) is None && e@ == ScheduleErrorView::BadDuration(spec@),
        },
{
    let t = trim(spec);
    let cs = chars_of(t.as_str());
    let n: usize = cs.len();
    let unit: u64 = if n == 0 {
        0
    } else {
        match cs[n - 1] {
            's' => 1,
            'm' => 60,
            'h' => 3600,
            'd' => 86_400,
            _ => 0,
        }
    };
    if unit > 0 {
        let digits = string_of(&cs, 0, n - 1);
        proof {
            assert(digits@ =~= t@.drop_last());
        }
        match parse_number(digits.as_str(), u64::MAX) {
            Some(v) => match v.checked_mul(unit) {
                Some(secs) => Ok(secs),
                None => Err(ScheduleError::BadDuration(owned(spec))),
            },
            None => Err(ScheduleError::BadDuration(owned(spec))),
        }
    } else {
        match parse_number(t.as_str(), u64::MAX) {
            Some(v) => Ok(v),
            None => Err(ScheduleError::BadDuration(owned(spec))),
        }
    }
}

/// A schedule, or why there is none, as values.
pub open spec fn when_outcome(r: Result<When, ScheduleError>) -> Result<When, ScheduleErrorView> {
    match r {
        Ok(w) => Ok(w),
        Err(e) => Err(e@),
    }
}

/// What an interval reads as.
pub open spec fn every_in(spec: Seq<char>) -> Result<When, ScheduleErrorView> {
    match duration_in(spec) {
        None => Err(ScheduleErrorView::BadDuration(spec)),
        Some(secs) => if secs < MIN_INTERVAL_SECS {
            Err(ScheduleErrorView::TooFast)
        } else {
            Ok(When::Every { secs: secs as u64 })
        },
    }
}

/// `30m`, `2h`, `1d`, or bare seconds.
pub fn parse_every(spec: &str) -> (r: Result<When, ScheduleError>)
    ensures
        when_outcome(r) == every_in(spec@),
{
    match parse_duration(spec) {
        Ok(secs) => if secs < MIN_INTERVAL_SECS {
            Err(ScheduleError::TooFast)
        } else {
            Ok(When::Every { secs })
        },
        Err(e) => Err(e),
    }
}

/// What a time of day reads as.
pub open spec fn at_in(spec: Seq<char>) -> Result<When, ScheduleErrorView> {
    let s = trimmed(spec);
    match split_once(s, ":"@) {
        None => Err(ScheduleErrorView::BadTime(s)),
        Some((h, m)) => match number_within(trimmed(h), u32::MAX as nat) {
            None => Err(ScheduleErrorView::BadHour(h)),
            Some(hour) => match number_within(trimmed(m), u32::MAX as nat) {
                None => Err(ScheduleErrorView::BadMinute(m)),
                Some(min) => if hour > 23 || min > 59 {
                    Err(ScheduleErrorView::NotATime(s))
                } else {
                    Ok(When::At { hour: hour as u32, min: min as u32, days: EVERY_DAY })
                },
            },
        },
    }
}

/// `9:00`, `09:00`, `21:30`. Local time.
pub fn parse_at(spec: &str) -> (r: Result<When, ScheduleError>)
    ensures
        when_outcome(r) == at_in(spec@),
{
    let s = trim(spec);
    match split_once_any(s.as_str(), ":") {
        None => Err(ScheduleError::BadTime(s)),
        Some((h, m)) => {
            let hour = match parse_number(trim(h.as_str()).as_str(), u32::MAX as u64) {
                Some(n) => n,
                None => {
                    return Err(ScheduleError::BadHour(h));
                },
            };
            let min = match parse_number(trim(m.as_str()).as_str(), u32::MAX as u64) {
                Some(n) => n,
                None => {
                    return Err(ScheduleError::BadMinute(m));
                },
            };
            if hour > 23 || min > 59 {
                return Err(ScheduleError::NotATime(s));
            }
            Ok(When::At { hour: hour as u32, min: min as u32, days: EVERY_DAY })
        },
    }
}

/// How an interval reads: in the largest unit that divides it.
pub open spec fn secs_text(secs: nat) -> Seq<char> {
    if secs % 86_400 == 0 {
        decimal(secs / 86_400) + "d"@
    } else if secs % 3600 == 0 {
        decimal(secs / 3600) + "h"@
    } else if secs % 60 == 0 {
        decimal(secs / 60) + "m"@
    } else {
        decimal(secs) + "s"@
    }
}

/// `30m`, `2h`, `1d`: how a schedule reads back to the person who set it.
pub fn secs_words(secs: u64) -> (r: String)
    ensures
        r@ == secs_text(secs as nat),
{
    let (n, unit): (u64, &'static str) = if secs % 86_400 == 0 {
        (secs / 86_400, "d")
    } else if secs % 3600 == 0 {
        (secs / 3600, "h")
    } else if secs % 60 == 0 {
        (secs / 60, "m")
    } else {
        (secs, "s")
    };
    let mut s = number(n);
    s.append(unit);
    s
}

impl When {
    /// How a schedule reads.
    pub open spec fn words(self) -> Seq<char> {
        match self {
            When::Every { secs } => "every "@ + secs_text(secs as nat),
            When::At { hour, min, days } => {
                let at = "at "@ + two_places(hour as nat) + ":"@ + two_places(min as nat);
                match days_words(days) {
                    Some(d) => at + " "@ + d,
                    None => at,
                }
            },
        }
    }

    /// `every 30m`, `at 09:00 mon–fri`.
    pub fn describe(&self) -> (r: String)
        ensures
            r@ == self.words(),
    {
        match self {
            When::Every { secs } => {
                let mut s = owned("every ");
                s.append(secs_words(*secs).as_str());
                s
            },
            When::At { hour, min, days } => {
                let mut s = owned("at ");
                s.append(padded(*hour as u64).as_str());
                s.append(":");
                s.append(padded(*min as u64).as_str());
                if let Some(d) = describe_days(*days) {
                    s.append(" ");
                    s.append(d.as_str());
                }
                s
            },
        }
    }
}

// -- the clock ---------------------------------------------------------------

/// Milliseconds from midnight to a time of day.
pub open spec fn day_millis(hour: int, min: int, sec: int) -> int {
    (hour * 3600 + min * 60 + sec) * 1000
}

/// The start of the second that a moment is in.
pub open spec fn second_of(now: int) -> int {
    now - now % 1000
}

/// When the local day began, given what the local clock shows now. A clock shows whole seconds,
/// so the day began a whole number of them before the second that now is in.
pub open spec fn day_start(now: int, here: LocalTime) -> int {
    second_of(now) - day_millis(here.hour as int, here.min as int, here.sec as int)
}

/// The most recent time today's, or yesterday's, `hour:min` came round, given what the local
/// clock shows now.
pub open spec fn occurrence(now: int, here: LocalTime, hour: int, min: int) -> int {
    let midnight = if day_start(now, here) < 0 {
        0
    } else {
        day_start(now, here)
    };
    let target = midnight + day_millis(hour, min, 0);
    if target <= now {
        target
    } else if target < 86_400_000 {
        0
    } else {
        target - 86_400_000
    }
}

/// The latest moment, in milliseconds, for which a time of day can be added without overflow.
pub const MAX_MILLIS: u64 = 0xff00_0000_0000_0000;

/// The most recent time today's, or yesterday's, `hour:min` came round, in unix millis.
///
/// A day is not always 86 400 seconds: twice a year a shift of the clock makes this an hour
/// out, which for "review the diff each morning" is not worth a date library.
pub fn last_occurrence(now: u64, here: LocalTime, hour: u32, min: u32) -> (r: u64)
    requires
        now <= MAX_MILLIS,
    ensures
        r == occurrence(now as int, here, hour as int, min as int),
{
    let gone: u64 = (here.hour as u64 * 3600 + here.min as u64 * 60 + here.sec as u64) * 1000;
    // A clock shows whole seconds, so what is left of this one is not part of the day's start:
    // with it, one occurrence would move from tick to tick, and be due at each.
    let midnight: u64 = (now - now % 1000).saturating_sub(gone);
    let target: u64 = midnight + (hour as u64 * 3600 + min as u64 * 60) * 1000;
    if target <= now {
        target
    } else {
        target.saturating_sub(86_400_000)
    }
}

/// How a clock and its offset read.
pub open spec fn clock_text(h: nat, m: nat, gmtoff: int) -> Seq<char> {
    let mag = (if gmtoff < 0 {
        -gmtoff
    } else {
        gmtoff
    }) / 60;
    let sign = if gmtoff < 0 && mag > 0 {
        "-"@
    } else {
        "+"@
    };
    let start = two_places(h) + ":"@ + two_places(m) + " UTC"@ + sign + two_places((mag / 60) as nat);
    if mag % 60 == 0 {
        start
    } else {
        start + ":"@ + two_places((mag % 60) as nat)
    }
}

/// A local time with the offset that produced it, which is the half that matters.
///
/// `gmtoff` is seconds east of UTC.
pub fn format_clock(h: u32, m: u32, gmtoff: i64) -> (r: String)
    ensures
        r@ == clock_text(h as nat, m as nat, gmtoff as int),
{
    let mag: u64 = (if gmtoff < 0 {
        (-(gmtoff + 1)) as u64 + 1
    } else {
        gmtoff as u64
    }) / 60;
    let mut s = padded(h as u64);
    s.append(":");
    s.append(padded(m as u64).as_str());
    s.append(" UTC");
    // The sign is taken before the magnitude, so `-03:30` does not come out as `-03:-30`.
    if gmtoff < 0 && mag > 0 {
        s.append("-");
    } else {
        s.append("+");
    }
    s.append(padded(mag / 60).as_str());
    if mag % 60 != 0 {
        s.append(":");
        s.append(padded(mag % 60).as_str());
    }
    s
}

/// A date, as `2026-08-15`.
pub open spec fn date_text(year: nat, month: nat, day: nat) -> Seq<char> {
    let y = if year < 10 {
        "000"@
    } else if year < 100 {
        "00"@
    } else if year < 1000 {
        "0"@
    } else {
        ""@
    };
    y + decimal(year) + "-"@ + two_places(month) + "-"@ + two_places(day)
}

/// A date, as `2026-08-15`.
pub fn format_date(year: u32, month: u32, day: u32) -> (r: String)
    ensures
        r@ == date_text(year as nat, month as nat, day as nat),
{
    let mut s = owned(
        if year < 10 {
            "000"
        } else if year < 100 {
            "00"
        } else if year < 1000 {
            "0"
        } else {
            ""
        },
    );
    s.append(number(year as u64).as_str());
    s.append("-");
    s.append(padded(month as u64).as_str());
    s.append("-");
    s.append(padded(day as u64).as_str());
    s
}

} // verus!
