//! What a schedule means, said in numbers: units, days, times of day and how they read.

use crate::schedule::{
    at_in, clock_text, contiguous, date_text, day_from, day_name, day_of, days_below, days_read,
    days_words, duration_in, every_in, has_day, law_a_range_runs_forward, names_day, occurrence,
    part_range, secs_text, unit_secs, LocalTime, ScheduleErrorView, When,
};
use crate::text::{
    all_digits, decimal, is_digit, is_space, law_decimal_reads_back, lemma_drop_while,
    lemma_first_of_is, lemma_skip_while, number_in, pieces, trimmed, two_places, value_of, white,
};
use vstd::prelude::*;

verus! {

// -- reading -----------------------------------------------------------------

/// A text with nothing but digits in it, and perhaps one more character behind them that is no
/// space, has no space around it.
proof fn lemma_tight(s: Seq<char>)
    requires
        s.len() > 0,
        !is_space(s[0]),
        !is_space(s.last()),
    ensures
        trimmed(s) == s,
{
    lemma_skip_while(s, white(), 0);
    assert(s.subrange(0, s.len() as int) =~= s);
    lemma_drop_while(s, white(), s.len() as int);
}

/// A number reads back, with or without a place for it.
proof fn lemma_number(n: nat)
    ensures
        number_in(decimal(n)) == Some(n),
        decimal(n).len() > 0,
        all_digits(decimal(n)),
        trimmed(decimal(n)) == decimal(n),
{
    law_decimal_reads_back(n);
    let d = decimal(n);
    assert(is_digit(d[0]));
    assert(is_digit(d[d.len() - 1]));
    lemma_tight(d);
}

proof fn lemma_with_unit(n: nat, unit: Seq<char>, c: char)
    requires
        unit == seq![c],
        !is_space(c),
    ensures
        trimmed(decimal(n) + unit) == decimal(n) + unit,
        (decimal(n) + unit).last() == c,
        (decimal(n) + unit).drop_last() == decimal(n),
        number_in(decimal(n)) == Some(n),
{
    lemma_number(n);
    let d = decimal(n);
    let s = d + unit;
    assert(s[0] == d[0]);
    assert(is_digit(d[0]));
    assert(s.last() == c);
    lemma_tight(s);
    assert(s.drop_last() =~= d);
}

/// A second is 1, a minute 60, an hour 3600 and a day 86400: a number with a unit behind it is
/// that many of them, and a bare number is seconds.
pub proof fn law_a_unit_is_worth_its_seconds(n: nat)
    ensures
        n <= u64::MAX ==> duration_in(decimal(n)) == Some(n),
        n <= u64::MAX ==> duration_in(decimal(n) + "s"@) == Some(n),
        n * 60 <= u64::MAX ==> duration_in(decimal(n) + "m"@) == Some(n * 60),
        n * 3600 <= u64::MAX ==> duration_in(decimal(n) + "h"@) == Some(n * 3600),
        n * 86400 <= u64::MAX ==> duration_in(decimal(n) + "d"@) == Some(n * 86400),
{
    reveal_strlit("s");
    reveal_strlit("m");
    reveal_strlit("h");
    reveal_strlit("d");
    assert("s"@ =~= seq!['s']);
    assert("m"@ =~= seq!['m']);
    assert("h"@ =~= seq!['h']);
    assert("d"@ =~= seq!['d']);
    lemma_with_unit(n, "s"@, 's');
    lemma_with_unit(n, "m"@, 'm');
    lemma_with_unit(n, "h"@, 'h');
    lemma_with_unit(n, "d"@, 'd');
    lemma_number(n);
    let d = decimal(n);
    assert(is_digit(d[d.len() - 1]));
    assert(unit_secs(d.last()) == 0);
}

/// So is an interval, where it is a minute or more.
pub proof fn law_an_interval_is_as_long_as_it_says(n: nat)
    ensures
        60 <= n <= u64::MAX ==> every_in(decimal(n)) == Ok::<When, ScheduleErrorView>(
            When::Every { secs: n as u64 },
        ),
        60 <= n <= u64::MAX ==> every_in(decimal(n) + "s"@) == Ok::<When, ScheduleErrorView>(
            When::Every { secs: n as u64 },
        ),
        1 <= n && n * 60 <= u64::MAX ==> every_in(decimal(n) + "m"@) == Ok::<
            When,
            ScheduleErrorView,
        >(When::Every { secs: (n * 60) as u64 }),
        1 <= n && n * 3600 <= u64::MAX ==> every_in(decimal(n) + "h"@) == Ok::<
            When,
            ScheduleErrorView,
        >(When::Every { secs: (n * 3600) as u64 }),
        1 <= n && n * 86400 <= u64::MAX ==> every_in(decimal(n) + "d"@) == Ok::<
            When,
            ScheduleErrorView,
        >(When::Every { secs: (n * 86400) as u64 }),
        n < 60 ==> every_in(decimal(n)) == Err::<When, ScheduleErrorView>(
            ScheduleErrorView::TooFast,
        ),
{
    law_a_unit_is_worth_its_seconds(n);
}

/// An interval reads back as it was written, in whichever unit that was.
pub proof fn law_an_interval_reads_back(secs: u64)
    requires
        secs >= 60,
    ensures
        every_in(secs_text(secs as nat)) == Ok::<When, ScheduleErrorView>(When::Every { secs }),
{
    let n = secs as nat;
    law_an_interval_is_as_long_as_it_says(n);
    law_an_interval_is_as_long_as_it_says(n / 60);
    law_an_interval_is_as_long_as_it_says(n / 3600);
    law_an_interval_is_as_long_as_it_says(n / 86400);
}

/// And it reads in the largest unit that comes out even.
pub proof fn law_an_interval_reads_in_its_largest_unit(n: nat)
    requires
        n >= 1,
    ensures
        secs_text(n * 86400) == decimal(n) + "d"@,
        n % 24 != 0 ==> secs_text(n * 3600) == decimal(n) + "h"@,
        n % 60 != 0 ==> secs_text(n * 60) == decimal(n) + "m"@,
        n % 60 != 0 ==> secs_text(n) == decimal(n) + "s"@,
{
    assert(n * 86400 / 86400 == n);
    assert(n * 86400 % 86400 == 0);
}

/// Whatever is read as an interval is at least a minute, and is no time of day.
pub proof fn law_no_interval_is_under_a_minute(spec: Seq<char>)
    ensures
        every_in(spec) matches Ok(w) ==> (w matches When::Every { secs } && secs >= 60),
        duration_in(spec) matches Some(n) ==> n <= u64::MAX && (every_in(spec) is Err <==> n < 60),
{
}

// -- times of day ------------------------------------------------------------

proof fn lemma_two_places(n: nat)
    ensures
        number_in(two_places(n)) == Some(n),
        two_places(n).len() > 0,
        all_digits(two_places(n)),
        trimmed(two_places(n)) == two_places(n),
        10 <= n < 100 ==> two_places(n).len() == 2,
        n < 10 ==> two_places(n) == seq!['0'] + decimal(n) && two_places(n).len() == 2,
{
    lemma_number(n);
    let t = two_places(n);
    let d = decimal(n);
    if n < 10 {
        assert(d.len() == 1);
        assert(t =~= seq!['0', d[0]]);
        assert(t.drop_last() =~= seq!['0']);
        assert(seq!['0'].drop_last() =~= Seq::<char>::empty());
        assert(value_of(Seq::<char>::empty()) == 0);
        assert(value_of(seq!['0']) == 0);
        assert(d.drop_last() =~= Seq::<char>::empty());
        assert(value_of(d) == (d.last() as u32 - 48) as nat);
        assert(value_of(t) == n);
        assert(is_digit(d[0]));
        lemma_tight(t);
    } else if n < 100 {
        assert(decimal(n / 10).len() == 1);
    }
}

proof fn lemma_at(a: Seq<char>, b: Seq<char>, h: nat, m: nat)
    requires
        a.len() > 0,
        b.len() > 0,
        all_digits(a),
        all_digits(b),
        trimmed(a) == a,
        trimmed(b) == b,
        number_in(a) == Some(h),
        number_in(b) == Some(m),
        h <= u32::MAX,
        m <= u32::MAX,
    ensures
        h <= 23 && m <= 59 ==> at_in(a + ":"@ + b) == Ok::<When, ScheduleErrorView>(
            When::At { hour: h as u32, min: m as u32, days: 127 },
        ),
        h > 23 || m > 59 ==> at_in(a + ":"@ + b) == Err::<When, ScheduleErrorView>(
            ScheduleErrorView::NotATime(a + ":"@ + b),
        ),
{
    reveal_strlit(":");
    let c = ":"@;
    assert(c =~= seq![':']);
    assert(c[0] == ':');
    let s = a + c + b;
    assert(s[0] == a[0] && is_digit(a[0]));
    assert(s.last() == b.last() && is_digit(b[b.len() - 1]));
    lemma_tight(s);
    assert forall|i: int| 0 <= i < a.len() implies !c.contains(#[trigger] s[i]) by {
        assert(is_digit(a[i]));
    }
    assert(s[a.len() as int] == ':');
    assert(c.contains(s[a.len() as int]));
    lemma_first_of_is(s, c, a.len() as int);
    assert(s.take(a.len() as int) =~= a);
    assert(s.skip(a.len() as int + 1) =~= b);
}

/// A time of day reads as the hour and the minute that it says, on every day of the week: the
/// seven lowest bits. Hours go up to 23 and minutes to 59, with or without a zero before them.
pub proof fn law_a_time_of_day_reads_as_it_says(h: nat, m: nat)
    requires
        h <= u32::MAX,
        m <= u32::MAX,
    ensures
        h <= 23 && m <= 59 ==> at_in(two_places(h) + ":"@ + two_places(m)) == Ok::<
            When,
            ScheduleErrorView,
        >(When::At { hour: h as u32, min: m as u32, days: 127 }),
        h <= 23 && m <= 59 ==> at_in(decimal(h) + ":"@ + decimal(m)) == Ok::<
            When,
            ScheduleErrorView,
        >(When::At { hour: h as u32, min: m as u32, days: 127 }),
        h > 23 || m > 59 ==> at_in(decimal(h) + ":"@ + decimal(m)) is Err,
{
    lemma_number(h);
    lemma_number(m);
    lemma_two_places(h);
    lemma_two_places(m);
    lemma_at(two_places(h), two_places(m), h, m);
    lemma_at(decimal(h), decimal(m), h, m);
}

/// What is read as a time of day is one.
pub proof fn law_only_a_time_of_day_reads_as_one(spec: Seq<char>)
    ensures
        at_in(spec) matches Ok(w) ==> (w matches When::At { hour, min, days } && hour < 24 && min
            < 60 && days == 127),
{
}

/// A time of day comes round at its own hour and minute, no more than a day ago, and not in the
/// future. `here` is what the local clock shows now, so the local midnight is so far back.
pub proof fn law_a_time_of_day_comes_round(now: int, here: LocalTime, hour: int, min: int)
    requires
        here.hour < 24,
        here.min < 60,
        here.sec < 60,
        0 <= hour < 24,
        0 <= min < 60,
        now >= 2 * 86_400_000,
    ensures
        ({
            let shown = here.hour * 3_600_000 + here.min * 60_000 + here.sec * 1_000;
            let wanted = hour * 3_600_000 + min * 60_000;
            let midnight = now - now % 1_000 - shown;
            let at = occurrence(now, here, hour, min);
            &&& now - 86_400_000 < at <= now
            &&& at == midnight + wanted || at == midnight + wanted - 86_400_000
        }),
{
}

// -- days --------------------------------------------------------------------

/// The days of the week, Sunday first.
pub proof fn law_the_week_begins_on_sunday()
    ensures
        day_of("sun"@) == Some(0int),
        day_of("mon"@) == Some(1int),
        day_of("tue"@) == Some(2int),
        day_of("wed"@) == Some(3int),
        day_of("thu"@) == Some(4int),
        day_of("fri"@) == Some(5int),
        day_of("sat"@) == Some(6int),
{
    reveal_strlit("sun");
    reveal_strlit("mon");
    reveal_strlit("tue");
    reveal_strlit("wed");
    reveal_strlit("thu");
    reveal_strlit("fri");
    reveal_strlit("sat");
    lemma_tight("sun"@);
    lemma_tight("mon"@);
    lemma_tight("tue"@);
    lemma_tight("wed"@);
    lemma_tight("thu"@);
    lemma_tight("fri"@);
    lemma_tight("sat"@);
    assert("sun"@[0] == 's' && "sun"@[1] == 'u');
    assert("mon"@[0] == 'm');
    assert("tue"@[0] == 't' && "tue"@[1] == 'u');
    assert("wed"@[0] == 'w');
    assert("thu"@[0] == 't' && "thu"@[1] == 'h');
    assert("fri"@[0] == 'f');
    assert("sat"@[0] == 's' && "sat"@[1] == 'a');
    reveal_with_fuel(day_from, 8);
}

/// A day written out means what its first three letters mean.
pub proof fn law_a_day_goes_by_its_first_three_letters(name: Seq<char>)
    requires
        name.len() > 3,
        trimmed(name) == name,
    ensures
        name.take(3) == "mon"@ ==> day_of(name) == Some(1int),
        name.take(3) == "sun"@ ==> day_of(name) == Some(0int),
        name.take(3) == "sat"@ ==> day_of(name) == Some(6int),
        day_of(name) is Some ==> day_of(name.take(3)) == day_of(name),
{
    reveal_strlit("sun");
    reveal_strlit("mon");
    reveal_strlit("tue");
    reveal_strlit("wed");
    reveal_strlit("thu");
    reveal_strlit("fri");
    reveal_strlit("sat");
    law_the_week_begins_on_sunday();
    reveal_with_fuel(day_from, 8);
    assert(name.take(3) =~= name.subrange(0, 3));
    assert("sun"@[0] == 's' && "sun"@[1] == 'u');
    assert("mon"@[0] == 'm');
    assert("tue"@[0] == 't' && "tue"@[1] == 'u');
    assert("wed"@[0] == 'w');
    assert("thu"@[0] == 't' && "thu"@[1] == 'h');
    assert("fri"@[0] == 'f');
    assert("sat"@[0] == 's' && "sat"@[1] == 'a');
}

/// A list of one range names the days from its first forward to its last, and no other.
pub proof fn law_a_range_is_its_days(a: Seq<char>, b: Seq<char>, from: int, to: int, days: u8)
    requires
        day_of(a) == Some(from),
        day_of(b) == Some(to),
        0 <= from < 7,
        0 <= to < 7,
        forall|i: int| 0 <= i < a.len() ==> #[trigger] a[i] != '-' && a[i] != ',',
        forall|i: int| 0 <= i < b.len() ==> #[trigger] b[i] != ',',
        days_read(a + "-"@ + b, Ok(days)),
    ensures
        forall|d: u8|
            d < 7 ==> (#[trigger] has_day(days, d) <==> (d - from) % 7 <= (to - from) % 7),
{
    reveal_strlit("-");
    reveal_strlit(",");
    reveal_strlit("daily");
    reveal_strlit("all");
    let dash = "-"@;
    let comma = ","@;
    assert(dash =~= seq!['-']);
    assert(comma =~= seq![',']);
    let s = a + dash + b;
    assert(s[a.len() as int] == '-');
    if s == "daily"@ {
        assert("daily"@[a.len() as int] == '-');
    }
    if s == "all"@ {
        assert("all"@[a.len() as int] == '-');
    }
    assert forall|i: int| 0 <= i < s.len() implies !comma.contains(#[trigger] s[i]) by {
        if i < a.len() {
            assert(s[i] == a[i]);
        } else if i > a.len() {
            assert(s[i] == b[i - a.len() - 1]);
        }
    }
    lemma_first_of_is(s, comma, s.len() as int);
    assert forall|i: int| 0 <= i < a.len() implies !dash.contains(#[trigger] s[i]) by {
        assert(s[i] == a[i]);
    }
    assert(dash[0] == '-');
    assert(dash.contains(s[a.len() as int]));
    lemma_first_of_is(s, dash, a.len() as int);
    assert(s.take(a.len() as int) =~= a);
    assert(s.skip(a.len() as int + 1) =~= b);
    let parts = pieces(s, comma);
    assert(parts =~= seq![s]);
    assert(part_range(s) == Ok::<(int, int), Seq<char>>((from, to)));
    assert(parts.drop_last() =~= Seq::<Seq<char>>::empty());
    assert(parts.last() == s);
    reveal_with_fuel(names_day, 2);
    assert forall|d: u8| d < 7 implies (#[trigger] has_day(days, d) <==> (d - from) % 7 <= (to
        - from) % 7) by {
        assert(has_day(days, d) == names_day(parts, d as int));
        law_a_range_runs_forward(from, to, d as int);
    }
}

/// And a list of one day names that day alone.
pub proof fn law_a_day_is_itself(a: Seq<char>, day: int, days: u8)
    requires
        day_of(a) == Some(day),
        0 <= day < 7,
        forall|i: int| 0 <= i < a.len() ==> #[trigger] a[i] != '-' && a[i] != ',',
        a.len() > 0,
        a != "daily"@,
        a != "all"@,
        days_read(a, Ok(days)),
    ensures
        forall|d: u8| d < 7 ==> (#[trigger] has_day(days, d) <==> d == day),
{
    reveal_strlit("-");
    reveal_strlit(",");
    let dash = "-"@;
    let comma = ","@;
    assert(dash =~= seq!['-']);
    assert(comma =~= seq![',']);
    lemma_first_of_is(a, comma, a.len() as int);
    lemma_first_of_is(a, dash, a.len() as int);
    let parts = pieces(a, comma);
    assert(parts =~= seq![a]);
    assert(parts.drop_last() =~= Seq::<Seq<char>>::empty());
    assert(parts.last() == a);
    reveal_with_fuel(names_day, 2);
    assert forall|d: u8| d < 7 implies (#[trigger] has_day(days, d) <==> d == day) by {
        assert(has_day(days, d) == names_day(parts, d as int));
    }
}

/// Days named by nothing are all seven.
pub proof fn law_no_days_means_all_days(low: Seq<char>, days: u8)
    requires
        low.len() == 0 || low == "daily"@ || low == "all"@,
        days_read(low, Ok(days)),
    ensures
        days == 127,
{
}

/// A run of three days or more reads as its ends, a shorter list or one with gaps name by name,
/// and every day needs no saying.
pub proof fn law_a_run_of_days_reads_as_its_ends(days: u8, from: int, to: int)
    requires
        0 <= from,
        from + 2 <= to < 7,
        to - from < 6,
        forall|d: u8| d < 7 ==> (#[trigger] has_day(days, d) <==> from <= d <= to),
    ensures
        days_words(days) == Some(day_name(from) + "–"@ + day_name(to)),
{
    reveal_with_fuel(days_below, 8);
    let set = days_below(days, 7);
    assert(has_day(days, 0u8) == (from <= 0 <= to));
    assert(has_day(days, 1u8) == (from <= 1 <= to));
    assert(has_day(days, 2u8) == (from <= 2 <= to));
    assert(has_day(days, 3u8) == (from <= 3 <= to));
    assert(has_day(days, 4u8) == (from <= 4 <= to));
    assert(has_day(days, 5u8) == (from <= 5 <= to));
    assert(has_day(days, 6u8) == (from <= 6 <= to));
    assert(set =~= Seq::new((to - from + 1) as nat, |i: int| from + i));
    assert(contiguous(set));
}

/// What a day is called.
pub proof fn law_the_days_have_their_names()
    ensures
        day_name(0) == "sun"@,
        day_name(1) == "mon"@,
        day_name(2) == "tue"@,
        day_name(3) == "wed"@,
        day_name(4) == "thu"@,
        day_name(5) == "fri"@,
        day_name(6) == "sat"@,
        days_words(127) is None,
{
    reveal_with_fuel(days_below, 8);
    assert(has_day(127, 0u8)) by {
        assert(127u8 & (1u8 << 0u8) != 0) by (bit_vector);
    }
    assert(has_day(127, 1u8)) by {
        assert(127u8 & (1u8 << 1u8) != 0) by (bit_vector);
    }
    assert(has_day(127, 2u8)) by {
        assert(127u8 & (1u8 << 2u8) != 0) by (bit_vector);
    }
    assert(has_day(127, 3u8)) by {
        assert(127u8 & (1u8 << 3u8) != 0) by (bit_vector);
    }
    assert(has_day(127, 4u8)) by {
        assert(127u8 & (1u8 << 4u8) != 0) by (bit_vector);
    }
    assert(has_day(127, 5u8)) by {
        assert(127u8 & (1u8 << 5u8) != 0) by (bit_vector);
    }
    assert(has_day(127, 6u8)) by {
        assert(127u8 & (1u8 << 6u8) != 0) by (bit_vector);
    }
}

// -- how it reads ------------------------------------------------------------

/// A schedule reads with what it does: an interval after `every`, a time of day after `at`.
pub proof fn law_a_schedule_reads_as_it_was_set(secs: u64, hour: u32, min: u32)
    ensures
        (When::Every { secs }).words() == "every "@ + secs_text(secs as nat),
        (When::At { hour, min, days: 127 }).words() == "at "@ + two_places(hour as nat) + ":"@
            + two_places(min as nat),
{
    law_the_days_have_their_names();
}

/// East of Greenwich is plus and west is minus, in whole hours where that is enough.
pub proof fn law_an_offset_reads_in_hours(h: nat, m: nat, off: nat)
    ensures
        clock_text(h, m, (off * 3600) as int) == two_places(h) + ":"@ + two_places(m) + " UTC"@
            + "+"@ + two_places(off),
        off > 0 ==> clock_text(h, m, -(off * 3600)) == two_places(h) + ":"@ + two_places(m)
            + " UTC"@ + "-"@ + two_places(off),
{
    assert((off * 3600) / 60 == off * 60);
    assert((off * 60) / 60 == off);
    assert((off * 60) % 60 == 0);
}

/// And with the minutes where it is not.
pub proof fn law_an_offset_has_its_minutes(h: nat, m: nat, off: nat, rest: nat)
    requires
        0 < rest < 60,
    ensures
        clock_text(h, m, -(off * 3600 + rest * 60)) == two_places(h) + ":"@ + two_places(m)
            + " UTC"@ + "-"@ + two_places(off) + ":"@ + two_places(rest),
{
    assert((off * 3600 + rest * 60) / 60 == off * 60 + rest);
    assert((off * 60 + rest) / 60 == off);
    assert((off * 60 + rest) % 60 == rest);
}

/// A date is year, month and day, the year on four places.
pub proof fn law_a_date_reads_year_first(year: nat, month: nat, day: nat)
    requires
        1000 <= year,
    ensures
        date_text(year, month, day) == decimal(year) + "-"@ + two_places(month) + "-"@
            + two_places(day),
{
    reveal_strlit("");
    assert(""@ + decimal(year) =~= decimal(year));
}

/// A rule that runs on no day never runs, and says so.
pub proof fn law_no_day_is_never(days: u8)
    requires
        days_below(days, 7).len() == 0,
    ensures
        days_words(days) == Some("never"@),
{
}

} // verus!
