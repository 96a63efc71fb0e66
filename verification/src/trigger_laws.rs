//! What a rule promises, in numbers and field by field: when it is due, what holds it back, what
//! firing it does, and what is written down.

use crate::schedule::{occurrence, LocalTime, When};
use crate::seqs::{lemma_first_where, lemma_first_where_is};
use crate::tasks::{adding, BoardView, TaskState};
use crate::text::{decimal, trimmed};
use crate::triggers::{
    adding_rule, disarmed, due_ids, firing, in_flight, is_living, judged, performing, placed_by,
    ready, recorded, spawned_text, stepped, ActView, ConditionView, FiringView, ProbeAnswer,
    StepView, StoreView, TriggerError, TriggerView, WhatView,
};
use vstd::prelude::*;

verus! {

// -- when --------------------------------------------------------------------

/// What a rule's next turn is counted from: the last time it came round, or else when it last
/// fired, or else when it was made.
pub proof fn law_a_turn_is_counted_from_the_last(t: TriggerView)
    ensures
        t.last_eval matches Some(at) ==> t.measured_from() == at,
        t.last_eval is None && t.last_fired is Some ==> t.measured_from() == t.last_fired->Some_0,
        t.last_eval is None && t.last_fired is None ==> t.measured_from() == t.created,
{
}

/// An interval is due once so many seconds have gone by since its last turn, and not before.
pub proof fn law_an_interval_is_due_when_it_is_over(
    t: TriggerView,
    secs: u64,
    now: u64,
    here: LocalTime,
    wday: u32,
)
    requires
        t.when == (When::Every { secs }),
        t.measured_from() <= now,
    ensures
        t.due(now, here, wday) <==> now - t.measured_from() >= secs * 1000,
{
}

/// A time of day is due once it has come round since the last turn, where both that day and this
/// one are among the rule's.
pub proof fn law_a_time_of_day_is_due_when_it_came_round(
    t: TriggerView,
    hour: u32,
    min: u32,
    days: u8,
    now: u64,
    here: LocalTime,
    wday: u32,
)
    requires
        t.when == (When::At { hour, min, days }),
    ensures
        t.due(now, here, wday) <==> days & (1u8 << (wday as u8)) != 0 && days & (1u8 << (
        here.wday as u8)) != 0 && t.measured_from() < occurrence(
            now as int,
            here,
            hour as int,
            min as int,
        ),
        t.point(now, here) == occurrence(now as int, here, hour as int, min as int),
{
}

/// A rule is among those to fire exactly where it is there, on, due, and has no work of its own
/// that is open or claimed.
pub proof fn law_what_is_due_is_ready(
    ts: Seq<TriggerView>,
    b: BoardView,
    now: u64,
    here: LocalTime,
    wdays: Seq<u32>,
    n: int,
    id: u64,
)
    requires
        0 <= n <= ts.len(),
    ensures
        due_ids(ts, b, now, here, wdays, n).contains(id) <==> exists|i: int|
            0 <= i < n && (#[trigger] ts[i]).id == id && !ts[i].deleted && ts[i].enabled && ts[i].due(
                now,
                here,
                wdays[i],
            ) && !in_flight(b, ts[i]),
    decreases n,
{
    if n > 0 {
        law_what_is_due_is_ready(ts, b, now, here, wdays, n - 1, id);
        let x = due_ids(ts, b, now, here, wdays, n - 1);
        let y = due_ids(ts, b, now, here, wdays, n);
        if x.contains(id) {
            let k = choose|k: int| 0 <= k < x.len() && x[k] == id;
            assert(y[k] == id);
        }
        if y.contains(id) && !x.contains(id) {
            let k = choose|k: int| 0 <= k < y.len() && y[k] == id;
            if k < x.len() {
                assert(x[k] == id);
            }
            assert(ts[n - 1].id == id);
        }
        if ts[n - 1].id == id && ready(ts[n - 1], b, now, here, wdays[n - 1]) {
            assert(y[x.len() as int] == id);
        }
    }
}

/// Work is a rule's own by who asked for it, `trigger:` and the rule's number; and it is in the way
/// while it is open or claimed. Only a rule that places work can have any.
pub proof fn law_a_rule_waits_for_its_own_work(b: BoardView, t: TriggerView)
    ensures
        in_flight(b, t) <==> t.what is Task && exists|i: int|
            0 <= i < b.tasks.len() && (#[trigger] b.tasks[i]).by == "trigger:"@ + decimal(
                t.id as nat,
            ) && (b.tasks[i].state == TaskState::Open || b.tasks[i].state == TaskState::Claimed),
{
    if in_flight(b, t) {
        let i = choose|i: int| 0 <= i < b.tasks.len() && placed_by(t.id)(#[trigger] b.tasks[i]);
        assert(b.tasks[i].by == "trigger:"@ + decimal(t.id as nat));
    }
    if t.what is Task && exists|i: int|
        0 <= i < b.tasks.len() && (#[trigger] b.tasks[i]).by == "trigger:"@ + decimal(t.id as nat)
            && (b.tasks[i].state == TaskState::Open || b.tasks[i].state == TaskState::Claimed) {
        let i = choose|i: int|
            0 <= i < b.tasks.len() && (#[trigger] b.tasks[i]).by == "trigger:"@ + decimal(
                t.id as nat,
            ) && (b.tasks[i].state == TaskState::Open || b.tasks[i].state == TaskState::Claimed);
        assert(placed_by(t.id)(b.tasks[i]));
    }
}

/// Twelve firings an hour: what is left of them is taken from the front of what is due, and the
/// rest is held back. Where none are left nothing fires.
pub proof fn law_twelve_firings_an_hour(s: StoreView, due: Seq<u64>, recent: nat, now: u64)
    ensures
        recent + due.len() <= 12 ==> firing(s, due, true, recent, now).1.ids == due,
        recent < 12 && recent + due.len() > 12 ==> firing(s, due, true, recent, now).1.ids
            == due.take(12 - recent),
        recent >= 12 ==> firing(s, due, true, recent, now).1.ids.len() == 0,
        firing(s, due, false, recent, now).1.ids.len() == 0,
        firing(s, due, true, recent, now).0.triggers == s.triggers,
        firing(s, due, true, recent, now).0.probes == s.probes,
{
    if due.len() == 0 {
        assert(firing(s, due, true, recent, now).1.ids =~= due);
    }
}

/// What is held back is said, once an hour where nothing fires at all.
pub proof fn law_the_ceiling_is_announced(s: StoreView, due: Seq<u64>, recent: nat, now: u64)
    ensures
        recent + due.len() <= 12 ==> firing(s, due, true, recent, now).1.notices.len() == 0,
        recent < 12 && recent + due.len() > 12 ==> firing(s, due, true, recent, now).1.notices
            == seq![decimal(due.len()) + " triggers due, firing "@ + decimal((12 - recent) as nat)
            + " — hourly ceiling"@],
        recent >= 12 && due.len() > 0 && now - s.capped_notice_at >= 3_600_000 ==> firing(
            s,
            due,
            true,
            recent,
            now,
        ).1.notices.len() == 1 && firing(s, due, true, recent, now).0.capped_notice_at == now,
        recent >= 12 && now - s.capped_notice_at < 3_600_000 ==> firing(
            s,
            due,
            true,
            recent,
            now,
        ) == (s, FiringView { notices: Seq::empty(), ids: Seq::empty() }),
{
}

// -- conditions --------------------------------------------------------------

/// A rule without a condition goes. One with a condition has it asked first, one at a time; goes
/// where it is met; and does not where it is not, where it could not be run, or where it has taken
/// a minute.
pub proof fn law_a_condition_decides(
    s: StoreView,
    id: u64,
    cmd: Seq<char>,
    answer: ProbeAnswer,
    now: u64,
)
    ensures
        judged(s, id, None, answer, now) == (s, ConditionView::Yes),
        !s.probes.contains_key(id) ==> judged(s, id, Some(cmd), answer, now) == (
            s,
            ConditionView::Start(cmd),
        ),
        s.probes.contains_key(id) ==> {
            let (after, c) = judged(s, id, Some(cmd), answer, now);
            &&& (answer == ProbeAnswer::Met ==> c == ConditionView::Yes)
            &&& (answer == ProbeAnswer::NotMet ==> c == ConditionView::No)
            &&& (answer == ProbeAnswer::Lost ==> c is Failed)
            &&& (answer == ProbeAnswer::Pending && now - s.probes[id] < 60_000 ==> c
                == ConditionView::Waiting && after == s)
            &&& (answer == ProbeAnswer::Pending && now - s.probes[id] >= 60_000 ==> c is Failed)
            &&& (c !is Waiting ==> after.probes == s.probes.remove(id) && after.triggers
                == s.triggers)
        },
{
}

proof fn lemma_living(s: StoreView, i: int)
    requires
        s.wf(),
        0 <= i < s.triggers.len(),
        !s.triggers[i].deleted,
    ensures
        s.find(s.triggers[i].id) == i,
{
    let id = s.triggers[i].id;
    let p = is_living(id);
    assert forall|j: int| 0 <= j < i implies !p(#[trigger] s.triggers[j]) by {
        assert(s.triggers[j].id < s.triggers[i].id);
    }
    lemma_first_where_is(s.triggers, p, i);
}

/// A rule whose condition is met acts, and is left to be marked as fired. One whose condition is
/// not met, or fails, has had its turn: it is as if it had come round, and nothing else about it
/// changes. One that is being asked keeps its turn.
pub proof fn law_an_unmet_condition_spends_the_turn(
    s: StoreView,
    i: int,
    answer: ProbeAnswer,
    now: u64,
)
    requires
        s.wf(),
        0 <= i < s.triggers.len(),
        !s.triggers[i].deleted,
    ensures
        ({
            let t = s.triggers[i];
            let c = judged(s, t.id, t.only_if, answer, now).1;
            let (after, step) = stepped(s, t.id, answer, now);
            let u = after.triggers[i];
            &&& after.triggers.len() == s.triggers.len()
            &&& forall|j: int|
                0 <= j < s.triggers.len() && j != i ==> #[trigger] after.triggers[j]
                    == s.triggers[j]
            &&& (step is Go <==> c is Yes)
            &&& (c is Yes || c is Waiting || c is Start ==> u == t)
            &&& (c is No || c is Failed ==> u.last_eval == Some(now) && u.last_fired
                == t.last_fired && u.fire_count == t.fire_count && u.enabled == t.enabled && u.when
                == t.when && u.what == t.what && u.id == t.id && u.only_if == t.only_if && u.space
                == t.space && !u.deleted)
            &&& (c is Failed ==> step is Warn)
            &&& (c is No || c is Waiting ==> step is Hold)
            &&& (c matches ConditionView::Start(cmd) ==> step == StepView::Probe(cmd))
        }),
{
    let t = s.triggers[i];
    lemma_living(s, i);
    let (mid, c) = judged(s, t.id, t.only_if, answer, now);
    assert(mid.triggers == s.triggers);
    assert(mid.find(t.id) == i);
}

/// A rule that is gone does nothing.
pub proof fn law_a_removed_rule_does_nothing(
    s: StoreView,
    id: u64,
    answer: ProbeAnswer,
    now: u64,
)
    requires
        forall|i: int|
            0 <= i < s.triggers.len() && (#[trigger] s.triggers[i]).id == id
                ==> s.triggers[i].deleted,
    ensures
        stepped(s, id, answer, now) == (s, StepView::Hold),
        s.got(id) is None,
{
    lemma_first_where(s.triggers, is_living(id));
    if s.find(id) < s.triggers.len() {
        assert(is_living(id)(s.triggers[s.find(id)]));
    }
}

// -- firing ------------------------------------------------------------------

/// A firing is counted and dated, and the rule is otherwise what it was.
pub proof fn law_a_firing_is_counted(t: TriggerView, now: u64)
    ensures
        ({
            let u = t.fired(now);
            &&& u.last_fired == Some(now)
            &&& u.last_eval == Some(now)
            &&& t.fire_count < u64::MAX ==> u.fire_count == t.fire_count + 1
            &&& u.id == t.id && u.when == t.when && u.what == t.what && u.enabled == t.enabled
            &&& u.created == t.created && u.by == t.by && u.space == t.space
            &&& u.only_if == t.only_if && u.deleted == t.deleted
        }),
{
}

/// A rule changed by its number is the only one that changes, and the log is told what it became.
pub proof fn law_a_change_is_to_one_rule(
    s: StoreView,
    i: int,
    f: spec_fn(TriggerView) -> TriggerView,
)
    requires
        s.wf(),
        0 <= i < s.triggers.len(),
        !s.triggers[i].deleted,
    ensures
        ({
            let (after, r) = s.changed(s.triggers[i].id, f);
            &&& r == Ok::<TriggerView, TriggerError>(f(s.triggers[i]))
            &&& after.triggers[i] == f(s.triggers[i])
            &&& after.triggers.len() == s.triggers.len()
            &&& forall|j: int|
                0 <= j < s.triggers.len() && j != i ==> #[trigger] after.triggers[j]
                    == s.triggers[j]
            &&& after.unwritten == s.unwritten.push(f(s.triggers[i]))
            &&& after.next_id == s.next_id
        }),
{
    lemma_living(s, i);
}

/// A rule that is not there is not changed.
pub proof fn law_only_a_rule_that_is_there_is_changed(
    s: StoreView,
    id: u64,
    f: spec_fn(TriggerView) -> TriggerView,
)
    requires
        forall|i: int|
            0 <= i < s.triggers.len() && (#[trigger] s.triggers[i]).id == id
                ==> s.triggers[i].deleted,
    ensures
        s.changed(id, f) == (s, Err::<TriggerView, TriggerError>(TriggerError::NoSuch(id))),
{
    lemma_first_where(s.triggers, is_living(id));
    if s.find(id) < s.triggers.len() {
        assert(is_living(id)(s.triggers[s.find(id)]));
    }
}

/// Turning everything off turns off what is on, and nothing else.
pub proof fn law_turning_off_is_all_it_does(s: StoreView, i: int)
    requires
        0 <= i < s.triggers.len(),
    ensures
        ({
            let after = disarmed(s);
            let (t, u) = (s.triggers[i], after.triggers[i]);
            &&& after.triggers.len() == s.triggers.len()
            &&& t.deleted ==> u == t
            &&& !t.deleted ==> !u.enabled
            &&& u.id == t.id && u.when == t.when && u.what == t.what && u.deleted == t.deleted
            &&& u.last_fired == t.last_fired && u.last_eval == t.last_eval && u.fire_count
                == t.fire_count && u.only_if == t.only_if && u.space == t.space && u.by == t.by
                && u.created == t.created
        }),
{
}

/// A new rule is on, has never fired, and is what was asked for.
pub proof fn law_a_new_rule_is_as_asked(
    s: StoreView,
    when: When,
    what: WhatView,
    by: Seq<char>,
    only_if: Option<Seq<char>>,
    space: Option<Seq<char>>,
    now: u64,
)
    requires
        s.next_id < u64::MAX,
    ensures
        ({
            let (after, r) = adding_rule(s, when, what, by, only_if, space, now);
            let quick = when matches When::Every { secs } && secs < 60;
            let empty = what matches WhatView::Task { text } && trimmed(text).len() == 0;
            let t = r->Ok_0;
            &&& r is Ok <==> !quick && !empty
            &&& quick ==> r == Err::<TriggerView, TriggerError>(TriggerError::TooFast)
            &&& !quick && empty ==> r == Err::<TriggerView, TriggerError>(TriggerError::EmptyTask)
            &&& r is Err ==> after == s
            &&& r is Ok ==> {
                &&& t.id == s.next_id && t.when == when && t.what == what && t.by == by && t.space
                    == space
                &&& t.enabled && !t.deleted && t.created == now && t.fire_count == 0
                &&& t.last_fired is None && t.last_eval is None
                &&& only_if is None ==> t.only_if is None
                &&& only_if is Some && trimmed(only_if->Some_0).len() > 0 ==> t.only_if == Some(
                    trimmed(only_if->Some_0),
                )
                &&& after.next_id == s.next_id + 1
                &&& after.unwritten == s.unwritten.push(t)
            }
        }),
{
}

/// What a rule does when it fires. Work goes on the board in the rule's name and for its project, a
/// line goes to the agent it names, and an agent is started while fewer than may be are running.
pub proof fn law_a_rule_does_what_it_says(
    b: BoardView,
    t: TriggerView,
    board_on: bool,
    live: usize,
    cap: usize,
    now: u64,
)
    requires
        b.next_id < u64::MAX,
    ensures
        ({
            let (after, r) = performing(b, t, board_on, live, cap, now);
            &&& t.what matches WhatView::Task { text } ==> {
                &&& r is Ok <==> board_on && trimmed(text).len() > 0
                &&& !board_on ==> after == b && r == Err::<ActView, TriggerError>(
                    TriggerError::BoardOff,
                )
                &&& r is Ok ==> {
                    let task = adding(b, text, "trigger:"@ + decimal(t.id as nat), t.space, now);
                    &&& after == task.0
                    &&& r == Ok::<ActView, TriggerError>(
                        ActView::Placed(
                            "put task #"@ + decimal(b.next_id as nat) + " on the board: "@
                                + trimmed(text),
                        ),
                    )
                }
            }
            &&& t.what matches WhatView::Send { to, body } ==> after == b && r == Ok::<
                ActView,
                TriggerError,
            >(ActView::Send { to, body })
            &&& t.what matches WhatView::Spawn { cmd, name } ==> {
                &&& after == b
                &&& live < cap ==> r == Ok::<ActView, TriggerError>(ActView::Spawn { cmd, name })
                &&& live >= cap ==> r == Err::<ActView, TriggerError>(
                    TriggerError::Full { live, cap },
                )
            }
        }),
{
}

/// What was done is in the journal, with the rule's number; what failed is not, and is said.
pub proof fn law_what_was_done_is_written_down(id: u64, what: Seq<char>)
    ensures
        recorded(id, Ok(what)).journal == Some("#"@ + decimal(id as nat) + " "@ + what),
        recorded(id, Ok(what)).notice is None,
        recorded(id, Err(what)).journal is None,
        recorded(id, Err(what)).notice == Some(
            "trigger #"@ + decimal(id as nat) + " failed: "@ + what,
        ),
{
}

/// An agent that was started goes by its name, or by its pane where it has none.
pub proof fn law_a_started_agent_is_named(name: Seq<char>, pane: u64, cmd: Seq<char>)
    ensures
        spawned_text(Some(name), pane, cmd) == "spawned "@ + name + " running "@ + cmd,
        spawned_text(None, pane, cmd) == "spawned "@ + ("pane"@ + decimal(pane as nat))
            + " running "@ + cmd,
{
}

/// What a rule does is written as it is, and under which condition.
pub proof fn law_what_a_rule_does_is_written(
    t: TriggerView,
    text: Seq<char>,
    to: Seq<char>,
    name: Seq<char>,
)
    ensures
        (WhatView::Task { text }).words() == "board: "@ + text,
        (WhatView::Send { to, body: text }).words() == "send "@ + to + ": "@ + text,
        (WhatView::Spawn { cmd: text, name: None }).words() == "spawn "@ + text,
        (WhatView::Spawn { cmd: text, name: Some(name) }).words() == "spawn "@ + text + " as "@
            + name,
        t.only_if is None ==> t.words() == t.when.words() + " · "@ + t.what.words(),
        t.only_if matches Some(c) ==> t.words() == t.when.words() + " if `"@ + c + "` · "@
            + t.what.words(),
{
}

} // verus!
