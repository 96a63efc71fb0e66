//! When somebody is told something: you of an agent that waits, an agent of work that waits, and
//! the journal of what happened.

use crate::agent::{secs_since, AgentView};
use crate::engine::EventView;
use crate::journal::{fired_from, kept_of, name_in, notified, EntryView, HappeningView};
use crate::notify::{
    alert_due, as_reason, board_cleared, is_news, newsworthy, reasons_of, spent_one, AlertClock,
    Reason, spent,
};
use crate::nudge::{
    chosen, facts_of, holders, nudge_text, nudging, offered, roles_in, sooner, suits, told,
    wakeable, wears_role, workers, Facts,
};
use crate::proto::AgentState;
use crate::recents::{noted, remembered, RecentView};
use crate::seqs::{
    count_where, lemma_count_none, lemma_first_where_is, lemma_pick_complete, lemma_pick_sound,
    pick, lemma_first_where,
};
use crate::state::{pane_is, space_is, PaneView, SessionView};
use crate::tasks::{BoardView, TaskState, TaskView};
use crate::text::decimal;
use vstd::prelude::*;

verus! {

// -- you ---------------------------------------------------------------------

/// An agent is worth telling of where it has been blocked or done for a minute, and this wait has
/// not been told of.
pub proof fn law_a_minutes_wait_is_news(a: AgentView, now: u64)
    ensures
        is_news(a, now) <==> (a.state == AgentState::Blocked || a.state == AgentState::Done) && now
            - a.since >= 60_000 && a.alerted_since != Some(a.since),
{
}

/// You are told where nobody is attached, that is wanted and possible, five minutes have gone by
/// since you were last told, and there is a reason. What is told reaches back to the last time, or
/// to the start.
pub proof fn law_you_are_told_when_you_are_away(
    c: AlertClock,
    attached: bool,
    reaches_out: bool,
    have_sink: bool,
    s: SessionView,
    b: BoardView,
    now: u64,
)
    requires
        c.last_alert <= now,
    ensures
        ({
            let since = if c.last_alert == 0 {
                c.started
            } else {
                c.last_alert
            };
            let r = alert_due(c, attached, reaches_out, have_sink, s, b, now);
            &&& r is Some <==> !attached && reaches_out && have_sink && now - c.last_alert
                >= 300_000 && reasons_of(s, b, since, now).len() > 0
            &&& r is Some ==> r == Some(since)
        }),
{
}

/// The reasons are the panes whose agents are worth telling of, and a board on which something was
/// finished since and nothing is open or claimed.
pub proof fn law_what_is_a_reason(s: SessionView, b: BoardView, since: u64, now: u64)
    ensures
        forall|i: int|
            0 <= i < s.panes.len() && (#[trigger] s.panes[i]).life.agent is Some && is_news(
                s.panes[i].life.agent->Some_0,
                now,
            ) ==> reasons_of(s, b, since, now).contains(
                Reason::Attention {
                    pane: s.panes[i].id,
                    since: s.panes[i].life.agent->Some_0.since,
                },
            ),
        reasons_of(s, b, since, now).contains(Reason::BoardClear) <==> (forall|i: int|
            0 <= i < b.tasks.len() ==> (#[trigger] b.tasks[i]).state != TaskState::Open
                && b.tasks[i].state != TaskState::Claimed) && (exists|i: int|
            0 <= i < b.tasks.len() && (#[trigger] b.tasks[i]).done_at is Some
                && b.tasks[i].done_at->Some_0 > since),
{
    let waiting = pick(s.panes, newsworthy(now), as_reason());
    let all = reasons_of(s, b, since, now);
    assert forall|i: int|
        0 <= i < s.panes.len() && (#[trigger] s.panes[i]).life.agent is Some && is_news(
            s.panes[i].life.agent->Some_0,
            now,
        ) implies all.contains(
        Reason::Attention { pane: s.panes[i].id, since: s.panes[i].life.agent->Some_0.since },
    ) by {
        assert(newsworthy(now)(s.panes[i]));
        let k = lemma_pick_complete(s.panes, newsworthy(now), as_reason(), i);
        assert(all[k] == waiting[k]);
    }
    let clear = (forall|i: int|
        0 <= i < b.tasks.len() ==> (#[trigger] b.tasks[i]).state != TaskState::Open
            && b.tasks[i].state != TaskState::Claimed) && (exists|i: int|
        0 <= i < b.tasks.len() && (#[trigger] b.tasks[i]).done_at is Some
            && b.tasks[i].done_at->Some_0 > since);
    assert(clear == board_cleared(b, since)) by {
        if clear {
            assert forall|i: int| 0 <= i < b.tasks.len() implies (
            #[trigger] b.tasks[i]).is_finished() by {
                assert(b.tasks[i].state != TaskState::Open);
            }
        }
        if board_cleared(b, since) {
            assert forall|i: int| 0 <= i < b.tasks.len() implies (#[trigger] b.tasks[i]).state
                != TaskState::Open && b.tasks[i].state != TaskState::Claimed by {
                assert(b.tasks[i].is_finished());
            }
        }
    }
    if board_cleared(b, since) {
        assert(all[waiting.len() as int] == Reason::BoardClear);
    }
    if all.contains(Reason::BoardClear) && !board_cleared(b, since) {
        let k = choose|k: int| 0 <= k < all.len() && all[k] == Reason::BoardClear;
        let i = lemma_pick_sound(s.panes, newsworthy(now), as_reason(), k);
    }
}

/// And every pane that is given as a reason is one.
pub proof fn law_a_reason_is_a_pane_that_waits(
    s: SessionView,
    b: BoardView,
    since: u64,
    now: u64,
    k: int,
)
    requires
        0 <= k < reasons_of(s, b, since, now).len(),
        reasons_of(s, b, since, now)[k] is Attention,
    ensures
        exists|i: int|
            0 <= i < s.panes.len() && (#[trigger] s.panes[i]).life.agent is Some && is_news(
                s.panes[i].life.agent->Some_0,
                now,
            ) && reasons_of(s, b, since, now)[k] == (Reason::Attention {
                pane: s.panes[i].id,
                since: s.panes[i].life.agent->Some_0.since,
            }),
{
    let waiting = pick(s.panes, newsworthy(now), as_reason());
    assert(k < waiting.len());
    let i = lemma_pick_sound(s.panes, newsworthy(now), as_reason(), k);
    assert(s.panes[i].life.agent is Some);
}

/// A wait that was told of is marked so, and nothing else changes.
pub proof fn law_a_wait_is_told_of_once(s: SessionView, i: int, now: u64)
    requires
        s.wf(),
        0 <= i < s.panes.len(),
        s.panes[i].life.agent is Some,
    ensures
        ({
            let a = s.panes[i].life.agent->Some_0;
            let t = spent_one(s, s.panes[i].id, a.since);
            let b = t.panes[i].life.agent->Some_0;
            &&& t.panes[i].life.agent is Some
            &&& b.alerted_since == Some(a.since)
            &&& !is_news(b, now)
            &&& b.state == a.state && b.since == a.since && b.name == a.name && b.nudged_since
                == a.nudged_since && b.queued == a.queued
            &&& t.panes[i].id == s.panes[i].id && t.panes[i].life.role == s.panes[i].life.role
            &&& forall|j: int|
                0 <= j < s.panes.len() && j != i ==> #[trigger] t.panes[j] == s.panes[j]
        }),
{
    let id = s.panes[i].id;
    assert forall|j: int| 0 <= j < i implies !pane_is(id)(#[trigger] s.panes[j]) by {
        assert(s.panes[j].id < s.panes[i].id);
    }
    lemma_first_where_is(s.panes, pane_is(id), i);
}

// -- an agent ----------------------------------------------------------------

/// Who has claimed a task.
pub open spec fn has_claimed(b: BoardView, name: Seq<char>) -> bool {
    exists|i: int|
        0 <= i < b.tasks.len() && (#[trigger] b.tasks[i]).state == TaskState::Claimed
            && b.tasks[i].owner == Some(name)
}

/// Who has ever had one.
pub open spec fn has_worked(b: BoardView, name: Seq<char>) -> bool {
    exists|i: int| 0 <= i < b.tasks.len() && (#[trigger] b.tasks[i]).owner == Some(name)
}

proof fn lemma_holders(b: BoardView, name: Seq<char>)
    ensures
        holders(b).contains(name) == has_claimed(b, name),
        workers(b).contains(name) == has_worked(b, name),
{
    let p = |t: TaskView| t.is_claimed() && t.owner is Some;
    let q = |t: TaskView| t.owner is Some;
    let f = |t: TaskView| t.owner->Some_0;
    if holders(b).contains(name) {
        let k = choose|k: int| 0 <= k < holders(b).len() && holders(b)[k] == name;
        let i = lemma_pick_sound(b.tasks, p, f, k);
        assert(b.tasks[i].owner == Some(name));
    }
    if has_claimed(b, name) {
        let i = choose|i: int|
            0 <= i < b.tasks.len() && (#[trigger] b.tasks[i]).state == TaskState::Claimed
                && b.tasks[i].owner == Some(name);
        assert(p(b.tasks[i]));
        let k = lemma_pick_complete(b.tasks, p, f, i);
    }
    if workers(b).contains(name) {
        let k = choose|k: int| 0 <= k < workers(b).len() && workers(b)[k] == name;
        let i = lemma_pick_sound(b.tasks, q, f, k);
        assert(b.tasks[i].owner == Some(name));
    }
    if has_worked(b, name) {
        let i = choose|i: int| 0 <= i < b.tasks.len() && (#[trigger] b.tasks[i]).owner == Some(name);
        assert(q(b.tasks[i]));
        let k = lemma_pick_complete(b.tasks, q, f, i);
    }
}

/// Whether an agent is free for work of a project: its pane is in the project, takes board work and
/// runs; it is idle, or done where it has had work before; nothing is queued for it, and it has
/// claimed nothing.
pub open spec fn is_free(b: BoardView, space: u64, p: PaneView) -> bool {
    &&& p.space == space && p.life.board && !p.life.exited
    &&& p.life.agent matches Some(a) && (a.state == AgentState::Idle || (a.state
        == AgentState::Done && has_worked(b, a.name))) && a.queued.len() == 0 && !has_claimed(
        b,
        a.name,
    )
}

proof fn lemma_chosen_at(s: SessionView, f: Facts, n: int)
    requires
        0 <= n <= s.panes.len(),
    ensures
        chosen(s, f, n) matches Some(i) ==> 0 <= i < n && wakeable(s, f, s.panes[i]),
        chosen(s, f, n) is None ==> forall|j: int|
            0 <= j < n ==> !wakeable(s, f, #[trigger] s.panes[j]),
        chosen(s, f, n) matches Some(i) ==> forall|j: int|
            0 <= j < n && wakeable(s, f, #[trigger] s.panes[j]) ==> !sooner(
                s.panes[j],
                s.panes[i],
            ),
    decreases n,
{
    if n > 0 {
        lemma_chosen_at(s, f, n - 1);
    }
}

/// Whoever is told of work is free for it, has not been told since it last changed, and is of the
/// role that some of it is for, or any of it is for everybody. They are told by name, and marked;
/// nobody else changes.
pub proof fn law_whoever_is_told_is_free(
    s: SessionView,
    b: BoardView,
    space: u64,
    name: Seq<char>,
    offers: Seq<Option<Seq<char>>>,
)
    requires
        nudging(s, b, space, name, offers).1 is Some,
    ensures
        exists|i: int|
            #![trigger s.panes[i]]
            {
                let p = s.panes[i];
                let a = p.life.agent->Some_0;
                let (t, r) = nudging(s, b, space, name, offers);
                let c = t.panes[i].life.agent->Some_0;
                &&& 0 <= i < s.panes.len()
                &&& is_free(b, space, p)
                &&& a.nudged_since != Some(a.since)
                &&& r->Some_0.pane == p.id
                &&& r->Some_0.name == a.name
                &&& (exists|k: int|
                    0 <= k < offers.len() && (#[trigger] offers[k] is None || offers[k]
                        == p.life.role))
                &&& t.panes.len() == s.panes.len()
                &&& t.panes[i].life.agent is Some && c.nudged_since == Some(a.since) && c.since
                    == a.since && c.state == a.state && c.name == a.name && c.alerted_since
                    == a.alerted_since
                &&& forall|j: int|
                    0 <= j < s.panes.len() && j != i ==> #[trigger] t.panes[j] == s.panes[j]
            },
{
    let f = facts_of(b, space, offers);
    lemma_chosen_at(s, f, s.panes.len() as int);
    let i = chosen(s, f, s.panes.len() as int)->Some_0;
    let p = s.panes[i];
    lemma_holders(b, p.life.agent->Some_0.name);
    if forall|k: int|
        0 <= k < offers.len() ==> !(#[trigger] offers[k] is None || offers[k] == p.life.role) {
        assert forall|k: int| 0 <= k < offers.len() implies !suits(p.life.role)(
            #[trigger] offers[k],
        ) by {}
        lemma_count_none(offers, suits(p.life.role));
    }
    assert(is_free(b, space, s.panes[i]));
}

/// A free agent that has not been told is told, or another is that is no less available: agents
/// without a role come before those with one, and of like ones whoever has waited longest. That is
/// while there is more work for its role than agents of it that are on some or have been told.
pub proof fn law_the_one_who_waited_longest_is_told(
    s: SessionView,
    b: BoardView,
    space: u64,
    name: Seq<char>,
    offers: Seq<Option<Seq<char>>>,
    j: int,
)
    requires
        offers.len() > 0,
        0 <= j < s.panes.len(),
        is_free(b, space, s.panes[j]),
        s.panes[j].life.agent->Some_0.nudged_since != Some(s.panes[j].life.agent->Some_0.since),
        offered(offers, s.panes[j].life.role) > count_where(
            s.panes,
            crate::nudge::engaged(facts_of(b, space, offers), s.panes[j].life.role),
        ),
    ensures
        exists|i: int|
            #![trigger s.panes[i]]
            {
                &&& 0 <= i < s.panes.len()
                &&& nudging(s, b, space, name, offers).1 matches Some(x) && x.pane == s.panes[i].id
                &&& s.panes[i].life.agent is Some
                &&& s.panes[j].life.role is None ==> s.panes[i].life.role is None
                &&& (s.panes[j].life.role is None) == (s.panes[i].life.role is None)
                    ==> s.panes[i].life.agent->Some_0.since <= s.panes[j].life.agent->Some_0.since
            },
{
    let f = facts_of(b, space, offers);
    lemma_chosen_at(s, f, s.panes.len() as int);
    lemma_holders(b, s.panes[j].life.agent->Some_0.name);
    assert(wakeable(s, f, s.panes[j]));
    let i = chosen(s, f, s.panes.len() as int)->Some_0;
    assert(!sooner(s.panes[j], s.panes[i]));
    assert(s.panes[i].life.agent is Some);
}

/// Without work nobody is told.
pub proof fn law_without_work_nobody_is_told(
    s: SessionView,
    b: BoardView,
    space: u64,
    name: Seq<char>,
)
    ensures
        nudging(s, b, space, name, Seq::empty()).1 is None,
        nudging(s, b, space, name, Seq::empty()).0 == s,
{
}

/// How much there is, and for whom, is said.
pub proof fn law_what_an_agent_is_told(n: nat, space: Seq<char>, role: Seq<char>)
    requires
        n >= 2,
    ensures
        crate::text::begins(nudge_text(n, space, None), decimal(n) + " task"@ + "s"@ + " on the "@ + space
            + " board "@ + "waiting"@),
        crate::text::begins(nudge_text(n, space, Some(role)), decimal(n) + " task"@ + "s"@ + " on the "@
            + space + " board "@ + ("for "@ + role)),
{
    let a = decimal(n) + " task"@ + "s"@ + " on the "@ + space + " board "@ + "waiting"@;
    let x = nudge_text(n, space, None);
    assert(x.subrange(0, a.len() as int) =~= a);
    let b = decimal(n) + " task"@ + "s"@ + " on the "@ + space + " board "@ + ("for "@ + role);
    let y = nudge_text(n, space, Some(role));
    assert(y.subrange(0, b.len() as int) =~= b);
}

/// The roles of a project are those of its panes that take board work and run an agent.
pub proof fn law_the_roles_of_a_project(s: SessionView, i: int, p: int)
    requires
        s.wf(),
        0 <= i < s.spaces.len(),
        0 <= p < s.panes.len(),
        s.panes[p].space == s.spaces[i].id,
        s.panes[p].life.board,
        !s.panes[p].life.exited,
        s.panes[p].life.agent is Some,
        s.panes[p].life.role is Some,
    ensures
        roles_in(s, s.spaces[i].name).contains(s.panes[p].life.role->Some_0),
{
    let name = s.spaces[i].name;
    let q = crate::state::named(name);
    assert forall|j: int| 0 <= j < i implies !q(#[trigger] s.spaces[j]) by {
        assert(s.spaces[j].name != s.spaces[i].name);
    }
    lemma_first_where_is(s.spaces, q, i);
    assert(crate::state::taken(s.spaces, name));
    let w = wears_role(s.spaces[i].id);
    assert(w(s.panes[p]));
    let k = lemma_pick_complete(s.panes, w, |p: PaneView| p.life.role->Some_0, p);
    assert(roles_in(s, name)[k] == s.panes[p].life.role->Some_0);
}

// -- what was opened ---------------------------------------------------------

/// A project that is opened is at the head of the list, with its time; the others follow in their
/// order, each once, twelve in all at most.
pub proof fn law_the_newest_project_is_first(
    rs: Seq<RecentView>,
    name: Seq<char>,
    cwd: Seq<char>,
    now: u64,
)
    ensures
        ({
            let all = remembered(rs, name, cwd, now);
            let rest = pick(rs, |r: RecentView| r.cwd != cwd, |r: RecentView| r);
            &&& all.len() >= 1
            &&& all[0] == RecentView { name, cwd, last_used: now }
            &&& all.len() <= 12
            &&& rest.len() < 12 ==> all.len() == rest.len() + 1
            &&& rest.len() >= 12 ==> all.len() == 12
            &&& forall|i: int| 1 <= i < all.len() ==> #[trigger] all[i] == rest[i - 1]
        }),
{
    let p = |r: RecentView| r.cwd != cwd;
    assert(crate::recents::elsewhere(cwd) =~= p);
}

/// Looking at a session puts the project in front at the head, and leaves it with its time where it
/// is there already.
pub proof fn law_the_project_in_front_is_noted(rs: Seq<RecentView>, s: SessionView, i: int, now: u64)
    requires
        s.wf(),
        0 <= i < s.spaces.len(),
        s.focused_space == Some(s.spaces[i].id),
    ensures
        noted(rs, s, now).len() > 0,
        noted(rs, s, now)[0].cwd == s.spaces[i].cwd,
        rs.len() > 0 && rs[0].cwd == s.spaces[i].cwd ==> noted(rs, s, now) == rs,
        !(rs.len() > 0 && rs[0].cwd == s.spaces[i].cwd) ==> noted(rs, s, now)[0].last_used == now
            && noted(rs, s, now)[0].name == s.spaces[i].name,
{
    let id = s.spaces[i].id;
    assert forall|j: int| 0 <= j < i implies !space_is(id)(#[trigger] s.spaces[j]) by {
        assert(s.spaces[j].id < s.spaces[i].id);
    }
    lemma_first_where_is(s.spaces, space_is(id), i);
    law_the_newest_project_is_first(rs, s.spaces[i].name, s.spaces[i].cwd, now);
}

// -- the journal -------------------------------------------------------------

/// A pane goes by its name, and by its number where it has none.
pub proof fn law_a_pane_goes_by_its_name(names: Seq<(u64, Seq<char>)>, i: int, pane: u64)
    ensures
        0 <= i < names.len() && (forall|j: int| 0 <= j < i ==> (#[trigger] names[j]).0 != names[i].0)
            ==> name_in(names, names[i].0) == names[i].1,
        (forall|j: int| 0 <= j < names.len() ==> (#[trigger] names[j]).0 != pane) ==> name_in(
            names,
            pane,
        ) == "pane"@ + decimal(pane as nat),
{
    if 0 <= i < names.len() && (forall|j: int|
        0 <= j < i ==> (#[trigger] names[j]).0 != names[i].0) {
        let p = crate::journal::entry_of(names[i].0);
        assert forall|j: int| 0 <= j < i implies !p(#[trigger] names[j]) by {
            assert(names[j].0 != names[i].0);
        }
        lemma_first_where_is(names, p, i);
    }
    if forall|j: int| 0 <= j < names.len() ==> (#[trigger] names[j]).0 != pane {
        let p = crate::journal::entry_of(pane);
        assert forall|j: int| 0 <= j < names.len() implies !p(#[trigger] names[j]) by {
            assert(names[j].0 != pane);
        }
        lemma_first_where_is(names, p, names.len() as int);
    }
}

/// An exit is kept with the name of who it was, and everything with its time.
pub proof fn law_what_happened_is_kept_with_its_time(
    names: Seq<(u64, Seq<char>)>,
    pane: u64,
    e: EventView,
    lines: Seq<Seq<char>>,
    now: u64,
    i: int,
)
    requires
        0 <= i < lines.len(),
    ensures
        e matches EventView::PaneExited { pane, .. } ==> kept_of(e, names).who == Some(
            name_in(names, pane),
        ),
        kept_of(e, names).event == e,
        notified(lines, now).len() == lines.len(),
        notified(lines, now)[i].at == now,
        notified(lines, now)[i].what == HappeningView::Notified(lines[i]),
{
}

/// Firings are counted from a moment on, that moment included.
pub proof fn law_firings_are_counted_from_a_moment(e: EntryView, from: int)
    ensures
        fired_from(from)(e) <==> e.what is Fired && e.at >= from,
{
}

/// How long an agent has been so is told in whole seconds.
pub proof fn law_an_agents_time_is_told_in_seconds(a: AgentView, n: nat, rest: nat, now: u64)
    requires
        rest < 1000,
        now == a.since + n * 1000 + rest,
    ensures
        a.info_at(now).elapsed == n,
        secs_since(a.since, now) == n,
        a.info_at(now).name == a.name && a.info_at(now).kind == a.kind && a.info_at(now).state
            == a.state && a.info_at(now).reason == a.reason && a.info_at(now).authority
            == a.authority && a.info_at(now).activity == a.activity,
{
    assert((n * 1000 + rest) / 1000 == n);
}

/// Every wait that was told of is marked so, whatever else was told, and no agent is anything else
/// for it.
pub proof fn law_everything_told_is_marked(s: SessionView, rs: Seq<Reason>, n: int, i: int)
    requires
        s.wf(),
        0 <= n <= rs.len(),
        0 <= i < s.panes.len(),
    ensures
        ({
            let t = spent(s, rs, n);
            let a = s.panes[i].life.agent;
            let b = t.panes[i].life.agent;
            &&& t.panes.len() == s.panes.len()
            &&& forall|j: int| 0 <= j < s.panes.len() ==> (#[trigger] t.panes[j]).id == s.panes[j].id
            &&& a is None <==> b is None
            &&& a is Some ==> b->Some_0.state == a->Some_0.state && b->Some_0.since
                == a->Some_0.since && b->Some_0.name == a->Some_0.name
            &&& a is Some && n > 0 && rs[n - 1] == (Reason::Attention {
                pane: s.panes[i].id,
                since: a->Some_0.since,
            }) ==> b->Some_0.alerted_since == Some(a->Some_0.since)
            &&& (forall|k: int|
                0 <= k < n ==> !((#[trigger] rs[k]) is Attention && rs[k]->pane == s.panes[i].id))
                ==> t.panes[i] == s.panes[i]
        }),
    decreases n,
{
    if n > 0 {
        law_everything_told_is_marked(s, rs, n - 1, i);
        let t = spent(s, rs, n - 1);
        if rs[n - 1] is Attention {
            let id = rs[n - 1]->pane;
            lemma_first_where(t.panes, pane_is(id));
            let k = t.pane_at(id);
            if k < t.panes.len() {
                assert(pane_is(id)(t.panes[k]));
            }
            if id == s.panes[i].id {
                assert forall|j: int| 0 <= j < i implies !pane_is(id)(#[trigger] t.panes[j]) by {
                    assert(t.panes[j].id == s.panes[j].id);
                    assert(s.panes[j].id < s.panes[i].id);
                }
                assert(t.panes[i].id == id);
                lemma_first_where_is(t.panes, pane_is(id), i);
            } else if k == i {
                assert(t.panes[i].id == s.panes[i].id);
            }
        }
    }
}

/// The line is the same for everybody but for how much there is, where, and for whom.
pub proof fn law_the_line_for_work(n: nat, space: Seq<char>, role: Seq<char>)
    ensures
        nudge_text(1, space, None) == decimal(1) + " task"@ + ""@ + " on the "@ + space
            + " board "@ + "waiting"@
            + ". Run `horde task claim` to take the next one, do it, then `horde task done --result \"<what happened>\"`. Repeat while it keeps returning work."@,
        n != 1 ==> nudge_text(n, space, Some(role)) == decimal(n) + " task"@ + "s"@ + " on the "@
            + space + " board "@ + ("for "@ + role)
            + ". Run `horde task claim` to take the next one, do it, then `horde task done --result \"<what happened>\"`. Repeat while it keeps returning work."@,
{
}

} // verus!
