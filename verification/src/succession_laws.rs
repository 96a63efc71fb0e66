//! When an agent moves to its next model, and when another takes over from it.

use crate::agent::AgentClass;
use crate::repo::RepoView;
use crate::seqs::{count_where, lemma_first_where, lemma_first_where_is, lemma_pick_sound};
use crate::state::{pane_is, Bars, PaneView, SessionView};
use crate::succession::{
    brief_text, first_out, instruction, is_out, last_lines, models_advanced, move_for, placing,
    profile_is, profile_of, says_any, self_started, settled, succession_lines, switches_of, telling,
    to_be_told, told_of, unblank, HandoverView, MoveView, ProfileView, SuccessionView, SwitchView,
    ToldView, spent_of, SpentView,
};
use crate::text::{begins, replaced_all, trimmed};
use vstd::prelude::*;

verus! {

/// A phrase of nothing is never said.
pub proof fn law_nothing_is_never_said(screen: Seq<char>, phrases: Seq<Seq<char>>)
    requires
        forall|i: int| 0 <= i < phrases.len() ==> trimmed(#[trigger] phrases[i]).len() == 0,
    ensures
        !says_any(screen, phrases),
{
}

/// A model that says that it is exhausted is followed by the next of its profile, and nothing is
/// done for half a minute after a switch, without a line to switch with, or while it says nothing.
pub proof fn law_an_exhausted_model_is_followed_by_the_next(
    p: PaneView,
    ps: Seq<ProfileView>,
    i: int,
    screen: Seq<char>,
    now: u64,
)
    requires
        p.life.model is Some,
        0 <= i < ps.len(),
        ps[i].name == p.life.model->Some_0.profile,
        forall|j: int| 0 <= j < i ==> (#[trigger] ps[j]).name != ps[i].name,
    ensures
        ({
            let run = p.life.model->Some_0;
            let quiet = run.switched is None || now >= run.switched->Some_0 + 30_000;
            let spent = quiet && ps[i].switch is Some && says_any(screen, ps[i].exhausted);
            let m = move_for(p, ps, screen, now);
            &&& !spent ==> m == MoveView::Stay
            &&& spent && run.index + 1 >= ps[i].order.len() ==> m == (MoveView::Spent {
                profile: run.profile,
            })
            &&& spent && run.index + 1 < ps[i].order.len() ==> m == (MoveView::Switch {
                command: replaced_all(
                    ps[i].switch->Some_0,
                    "{model}"@,
                    ps[i].order[run.index as int + 1],
                ),
                model: ps[i].order[run.index as int + 1],
            })
        }),
{
    let name = p.life.model->Some_0.profile;
    assert forall|j: int| 0 <= j < i implies !profile_is(name)(#[trigger] ps[j]) by {
        assert(ps[j].name != ps[i].name);
    }
    lemma_first_where_is(ps, profile_is(name), i);
}

/// A pane without a model is left alone, and so is one whose profile is not there.
pub proof fn law_no_model_no_switch(
    p: PaneView,
    ps: Seq<ProfileView>,
    screen: Seq<char>,
    now: u64,
)
    requires
        p.life.model is Some ==> forall|j: int|
            0 <= j < ps.len() ==> (#[trigger] ps[j]).name != p.life.model->Some_0.profile,
    ensures
        move_for(p, ps, screen, now) == MoveView::Stay,
{
    if p.life.model is Some {
        lemma_first_where(ps, profile_is(p.life.model->Some_0.profile));
    }
}

/// A switch moves on by one model and is timed; a spent profile is only timed. All else of the pane
/// stays, and so does every pane whose model stays.
pub proof fn law_a_switch_moves_on_by_one(
    s: SessionView,
    ps: Seq<ProfileView>,
    screens: Seq<Seq<char>>,
    now: u64,
    i: int,
)
    requires
        screens.len() == s.panes.len(),
        0 <= i < s.panes.len(),
    ensures
        ({
            let t = models_advanced(s, ps, screens, now);
            let m = move_for(s.panes[i], ps, screens[i], now);
            let a = s.panes[i].life.model->Some_0;
            let b = t.panes[i].life.model->Some_0;
            &&& t.panes.len() == s.panes.len()
            &&& m == MoveView::Stay ==> t.panes[i] == s.panes[i]
            &&& m != MoveView::Stay ==> t.panes[i].life.model is Some && b.switched == Some(now)
                && b.profile == a.profile
            &&& m is Switch && a.index < usize::MAX ==> b.index == a.index + 1
            &&& m is Spent ==> b.index == a.index
            &&& t.panes[i].id == s.panes[i].id && t.panes[i].name == s.panes[i].name
                && t.panes[i].cmd == s.panes[i].cmd && t.panes[i].space == s.panes[i].space
            &&& t.panes[i].life.agent == s.panes[i].life.agent && t.panes[i].life.exited
                == s.panes[i].life.exited && t.panes[i].life.spawned_by
                == s.panes[i].life.spawned_by
            &&& t.tabs == s.tabs && t.spaces == s.spaces && t.focused_space == s.focused_space
        }),
{
}

/// Each pane whose model is exhausted is told the line to switch with.
pub proof fn law_whoever_switches_is_told_so(
    s: SessionView,
    ps: Seq<ProfileView>,
    screens: Seq<Seq<char>>,
    now: u64,
    n: int,
    i: int,
)
    requires
        0 <= i < n <= s.panes.len(),
        move_for(s.panes[i], ps, screens[i], now) is Switch,
    ensures
        switches_of(s, ps, screens, now, n).contains(
            SwitchView {
                pane: s.panes[i].id,
                command: move_for(s.panes[i], ps, screens[i], now)->command,
                model: move_for(s.panes[i], ps, screens[i], now)->model,
            },
        ),
    decreases n,
{
    let m = move_for(s.panes[i], ps, screens[i], now);
    let x = SwitchView { pane: s.panes[i].id, command: m->command, model: m->model };
    let all = switches_of(s, ps, screens, now, n);
    if i < n - 1 {
        law_whoever_switches_is_told_so(s, ps, screens, now, n - 1, i);
        let before = switches_of(s, ps, screens, now, n - 1);
        let k = choose|k: int| 0 <= k < before.len() && before[k] == x;
        assert(all[k] == x);
    } else {
        assert(all[all.len() - 1] == x);
    }
}

/// And whoever is told so has to switch.
pub proof fn law_whoever_is_told_so_switches(
    s: SessionView,
    ps: Seq<ProfileView>,
    screens: Seq<Seq<char>>,
    now: u64,
    n: int,
    k: int,
) -> (i: int)
    requires
        0 <= n <= s.panes.len(),
        0 <= k < switches_of(s, ps, screens, now, n).len(),
    ensures
        0 <= i < n,
        move_for(s.panes[i], ps, screens[i], now) is Switch,
        switches_of(s, ps, screens, now, n)[k].pane == s.panes[i].id,
    decreases n,
{
    let before = switches_of(s, ps, screens, now, n - 1);
    if n > 0 && k < before.len() {
        law_whoever_is_told_so_switches(s, ps, screens, now, n - 1, k)
    } else {
        n - 1
    }
}

// -- handing over ------------------------------------------------------------

/// An agent, not a shell, is told to hand over, once, when its screen shows a warning. It is told
/// what was set, or the standard words, with its name and the profile in them.
pub proof fn law_an_agent_is_told_to_hand_over_once(
    s: SessionView,
    h: HandoverView,
    standard: Seq<char>,
    screens: Seq<Seq<char>>,
    i: int,
)
    requires
        screens.len() == s.panes.len(),
        0 <= i < s.panes.len(),
        h.warning.len() > 0,
        h.profile is Some,
    ensures
        ({
            let p = s.panes[i];
            let is_told = p.life.agent is Some && p.life.agent->Some_0.class == AgentClass::Agent
                && !p.life.handover_told && says_any(screens[i], h.warning);
            let (t, out) = telling(s, h, standard, screens);
            &&& is_told ==> t.panes[i].life.handover_told && out.contains(
                ToldView {
                    pane: p.id,
                    name: p.life.agent->Some_0.name,
                    body: replaced_all(
                        replaced_all(
                            match h.instruct {
                                Some(words) => words,
                                None => standard,
                            },
                            "{name}"@,
                            p.life.agent->Some_0.name,
                        ),
                        "{profile}"@,
                        h.profile->Some_0,
                    ),
                },
            )
            &&& !is_told ==> t.panes[i] == p
            &&& t.panes[i].life.agent == p.life.agent && t.panes[i].life.model == p.life.model
                && t.panes[i].id == p.id && t.panes[i].life.succeeded == p.life.succeeded
        }),
{
    if to_be_told(h, s.panes[i], screens[i]) {
        lemma_told(s, h, standard, screens, s.panes.len() as int, i);
    }
}

proof fn lemma_told(
    s: SessionView,
    h: HandoverView,
    standard: Seq<char>,
    screens: Seq<Seq<char>>,
    n: int,
    i: int,
)
    requires
        0 <= i < n <= s.panes.len(),
        to_be_told(h, s.panes[i], screens[i]),
    ensures
        told_of(s, h, standard, screens, n).contains(
            ToldView {
                pane: s.panes[i].id,
                name: s.panes[i].life.agent->Some_0.name,
                body: instruction(
                    h,
                    standard,
                    s.panes[i].life.agent->Some_0.name,
                    h.profile->Some_0,
                ),
            },
        ),
    decreases n,
{
    let name = s.panes[i].life.agent->Some_0.name;
    let x = ToldView {
        pane: s.panes[i].id,
        name,
        body: instruction(h, standard, name, h.profile->Some_0),
    };
    let all = told_of(s, h, standard, screens, n);
    if i < n - 1 {
        lemma_told(s, h, standard, screens, n - 1, i);
        let before = told_of(s, h, standard, screens, n - 1);
        let k = choose|k: int| 0 <= k < before.len() && before[k] == x;
        assert(all[k] == x);
    } else {
        assert(all[all.len() - 1] == x);
    }
}

/// Nobody is told where there is no warning to look for, or no profile to hand over to.
pub proof fn law_nobody_is_told_without_a_profile(
    s: SessionView,
    h: HandoverView,
    standard: Seq<char>,
    screens: Seq<Seq<char>>,
)
    requires
        h.warning.len() == 0 || h.profile is None,
    ensures
        telling(s, h, standard, screens).0 == s,
        telling(s, h, standard, screens).1.len() == 0,
{
}

// -- taking over -------------------------------------------------------------

/// What has run out is an agent, not a shell, that has no successor yet, whose chain is not at its
/// limit, and whose screen says so.
pub proof fn law_what_has_run_out(h: HandoverView, p: PaneView, screen: Seq<char>)
    ensures
        is_out(h, p, screen) <==> p.life.agent is Some && p.life.agent->Some_0.class
            == AgentClass::Agent && !p.life.succeeded && p.life.succession_depth < h.max_chain
            && says_any(screen, h.exhausted),
{
}

proof fn lemma_first_out(s: SessionView, h: HandoverView, screens: Seq<Seq<char>>, i: int, at: int)
    requires
        0 <= i <= at < s.panes.len(),
        is_out(h, s.panes[at], screens[at]),
        forall|j: int| i <= j < at ==> !is_out(h, #[trigger] s.panes[j], screens[j]),
    ensures
        first_out(s, h, screens, i) == at,
    decreases at - i,
{
    if i < at {
        assert(!is_out(h, s.panes[i], screens[i]));
        lemma_first_out(s, h, screens, i + 1, at);
    }
}

/// The first agent that ran out is the one that gets a successor: it stands beside it, goes by its
/// name and "-next", counts as started by this daemon, is one further down the chain, and runs the
/// first model of the profile. Against a full house there is none.
pub proof fn law_a_successor_stands_beside(
    s: SessionView,
    h: HandoverView,
    ps: Seq<ProfileView>,
    screens: Seq<Seq<char>>,
    max_spawned: usize,
    bars: Bars,
    shell: Seq<char>,
    fits: bool,
    at: int,
)
    requires
        0 <= at < s.panes.len(),
        screens.len() == s.panes.len(),
        h.exhausted.len() > 0,
        h.profile is Some,
        is_out(h, s.panes[at], screens[at]),
        forall|j: int| 0 <= j < at ==> !is_out(h, #[trigger] s.panes[j], screens[j]),
        profile_of(ps, h.profile->Some_0) is Some,
        profile_of(ps, h.profile->Some_0)->Some_0.order.len() > 0,
    ensures
        ({
            let name = s.panes[at].life.agent->Some_0.name;
            let live = count_where(
                s.panes,
                |p: PaneView| p.life.spawned_by is Some && !p.life.exited,
            );
            let (t, r) = placing(s, h, ps, screens, max_spawned, bars, shell, fits);
            &&& live >= max_spawned ==> r is Capped && r->Capped_name == name
            &&& live < max_spawned ==> r is Started || r is NotPlaced
            &&& r is Started ==> r->dead == s.panes[at].id && r->Started_name == name
                && r->successor == name + "-next"@ && r->profile == h.profile->Some_0
            &&& r is NotPlaced ==> r->NotPlaced_name == name
        }),
{
    lemma_first_out(s, h, screens, 0, at);
    let p = |p: PaneView| p.life.spawned_by is Some && !p.life.exited;
    assert(self_started() =~= p);
}

/// Where nobody ran out, or there is nothing to hand over to, nothing is started.
pub proof fn law_no_successor_without_need(
    s: SessionView,
    h: HandoverView,
    ps: Seq<ProfileView>,
    screens: Seq<Seq<char>>,
    max_spawned: usize,
    bars: Bars,
    shell: Seq<char>,
    fits: bool,
)
    requires
        screens.len() == s.panes.len(),
        h.exhausted.len() == 0 || h.profile is None || forall|j: int|
            0 <= j < s.panes.len() ==> !is_out(h, #[trigger] s.panes[j], screens[j]),
    ensures
        placing(s, h, ps, screens, max_spawned, bars, shell, fits).0 == s,
        !(placing(s, h, ps, screens, max_spawned, bars, shell, fits).1 is Started),
{
    if h.exhausted.len() > 0 && h.profile is Some {
        lemma_none_out(s, h, screens, 0);
    }
}

proof fn lemma_none_out(s: SessionView, h: HandoverView, screens: Seq<Seq<char>>, i: int)
    requires
        0 <= i <= s.panes.len(),
        forall|j: int| 0 <= j < s.panes.len() ==> !is_out(h, #[trigger] s.panes[j], screens[j]),
    ensures
        first_out(s, h, screens, i) == s.panes.len(),
    decreases s.panes.len() - i,
{
    if i < s.panes.len() {
        assert(!is_out(h, s.panes[i], screens[i]));
        lemma_none_out(s, h, screens, i + 1);
    }
}

/// An agent whose successor started has one; where it did not start, it may be tried again.
pub proof fn law_a_successor_that_started_counts(
    s: SessionView,
    i: int,
    r: SuccessionView,
    why: Seq<char>,
)
    requires
        s.wf(),
        0 <= i < s.panes.len(),
        r is Started,
        r->dead == s.panes[i].id,
    ensures
        settled(s, r, None).0.panes[i].life.succeeded,
        settled(s, r, None).0.panes[i].life.agent == s.panes[i].life.agent,
        forall|j: int|
            0 <= j < s.panes.len() && j != i ==> #[trigger] settled(s, r, None).0.panes[j]
                == s.panes[j],
        settled(s, r, None).1 == r,
        settled(s, r, Some(why)).0 == s,
        settled(s, r, Some(why)).1 == (SuccessionView::NotStarted { name: r->Started_name, why }),
        succession_lines(r) == seq![r->Started_name + " ran out; "@ + r->successor + " took over"@],
{
    let id = s.panes[i].id;
    assert forall|j: int| 0 <= j < i implies !pane_is(id)(#[trigger] s.panes[j]) by {
        assert(s.panes[j].id < s.panes[i].id);
    }
    lemma_first_where_is(s.panes, pane_is(id), i);
}

/// A successor reads at most the last twelve lines of the screen that hold anything.
pub proof fn law_twelve_lines_are_quoted(ls: Seq<Seq<char>>, k: int)
    requires
        0 <= k < last_lines(ls).len(),
    ensures
        last_lines(ls).len() <= 12,
        unblank(ls).len() >= 12 ==> last_lines(ls).len() == 12,
        unblank(ls).len() < 12 ==> last_lines(ls) == unblank(ls),
        last_lines(ls).last() == unblank(ls).last(),
        trimmed(last_lines(ls)[k]).len() > 0,
        ls.contains(last_lines(ls)[k]),
{
    let p = |l: Seq<char>| trimmed(l).len() > 0;
    let f = |l: Seq<char>| l;
    let u = unblank(ls);
    let m = if u.len() <= 12 {
        k
    } else {
        u.len() - 12 + k
    };
    assert(last_lines(ls)[k] == u[m]);
    let i = lemma_pick_sound(ls, p, f, m);
    assert(ls[i] == u[m]);
}

/// A successor is told whom it replaces and where, first of all.
pub proof fn law_a_successor_is_told_whom_it_replaces(
    name: Seq<char>,
    cwd: Seq<char>,
    note: Option<Seq<char>>,
    facts: Option<RepoView>,
    screen: Seq<Seq<char>>,
)
    ensures
        begins(
            brief_text(name, cwd, note, facts, screen),
            "You are taking over from "@ + name
                + ", which ran out mid-task and could not brief you itself.\n"@
                + "Working directory: "@ + cwd + "\n"@,
        ),
        note matches Some(n) ==> begins(
            brief_text(name, cwd, note, facts, screen),
            "You are taking over from "@ + name
                + ", which ran out mid-task and could not brief you itself.\n"@
                + "Working directory: "@ + cwd + "\n"@ + "It left notes at "@ + n
                + " — read those first.\n"@,
        ),
{
    let whole = brief_text(name, cwd, note, facts, screen);
    let a = "You are taking over from "@ + name
        + ", which ran out mid-task and could not brief you itself.\n"@ + "Working directory: "@
        + cwd + "\n"@;
    assert(whole.subrange(0, a.len() as int) =~= a);
    if note is Some {
        let b = a + "It left notes at "@ + note->Some_0 + " — read those first.\n"@;
        assert(whole.subrange(0, b.len() as int) =~= b);
    }
}

/// Each pane whose profile has no model left is said to be out, by the profile.
pub proof fn law_a_profile_that_is_spent_is_said(
    s: SessionView,
    ps: Seq<ProfileView>,
    screens: Seq<Seq<char>>,
    now: u64,
    n: int,
    i: int,
)
    requires
        0 <= i < n <= s.panes.len(),
        move_for(s.panes[i], ps, screens[i], now) is Spent,
    ensures
        spent_of(s, ps, screens, now, n).contains(
            SpentView {
                pane: s.panes[i].id,
                profile: move_for(s.panes[i], ps, screens[i], now)->Spent_profile,
            },
        ),
    decreases n,
{
    let m = move_for(s.panes[i], ps, screens[i], now);
    let x = SpentView { pane: s.panes[i].id, profile: m->Spent_profile };
    let all = spent_of(s, ps, screens, now, n);
    if i < n - 1 {
        law_a_profile_that_is_spent_is_said(s, ps, screens, now, n - 1, i);
        let before = spent_of(s, ps, screens, now, n - 1);
        let k = choose|k: int| 0 <= k < before.len() && before[k] == x;
        assert(all[k] == x);
    } else {
        assert(all[all.len() - 1] == x);
    }
}

} // verus!
