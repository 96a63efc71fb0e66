//! What a rule does once it fires: work for the board, a line for an agent, or an agent of its
//! own.

use crate::engine::{Engine, EngineView};
use crate::proto::Dir;
use crate::seqs::{count_where, lemma_count_bound, lemma_first_where, lemma_first_where_is};
use crate::state::{
    pane_is, splitting, Bars, PaneLifeView, PaneView, SessionError, SessionErrorView, SessionView,
};
use crate::succession::{
    first_out, live_spawned, marked_succeeded, placing, profile_of, self_started, settled,
    HandoverView, ProfileView, SuccessionView,
};
use crate::text::{opt_str, own_opt};
use crate::triggers::{
    perform, performing, spawned_phrase, spawned_text, Act, ActView, Trigger, TriggerView,
};
use vstd::prelude::*;

verus! {

// -- starting an agent -------------------------------------------------------

/// A session in which a pane is called that, and is known to be a rule's.
pub open spec fn stamped(
    s: SessionView,
    pane: u64,
    name: Option<Seq<char>>,
    id: u64,
) -> SessionView {
    let i = s.pane_at(pane);
    if i < s.panes.len() {
        let p = s.panes[i];
        SessionView {
            panes: s.panes.update(
                i,
                PaneView { name, life: PaneLifeView { spawned_by: Some(id), ..p.life }, ..p },
            ),
            ..s
        }
    } else {
        s
    }
}

/// What starting an agent for a rule does: it comes up beside the pane in front, under the name
/// that the rule gives it, and carries the rule's number, which is what the cap on such agents
/// counts and what keeps them from making rules.
pub open spec fn started_by_rule(
    e: EngineView,
    bars: Bars,
    shell: Seq<char>,
    id: u64,
    cmd: Seq<char>,
    name: Option<Seq<char>>,
    fits: bool,
) -> (EngineView, Result<Seq<char>, SessionErrorView>) {
    let (s, r) = splitting(e.session, bars, shell, None, Dir::Right, Some(cmd), fits);
    match r {
        Err(x) => (EngineView { session: s, ..e }, Err(x)),
        Ok(pane) => (
            EngineView {
                session: stamped(s, pane, name, id),
                dirty_shape: true,
                detect_soon: true,
                ..e
            },
            Ok(spawned_text(name, pane, cmd)),
        ),
    }
}

/// A result of starting an agent for a rule, as values.
pub open spec fn rule_outcome(r: Result<String, SessionError>) -> Result<
    Seq<char>,
    SessionErrorView,
> {
    match r {
        Ok(x) => Ok(x@),
        Err(e) => Err(e@),
    }
}

impl Engine {
    /// Say whose a pane is.
    fn stamp(&mut self, pane: u64, name: Option<&str>, id: u64)
        requires
            old(self)@.wf(),
        ensures
            final(self)@ == (EngineView {
                session: stamped(old(self)@.session, pane, opt_str(name), id),
                ..old(self)@
            }),
            final(self)@.wf(),
    {
        let i: usize = self.session.pane_index(pane);
        if i < self.session.panes.len() {
            let ghost before = self@.session;
            self.session.panes[i].name = own_opt(name);
            self.session.panes[i].life.spawned_by = Some(id);
            proof {
                assert(self@.session.panes =~= stamped(before, pane, opt_str(name), id).panes);
            }
        }
    }

    /// Start an agent for a rule. Gives the phrase for the record.
    pub fn spawn_for_rule(
        &mut self,
        bars: Bars,
        shell: &str,
        id: u64,
        cmd: &str,
        name: Option<&str>,
        fits: bool,
    ) -> (r: Result<String, SessionError>)
        requires
            old(self)@.wf(),
            old(self)@.session.has_ids(),
        ensures
            (final(self)@, rule_outcome(r)) == started_by_rule(
                old(self)@,
                bars,
                shell@,
                id,
                cmd@,
                opt_str(name),
                fits,
            ),
            final(self)@.wf(),
    {
        match self.session.split(bars, shell, None, Dir::Right, Some(cmd), fits) {
            Err(x) => Err(x),
            Ok(pane) => {
                self.stamp(pane, name, id);
                self.touch();
                self.detect_now();
                Ok(spawned_phrase(name, pane, cmd))
            },
        }
    }
}

// -- performing --------------------------------------------------------------

/// What a rule did, or what is left of it.
#[derive(Debug, Clone, PartialEq, Eq)]
pub enum Deed {
    /// It is done. Carries the phrase for the record.
    Done(String),
    /// A line is to be pushed at an agent.
    Send { to: String, body: String },
}

/// The same, as text.
pub enum DeedView {
    Done(Seq<char>),
    Send { to: Seq<char>, body: Seq<char> },
}

impl View for Deed {
    type V = DeedView;

    open spec fn view(&self) -> DeedView {
        match *self {
            Deed::Done(s) => DeedView::Done(s@),
            Deed::Send { to, body } => DeedView::Send { to: to@, body: body@ },
        }
    }
}

/// A deed, or why it was not done, as text.
pub open spec fn deed_outcome(r: Result<Deed, String>) -> Result<DeedView, Seq<char>> {
    match r {
        Ok(d) => Ok(d@),
        Err(w) => Err(w@),
    }
}

/// How many agents a session runs that were started unasked.
pub open spec fn running(s: SessionView) -> nat {
    count_where(s.panes, self_started())
}

/// What performing a rule does to everything here. The cap holds against what is running now.
pub open spec fn carried_out(
    e: EngineView,
    t: TriggerView,
    board_on: bool,
    cap: usize,
    bars: Bars,
    shell: Seq<char>,
    fits: bool,
    now: u64,
) -> (EngineView, Result<DeedView, Seq<char>>) {
    let (b, r) = performing(e.board, t, board_on, running(e.session) as usize, cap, now);
    let there = EngineView { board: b, ..e };
    match r {
        Err(x) => (there, Err(x.text())),
        Ok(ActView::Placed(what)) => (
            EngineView { dirty_shape: true, ..there },
            Ok(DeedView::Done(what)),
        ),
        Ok(ActView::Send { to, body }) => (there, Ok(DeedView::Send { to, body })),
        Ok(ActView::Spawn { cmd, name }) => {
            let (after, started) = started_by_rule(there, bars, shell, t.id, cmd, name, fits);
            (
                after,
                match started {
                    Ok(what) => Ok(DeedView::Done(what)),
                    Err(x) => Err(x.message()),
                },
            )
        },
    }
}

impl Engine {
    /// Do what a rule is for, as far as that is possible from here. `fits` says whether there is
    /// room for another pane beside the one in front.
    pub fn carry_out(
        &mut self,
        t: &Trigger,
        board_on: bool,
        cap: usize,
        bars: Bars,
        shell: &str,
        fits: bool,
        now: u64,
    ) -> (r: Result<Deed, String>)
        requires
            old(self)@.wf(),
            old(self)@.session.has_ids(),
            old(self)@.board.next_id < u64::MAX,
        ensures
            (final(self)@, deed_outcome(r)) == carried_out(
                old(self)@,
                t@,
                board_on,
                cap,
                bars,
                shell@,
                fits,
                now,
            ),
            final(self)@.wf(),
    {
        let live: usize = live_spawned(&self.session);
        match perform(&mut self.board, t, board_on, live, cap, now) {
            Err(x) => Err(x.message()),
            Ok(Act::Placed(what)) => {
                self.touch();
                Ok(Deed::Done(what))
            },
            Ok(Act::Send { to, body }) => Ok(Deed::Send { to, body }),
            Ok(Act::Spawn { cmd, name }) => {
                let called = match &name {
                    Some(n) => Some(n.as_str()),
                    None => None,
                };
                match self.spawn_for_rule(bars, shell, t.id, cmd.as_str(), called, fits) {
                    Ok(what) => Ok(Deed::Done(what)),
                    Err(x) => Err(x.message()),
                }
            },
        }
    }
}

// -- laws --------------------------------------------------------------------

/// A pane that was just split off is the last one, and nothing else among the panes has changed.
proof fn lemma_split_appends(
    s: SessionView,
    bars: Bars,
    shell: Seq<char>,
    target: Option<u64>,
    cmd: Option<Seq<char>>,
    fits: bool,
)
    requires
        s.wf(),
    ensures
        ({
            let (t, r) = splitting(s, bars, shell, target, Dir::Right, cmd, fits);
            &&& r is Err ==> t.panes == s.panes
            &&& r matches Ok(pane) ==> {
                &&& pane == s.next_pane
                &&& t.panes.len() == s.panes.len() + 1
                &&& t.panes.drop_last() == s.panes
                &&& t.panes.last().id == pane
                &&& t.panes.last().life == crate::state::newborn()
                &&& t.pane_at(pane) == s.panes.len()
            }
        }),
{
    let (t, r) = splitting(s, bars, shell, target, Dir::Right, cmd, fits);
    if let Ok(pane) = r {
        assert(t.panes.drop_last() =~= s.panes);
        assert forall|j: int| 0 <= j < s.panes.len() implies !pane_is(pane)(
            #[trigger] t.panes[j],
        ) by {
            assert(t.panes[j] == s.panes[j]);
        }
        assert(pane_is(pane)(t.panes[s.panes.len() as int]));
        lemma_first_where_is(t.panes, pane_is(pane), s.panes.len() as int);
    }
}

/// An agent that a rule starts is there, in a pane of its own, under the rule's name for it and
/// with the rule's number, and it is one more of those that run unasked.
pub proof fn law_a_started_agent_carries_its_rule(
    e: EngineView,
    bars: Bars,
    shell: Seq<char>,
    id: u64,
    cmd: Seq<char>,
    name: Option<Seq<char>>,
    fits: bool,
)
    requires
        e.session.wf(),
        started_by_rule(e, bars, shell, id, cmd, name, fits).1 is Ok,
    ensures
        ({
            let after = started_by_rule(e, bars, shell, id, cmd, name, fits).0.session;
            &&& after.panes.len() == e.session.panes.len() + 1
            &&& after.panes.drop_last() == e.session.panes
            &&& after.panes.last().id == e.session.next_pane
            &&& after.panes.last().name == name
            &&& after.panes.last().life.spawned_by == Some(id)
            &&& !after.panes.last().life.exited
            &&& running(after) == running(e.session) + 1
        }),
{
    lemma_split_appends(e.session, bars, shell, None, Some(cmd), fits);
    let s = splitting(e.session, bars, shell, None, Dir::Right, Some(cmd), fits).0;
    let after = started_by_rule(e, bars, shell, id, cmd, name, fits).0.session;
    assert(after.panes.drop_last() =~= s.panes.drop_last());
}

/// The cap on agents that run unasked is never passed: where there is room for one more, it is
/// there at most to fill the last place.
pub proof fn law_the_cap_on_started_agents_holds(
    e: EngineView,
    t: TriggerView,
    board_on: bool,
    live: usize,
    cap: usize,
    bars: Bars,
    shell: Seq<char>,
    fits: bool,
    now: u64,
)
    requires
        e.session.wf(),
        live == running(e.session),
        performing(e.board, t, board_on, live, cap, now).1 matches Ok(ActView::Spawn { .. }),
    ensures
        ({
            let spawn = performing(e.board, t, board_on, live, cap, now).1->Ok_0;
            let after = started_by_rule(
                e,
                bars,
                shell,
                t.id,
                spawn->cmd,
                spawn->name,
                fits,
            ).0;
            running(after.session) <= cap
        }),
{
    let spawn = performing(e.board, t, board_on, live, cap, now).1->Ok_0;
    lemma_split_appends(e.session, bars, shell, None, Some(spawn->cmd), fits);
    if started_by_rule(e, bars, shell, t.id, spawn->cmd, spawn->name, fits).1 is Ok {
        law_a_started_agent_carries_its_rule(
            e,
            bars,
            shell,
            t.id,
            spawn->cmd,
            spawn->name,
            fits,
        );
    }
}

/// Whatever a rule does, no more agents run unasked after it than the cap allows, or than ran
/// before; and with the cap reached, a rule that starts one is refused and starts nothing.
pub proof fn law_no_rule_passes_the_cap(
    e: EngineView,
    t: TriggerView,
    board_on: bool,
    cap: usize,
    bars: Bars,
    shell: Seq<char>,
    fits: bool,
    now: u64,
)
    requires
        e.session.wf(),
        e.session.panes.len() <= usize::MAX,
    ensures
        ({
            let (after, r) = carried_out(e, t, board_on, cap, bars, shell, fits, now);
            &&& running(after.session) <= cap || running(after.session) == running(e.session)
            &&& t.what is Spawn && running(e.session) >= cap ==> r is Err && after == e
        }),
{
    lemma_count_bound(e.session.panes, self_started());
    let live = running(e.session) as usize;
    let (b, r) = performing(e.board, t, board_on, live, cap, now);
    if r matches Ok(ActView::Spawn { .. }) {
        law_the_cap_on_started_agents_holds(
            EngineView { board: b, ..e },
            t,
            board_on,
            live,
            cap,
            bars,
            shell,
            fits,
            now,
        );
    }
}

/// Panes that are alike in what is asked are as many.
proof fn lemma_count_alike(a: Seq<PaneView>, b: Seq<PaneView>, p: spec_fn(PaneView) -> bool)
    requires
        a.len() == b.len(),
        forall|i: int| 0 <= i < a.len() ==> p(#[trigger] a[i]) == p(b[i]),
    ensures
        count_where(a, p) == count_where(b, p),
    decreases a.len(),
{
    if a.len() > 0 {
        let (x, y) = (a.drop_last(), b.drop_last());
        assert forall|i: int| 0 <= i < x.len() implies p(#[trigger] x[i]) == p(y[i]) by {
            assert(x[i] == a[i]);
        }
        lemma_count_alike(x, y, p);
        assert(p(a[a.len() - 1]) == p(b[b.len() - 1]));
    }
}

/// A pane that has been succeeded counts as it did.
proof fn lemma_marking_keeps_count(s: SessionView, pane: u64)
    ensures
        running(marked_succeeded(s, pane)) == running(s),
{
    lemma_first_where(s.panes, pane_is(pane));
    lemma_count_alike(marked_succeeded(s, pane).panes, s.panes, self_started());
}

/// Nor does a successor take the agents that were started past their cap, whether or not its
/// program starts; where there are as many as may be, there is none.
pub proof fn law_no_successor_passes_the_cap(
    s: SessionView,
    h: HandoverView,
    ps: Seq<ProfileView>,
    screens: Seq<Seq<char>>,
    cap: usize,
    bars: Bars,
    shell: Seq<char>,
    fits: bool,
)
    requires
        s.wf(),
    ensures
        ({
            let (placed, r) = placing(s, h, ps, screens, cap, bars, shell, fits);
            let after = settled(placed, r, None).0;
            &&& running(placed) <= cap || running(placed) == running(s)
            &&& running(after) == running(placed)
            &&& r is Started ==> running(s) < cap && running(placed) == running(s) + 1
            &&& r !is Started ==> running(placed) == running(s)
        }),
{
    let (placed, r) = placing(s, h, ps, screens, cap, bars, shell, fits);
    match r {
        SuccessionView::Started { dead, profile, .. } => {
            lemma_marking_keeps_count(placed, dead);
            let cmd = profile_of(ps, profile)->Some_0.command_of(0);
            lemma_split_appends(s, bars, shell, Some(dead), cmd, fits);
            let t = splitting(s, bars, shell, Some(dead), Dir::Right, cmd, fits).0;
            assert(placed.panes.drop_last() =~= t.panes.drop_last());
        },
        SuccessionView::NotPlaced { .. } => {
            let i = first_out(s, h, screens, 0);
            let cmd = profile_of(ps, h.profile->Some_0)->Some_0.command_of(0);
            lemma_split_appends(s, bars, shell, Some(s.panes[i].id), cmd, fits);
        },
        SuccessionView::Capped { .. } => {
            lemma_marking_keeps_count(s, s.panes[first_out(s, h, screens, 0)].id);
        },
        _ => {},
    }
}

} // verus!
