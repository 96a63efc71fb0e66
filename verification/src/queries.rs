//! Requests that are answered with what is known elsewhere: what each of them means, and what
//! answering it does.

use crate::agent::AgentView;
use crate::broadcast::{mirror_of, mirror_views, Mirror};
use crate::commands::Level;
use crate::engine::{has_agent, Engine, EngineView, Event, EventView};
use crate::firing::{carried_out, Deed, DeedView};
use crate::fleet::{
    last_lines, read_screen, record_activity, reported, state_arg, state_named, DoingsView,
};
use crate::notebook::VaultQuery;
use crate::pane::{detected, shown};
use crate::proto::{AgentState, ViewState};
use crate::rpc::{
    bad, bad_of, digest_window, failed, failed_of, known_views, not_found, not_found_of,
    pane_meant, pane_or_front, request_arg, trigger_arg, trigger_meant, window_of, Fault,
    FaultView, Known, Request, RequestView,
};
use crate::seqs::{
    count_where, first_where, lemma_count_take, lemma_first_where, lemma_first_where_is,
};
use crate::state::{named, pane_is, taken, Bars, PaneLifeView, PaneView, Session, SessionView};
use crate::text::{opt_text, own_opt, owned, texts};
use crate::triggers::{fired_line, Record, RecordView, TriggerError, TriggerView};
use vstd::prelude::*;
use vstd::string::*;

verus! {

// -- the configuration -------------------------------------------------------

/// Which panels are open, and how wide they are.
#[derive(Debug, Clone, Copy, PartialEq, Eq, Structural)]
pub struct Panels {
    pub sidebar: bool,
    pub bus: bool,
    pub sidebar_width: u16,
    pub bus_width: u16,
}

/// What is wrong with a configuration, to be said.
pub open spec fn complained_of(e: EngineView, ws: Seq<Seq<char>>, n: int) -> EngineView
    decreases n,
{
    if n <= 0 {
        e
    } else {
        complained_of(e, ws, n - 1).noticing(Level::Warn, "config: "@ + ws[n - 1])
    }
}

/// What another configuration does: its panels are shown, every screen is drawn again in its
/// colours, and what could not be used of it is said.
pub open spec fn reconfigured(
    e: EngineView,
    bars: Bars,
    p: Panels,
    ws: Seq<Seq<char>>,
) -> EngineView {
    let view = ViewState {
        sidebar_open: p.sidebar,
        bus_open: p.bus,
        sidebar_width: p.sidebar_width,
        bus_width: p.bus_width,
        zoom: e.session.view.zoom,
    };
    complained_of(
        EngineView {
            session: (SessionView { view, ..e.session }).laid_out(bars),
            repaint: true,
            dirty_shape: true,
            ..e
        },
        ws,
        ws.len() as int,
    )
}

impl Engine {
    /// Go by another configuration from here on.
    pub fn reload(&mut self, bars: Bars, p: Panels, warnings: &Vec<String>)
        ensures
            final(self)@ == reconfigured(old(self)@, bars, p, texts(warnings@)),
            old(self)@.wf() ==> final(self)@.wf(),
    {
        let ghost before = self@;
        self.session.view.sidebar_open = p.sidebar;
        self.session.view.bus_open = p.bus;
        self.session.view.sidebar_width = p.sidebar_width;
        self.session.view.bus_width = p.bus_width;
        self.session.relayout(bars);
        self.repaint = true;
        self.touch();
        let ghost there = self@;
        let ghost ws = texts(warnings@);
        let mut i: usize = 0;
        while i < warnings.len()
            invariant
                i <= warnings@.len(),
                ws == texts(warnings@),
                self@ == complained_of(there, ws, i as int),
                there.wf() ==> self@.wf(),
            decreases warnings@.len() - i,
        {
            let mut m = owned("config: ");
            m.append(warnings[i].as_str());
            self.notice(Level::Warn, m.as_str());
            i = i + 1;
        }
    }
}

// -- how it stands -----------------------------------------------------------

/// How much there is of everything.
#[derive(Debug, Clone, Copy, PartialEq, Eq, Structural)]
pub struct Status {
    pub spaces: usize,
    pub tabs: usize,
    pub panes: usize,
    pub agents: usize,
}

impl Session {
    /// How much there is of everything.
    pub fn status(&self) -> (r: Status)
        ensures
            r.spaces as nat == self@.spaces.len(),
            r.tabs as nat == self@.tabs.len(),
            r.panes as nat == self@.panes.len(),
            r.agents as nat == count_where(self@.panes, has_agent()),
    {
        let mut agents: usize = 0;
        let mut i: usize = 0;
        proof {
            assert(self@.panes.take(0) =~= Seq::<PaneView>::empty());
        }
        while i < self.panes.len()
            invariant
                i <= self.panes@.len(),
                agents <= i,
                agents as nat == count_where(self@.panes.take(i as int), has_agent()),
            decreases self.panes@.len() - i,
        {
            proof {
                lemma_count_take(self@.panes, has_agent(), i as int);
            }
            if self.panes[i].life.agent.is_some() {
                agents = agents + 1;
            }
            i = i + 1;
        }
        proof {
            assert(self@.panes.take(i as int) =~= self@.panes);
        }
        Status {
            spaces: self.spaces.len(),
            tabs: self.tabs.len(),
            panes: self.panes.len(),
            agents,
        }
    }
}

// -- reading a pane ----------------------------------------------------------

/// What was read off a pane.
#[derive(Debug, Clone, PartialEq, Eq)]
pub struct Reading {
    pub pane: u64,
    pub source: String,
    pub lines: Vec<String>,
}

/// How many lines are wanted. A machine that cannot count so far gives what it can.
pub open spec fn lines_wanted(q: RequestView) -> int {
    match q.whole("lines"@) {
        Some(n) => if n > usize::MAX {
            usize::MAX as int
        } else {
            n as int
        },
        None => 50,
    }
}

/// Which lines are wanted.
pub open spec fn source_wanted(q: RequestView) -> Seq<char> {
    match q.text("source"@) {
        Some(s) => s,
        None => "visible"@,
    }
}

/// What is read off a screen.
pub open spec fn lines_read(m: Mirror, q: RequestView) -> Seq<Seq<char>> {
    let all = shown(m.screen@.rows);
    if source_wanted(q) == "detection"@ {
        detected(m.screen@, lines_wanted(q))
    } else if source_wanted(q) == "recent"@ {
        last_lines(all, lines_wanted(q))
    } else {
        all
    }
}

/// Read what is on the pane that is meant.
pub fn read_pane(q: &Request, s: &Session, ks: &Vec<Known>, ms: &Vec<Mirror>) -> (r: Result<
    Reading,
    Fault,
>)
    ensures
        match pane_meant(q@, s@, known_views(ks@), "pane"@) {
            None => r is Err && r->Err_0@ == bad_of("no pane"@),
            Some(p) => {
                let i = first_where(mirror_views(ms@), mirror_of(p));
                if i < ms@.len() {
                    &&& r is Ok
                    &&& r->Ok_0.pane == p
                    &&& r->Ok_0.source@ == source_wanted(q@)
                    &&& texts(r->Ok_0.lines@) == lines_read(ms@[i], q@)
                } else {
                    r is Err && r->Err_0@ == not_found_of("no such pane"@)
                }
            },
        },
{
    let p: u64 = match pane_or_front(q, s, ks, "pane") {
        Some(p) => p,
        None => {
            return Err(bad("no pane"));
        },
    };
    let lines: usize = match q.u64_arg("lines") {
        Some(n) => if n > usize::MAX as u64 {
            usize::MAX
        } else {
            n as usize
        },
        None => 50,
    };
    let source = match q.str_arg("source") {
        Some(t) => t,
        None => "visible",
    };
    let ghost vs = mirror_views(ms@);
    let mut i: usize = 0;
    while i < ms.len()
        invariant
            i <= ms@.len(),
            vs == mirror_views(ms@),
            forall|j: int| 0 <= j < i ==> !mirror_of(p)(#[trigger] vs[j]),
            pane_meant(q@, s@, known_views(ks@), "pane"@) == Some(p),
            lines as int == lines_wanted(q@),
            source@ == source_wanted(q@),
        decreases ms@.len() - i,
    {
        if ms[i].pane == p {
            proof {
                assert(mirror_of(p)(vs[i as int]));
                lemma_first_where_is(vs, mirror_of(p), i as int);
            }
            return Ok(
                Reading {
                    pane: p,
                    source: owned(source),
                    lines: read_screen(&ms[i].screen, source, lines),
                },
            );
        }
        proof {
            assert(!mirror_of(p)(vs[i as int]));
        }
        i = i + 1;
    }
    proof {
        lemma_first_where_is(vs, mirror_of(p), vs.len() as int);
    }
    Err(not_found("no such pane"))
}

// -- what agents report ------------------------------------------------------

/// What a report says of whom.
#[derive(Debug, Clone, PartialEq, Eq)]
pub struct Report {
    pub pane: u64,
    pub state: AgentState,
    pub session: Option<String>,
}

/// What a report says of whom.
pub fn report_arg(q: &Request, s: &Session, ks: &Vec<Known>) -> (r: Result<Report, Fault>)
    ensures
        match pane_meant(q@, s@, known_views(ks@), "pane"@) {
            None => r is Err && r->Err_0@ == bad_of("no pane"@),
            Some(p) => match state_named(q@) {
                Err(f) => r is Err && r->Err_0@ == f,
                Ok(state) => r is Ok && r->Ok_0.pane == p && r->Ok_0.state == state && opt_text(
                    r->Ok_0.session,
                ) == q@.text("session"@),
            },
        },
{
    match pane_or_front(q, s, ks, "pane") {
        None => Err(bad("no pane")),
        Some(pane) => match state_arg(q) {
            Err(f) => Err(f),
            Ok(state) => Ok(Report { pane, state, session: own_opt(q.str_arg("session")) }),
        },
    }
}

/// An agent that did what a report says.
pub open spec fn having_done(a: AgentView, q: RequestView) -> AgentView {
    let d = reported(DoingsView { activity: a.activity, touched: a.touched }, q);
    AgentView { activity: d.activity, touched: d.touched, ..a }
}

/// The counters of an agent have room for what another report says.
pub open spec fn can_count(a: AgentView) -> bool {
    &&& a.activity.turns < u32::MAX
    &&& a.activity.tools < u32::MAX
    &&& a.activity.errors < u32::MAX
    &&& a.touched.len() < u32::MAX
}

/// The agent of a pane, where there is one.
pub open spec fn agent_in(s: SessionView, pane: u64) -> Option<AgentView> {
    let i = s.pane_at(pane);
    if i < s.panes.len() {
        s.panes[i].life.agent
    } else {
        None
    }
}

/// A session in which the agent of a pane did what a report says.
pub open spec fn counted(s: SessionView, pane: u64, q: RequestView) -> SessionView {
    let i = s.pane_at(pane);
    if i < s.panes.len() {
        SessionView { panes: s.panes.update(i, pane_counted(s.panes[i], q)), ..s }
    } else {
        s
    }
}

/// A pane whose agent, where it has one, did what a report says.
pub open spec fn pane_counted(p: PaneView, q: RequestView) -> PaneView {
    PaneView {
        life: PaneLifeView {
            agent: match p.life.agent {
                Some(a) => Some(having_done(a, q)),
                None => None,
            },
            ..p.life
        },
        ..p
    }
}

/// What a report does beyond the state it names: what the agent did is counted, and whatever the
/// state brought about is told.
pub open spec fn accounted(
    e: EngineView,
    pane: u64,
    q: RequestView,
    came: Option<EventView>,
) -> EngineView {
    let there = EngineView { session: counted(e.session, pane, q), dirty_shape: true, ..e };
    match came {
        Some(ev) => there.telling(ev),
        None => there,
    }
}

/// An event that may not be there, as values.
pub open spec fn opt_event(e: Option<Event>) -> Option<EventView> {
    match e {
        Some(e) => Some(e@),
        None => None,
    }
}

/// Count what a report says was done.
fn count(s: &mut Session, pane: u64, q: &Request)
    requires
        agent_in(old(s)@, pane) matches Some(a) ==> can_count(a),
    ensures
        final(s)@ == counted(old(s)@, pane, q@),
{
    let i: usize = s.pane_index(pane);
    if i < s.panes.len() {
        let ghost before = s@;
        let ghost held = s.panes@[i as int].life.agent;
        if let Some(a) = &mut s.panes[i].life.agent {
            record_activity(a, q);
        }
        proof {
            if held is Some {
                assert(s.panes@[i as int].life.agent->Some_0@ == having_done(
                    held->Some_0@,
                    q@,
                ));
            }
            assert(s@.panes =~= before.panes.update(
                i as int,
                pane_counted(before.panes[i as int], q@),
            ));
        }
    }
}

/// Counting keeps a session sound.
proof fn lemma_counted_wf(s: SessionView, pane: u64, q: RequestView)
    requires
        s.wf(),
    ensures
        counted(s, pane, q).wf(),
{
    lemma_first_where(s.panes, pane_is(pane));
    let t = counted(s, pane, q);
    assert(t.panes.len() == s.panes.len());
    assert forall|i: int| 0 <= i < s.panes.len() implies (#[trigger] t.panes[i]).id
        == s.panes[i].id by {}
}

impl Engine {
    /// Count what a report says was done, once the state it names has been taken down. `came` is
    /// what that brought about.
    pub fn account(&mut self, pane: u64, q: &Request, came: Option<Event>)
        requires
            agent_in(old(self)@.session, pane) matches Some(a) ==> can_count(a),
        ensures
            final(self)@ == accounted(old(self)@, pane, q@, opt_event(came)),
            old(self)@.wf() ==> final(self)@.wf(),
    {
        let ghost before = self@;
        count(&mut self.session, pane, q);
        proof {
            if before.wf() {
                lemma_counted_wf(before.session, pane, q@);
            }
        }
        if let Some(e) = came {
            self.emit(e);
        }
        self.touch();
    }
}

// -- notes -------------------------------------------------------------------

/// Whether there is an answer to a question about notes: the project has a vault, and a note that
/// is asked for is in it. `body` is whether a note's text came with the answer.
pub fn vault_verdict(kind: &VaultQuery, vault: bool, body: bool) -> (r: Result<(), Fault>)
    ensures
        match r {
            Ok(_) => vault && !(*kind is Note && !body),
            Err(f) => if !vault {
                f@ == not_found_of(
                    "this project has no vault — see `vault.dir` in the config"@,
                )
            } else {
                *kind is Note && !body && f@ == not_found_of("no such note in this vault"@)
            },
        },
{
    if !vault {
        return Err(not_found("this project has no vault — see `vault.dir` in the config"));
    }
    match kind {
        VaultQuery::Note(_) => if body {
            Ok(())
        } else {
            Err(not_found("no such note in this vault"))
        },
        _ => Ok(()),
    }
}

// -- the digest --------------------------------------------------------------

/// What reading a digest does: the next one begins where this one ends, unless the reader only
/// looks. With it comes the start of the window that is read.
pub open spec fn digesting(e: EngineView, q: RequestView, now: u64) -> (EngineView, u64) {
    let since = window_of(q, e.last_seen, e.started, now);
    (
        if q.is_on("keep"@) {
            e
        } else {
            EngineView { last_seen: now, dirty_shape: true, ..e }
        },
        since,
    )
}

impl Engine {
    /// Read what has happened. Gives from when on.
    pub fn digest(&mut self, q: &Request, now: u64) -> (since: u64)
        ensures
            (final(self)@, since) == digesting(old(self)@, q@, now),
            old(self)@.wf() ==> final(self)@.wf(),
    {
        let since: u64 = digest_window(q, self.last_seen, self.started, now);
        if !q.bool_arg("keep") {
            self.last_seen = now;
            self.touch();
        }
        since
    }
}

/// Where a digest is filed, where that is wanted: in the space in front, under the day.
pub fn digest_note(q: &Request, s: &Session, day: &str) -> (r: Result<
    Option<(u64, String)>,
    Fault,
>)
    ensures
        match (q@.is_on("note"@), s@.focused_space) {
            (false, _) => r is Ok && r->Ok_0 is None,
            (true, None) => r is Err && r->Err_0@ == bad_of("no focused space"@),
            (true, Some(space)) => r is Ok && r->Ok_0 is Some && r->Ok_0->Some_0.0 == space
                && r->Ok_0->Some_0.1@ == day@ + ".md"@,
        },
{
    if !q.bool_arg("note") {
        return Ok(None);
    }
    match s.focused_space {
        None => Err(bad("no focused space")),
        Some(space) => {
            let mut path = owned(day);
            path.append(".md");
            Ok(Some((space, path)))
        },
    }
}

// -- messages ----------------------------------------------------------------

/// What is asked for a message to be answered: which one, and with what.
pub fn reply_args(q: &Request) -> (r: Result<(u64, String), Fault>)
    ensures
        match (q@.whole("request"@), q@.text("body"@)) {
            (None, _) => r is Err && r->Err_0@ == bad_of("request id required"@),
            (Some(_), None) => r is Err && r->Err_0@ == bad_of("body required"@),
            (Some(id), Some(body)) => r is Ok && r->Ok_0.0 == id && r->Ok_0.1@ == body,
        },
{
    match request_arg(q) {
        Err(f) => Err(f),
        Ok(id) => match q.str_arg("body") {
            None => Err(bad("body required")),
            Some(b) => Ok((id, owned(b))),
        },
    }
}

/// What is asked for everybody to be told something: what, and in which space alone, where one
/// of that name is there.
pub fn broadcast_args(q: &Request, s: &Session) -> (r: Result<(String, Option<u64>), Fault>)
    ensures
        match q@.text("body"@) {
            None => r is Err && r->Err_0@ == bad_of("body required"@),
            Some(body) => r is Ok && r->Ok_0.0@ == body && r->Ok_0.1 == (match q@.text("space"@) {
                Some(n) if taken(s@.spaces, n) => Some(
                    s@.spaces[first_where(s@.spaces, named(n))].id,
                ),
                _ => None,
            }),
        },
{
    match q.str_arg("body") {
        None => Err(bad("body required")),
        Some(b) => {
            let space = match q.str_arg("space") {
                None => None,
                Some(n) => s.find_space_by_name(n),
            };
            Ok((owned(b), space))
        },
    }
}

/// How many of the last messages are wanted.
pub fn tail_limit(q: &Request) -> (r: u64)
    ensures
        r == (match q@.whole("limit"@) {
            Some(n) => n,
            None => 50,
        }),
{
    match q.u64_arg("limit") {
        Some(n) => n,
        None => 50,
    }
}

// -- firing by hand ----------------------------------------------------------

/// What firing a rule by hand does, and what is left to do.
pub open spec fn firing_by_hand(
    e: EngineView,
    q: RequestView,
    board_on: bool,
    cap: usize,
    bars: Bars,
    shell: Seq<char>,
    fits: bool,
    now: u64,
) -> (EngineView, Result<(u64, DeedView), FaultView>) {
    match trigger_meant(q) {
        Err(f) => (e, Err(f)),
        Ok(id) => match e.triggers.got(id) {
            None => (e, Err(failed_of(TriggerError::NoSuch(id).text()))),
            Some(t) => {
                let (after, r) = carried_out(e, t, board_on, cap, bars, shell, fits, now);
                (
                    after,
                    match r {
                        Ok(d) => Ok((id, d)),
                        Err(why) => Err(failed_of(why)),
                    },
                )
            },
        },
    }
}

/// A result of firing by hand, as values.
pub open spec fn fired_outcome(r: Result<(u64, Deed), Fault>) -> Result<(u64, DeedView), FaultView> {
    match r {
        Ok(x) => Ok((x.0, x.1@)),
        Err(f) => Err(f@),
    }
}

impl Engine {
    /// Fire a rule by hand, as far as that is possible from here.
    pub fn fire_by_hand(
        &mut self,
        q: &Request,
        board_on: bool,
        cap: usize,
        bars: Bars,
        shell: &str,
        fits: bool,
        now: u64,
    ) -> (r: Result<(u64, Deed), Fault>)
        requires
            old(self)@.wf(),
            old(self)@.session.has_ids(),
            old(self)@.board.next_id < u64::MAX,
        ensures
            (final(self)@, fired_outcome(r)) == firing_by_hand(
                old(self)@,
                q@,
                board_on,
                cap,
                bars,
                shell@,
                fits,
                now,
            ),
            final(self)@.wf(),
    {
        let id: u64 = match trigger_arg(q) {
            Err(f) => {
                return Err(f);
            },
            Ok(id) => id,
        };
        let t = match self.triggers.get(id) {
            Some(t) => t.copy(),
            None => {
                return Err(failed(TriggerError::NoSuch(id).message().as_str()));
            },
        };
        match self.carry_out(&t, board_on, cap, bars, shell, fits, now) {
            Ok(d) => Ok((id, d)),
            Err(why) => Err(failed(why.as_str())),
        }
    }

    /// A rule that was fired by hand did that. It counts like any other firing.
    pub fn fired_by_hand(&mut self, id: u64, what: &str, now: u64) -> (r: Record)
        requires
            old(self)@.wf(),
        ensures
            final(self)@ == (EngineView {
                triggers: old(self)@.triggers.changed(id, |t: TriggerView| t.fired(now)).0,
                dirty_shape: true,
                ..old(self)@
            }),
            r@ == (RecordView {
                journal: Some(fired_line(id, what@)),
                log: "trigger "@ + fired_line(id, what@) + " (by hand)"@,
                notice: None,
            }),
            final(self)@.wf(),
    {
        let r = self.triggers.settle_by_hand(id, what, now);
        self.touch();
        r
    }
}

// -- laws --------------------------------------------------------------------

/// Nothing falls between two digests: the second begins where the first ended.
pub proof fn law_digests_leave_no_gap(
    e: EngineView,
    first: RequestView,
    then: RequestView,
    now: u64,
    later: u64,
)
    requires
        now > 0,
        !first.is_on("keep"@),
        then.whole("since"@) is None,
    ensures
        digesting(digesting(e, first, now).0, then, later).1 == now,
{
}

/// A digest that is only looked at is there to be read again, whole.
pub proof fn law_a_look_keeps_the_digest(
    e: EngineView,
    look: RequestView,
    then: RequestView,
    now: u64,
    later: u64,
)
    requires
        look.is_on("keep"@),
    ensures
        digesting(digesting(e, look, now).0, then, later) == digesting(e, then, later),
{
}

} // verus!
