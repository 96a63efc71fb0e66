//! The daemon's state machine: what clients and the clock do to the session.

use crate::cards::{count_due, is_due};
use crate::commands::{
    all_redrawn, commanded, pane_ids, Applied, AppliedView, Cmd, Facts, Level, PaneAct,
};
use crate::lifecycle::{orphans_notice, orphans_text};
use crate::paths::{same_path, same_place};
use crate::proto::{AgentState, Rect};
use crate::recents::{noted, projects_of, Recents, RecentView};
use crate::seqs::{count_where, first_where, lemma_first_where_is, lemma_pick_take, pick};
use crate::servers::{lsp_info, serving_in, serving_views, Serving};
use crate::snapshot::{told, Snapshot, SnapshotView, SpaceInfoView};
use crate::state::{
    at_least, dead, pane_focused, panes_closed, rects_of, with_space, Bars, PaneView, Session,
    SessionView,
};
use crate::tasks::{give_back, orphaned, views, Board, BoardView, TaskView};
use crate::text::{decimal, number, owned, same, texts};
use crate::triggers::{armed, Store, StoreView};
use vstd::prelude::*;
use vstd::string::*;

verus! {

/// How long after the last of a flurry of sizes every program is told to redraw, in millis.
pub const RESIZE_SETTLE: u64 = 120;

// -- what is told ------------------------------------------------------------

/// Something clients are told of as it happens.
#[derive(Debug, Clone, PartialEq, Eq)]
pub enum Event {
    Notice { level: Level, text: String },
    PaneExited { pane: u64, status: i32 },
}

/// The same, as values.
pub enum EventView {
    Notice { level: Level, text: Seq<char> },
    PaneExited { pane: u64, status: i32 },
}

impl View for Event {
    type V = EventView;

    open spec fn view(&self) -> EventView {
        match *self {
            Event::Notice { level, text } => EventView::Notice { level, text: text@ },
            Event::PaneExited { pane, status } => EventView::PaneExited { pane, status },
        }
    }
}

/// Events, as values.
pub open spec fn event_views(v: Seq<Event>) -> Seq<EventView> {
    Seq::new(v.len(), |i: int| v[i]@)
}

// -- clients -----------------------------------------------------------------

/// A window that is attached.
#[derive(Debug, Clone, PartialEq, Eq)]
pub struct Client {
    pub id: u64,
    pub cols: u16,
    pub rows: u16,
    /// Panes it has yet to be sent whole.
    pub needs_full: Vec<u64>,
}

/// The same, as values.
pub struct ClientView {
    pub id: u64,
    pub cols: u16,
    pub rows: u16,
    pub needs_full: Seq<u64>,
}

impl View for Client {
    type V = ClientView;

    open spec fn view(&self) -> ClientView {
        ClientView {
            id: self.id,
            cols: self.cols,
            rows: self.rows,
            needs_full: self.needs_full@,
        }
    }
}

/// Clients, as values.
pub open spec fn client_views(v: Seq<Client>) -> Seq<ClientView> {
    Seq::new(v.len(), |i: int| v[i]@)
}

/// A client with this id.
pub open spec fn client_is(id: u64) -> spec_fn(ClientView) -> bool {
    |c: ClientView| c.id == id
}

/// A client with another id.
pub open spec fn other_client(id: u64) -> spec_fn(ClientView) -> bool {
    |c: ClientView| c.id != id
}

/// The smaller of two.
pub open spec fn lesser(a: u16, b: u16) -> u16 {
    if b < a {
        b
    } else {
        a
    }
}

/// The largest size that every one of the first `n` clients can show.
pub open spec fn common_size(cs: Seq<ClientView>, n: int) -> (u16, u16)
    decreases n,
{
    if n <= 1 {
        (cs[0].cols, cs[0].rows)
    } else {
        let (c, r) = common_size(cs, n - 1);
        (lesser(c, cs[n - 1].cols), lesser(r, cs[n - 1].rows))
    }
}

/// Each client owed every pane.
pub open spec fn all_owed(cs: Seq<ClientView>, panes: Seq<u64>) -> Seq<ClientView> {
    Seq::new(cs.len(), |i: int| ClientView { needs_full: panes, ..cs[i] })
}

// -- the engine --------------------------------------------------------------

pub struct Engine {
    pub session: Session,
    pub board: Board,
    pub triggers: Store,
    pub recents: Recents,
    pub clients: Vec<Client>,
    /// When this daemon started, in unix millis.
    pub started: u64,
    /// When somebody last read what had happened. It advances only on a read, so what is not
    /// read widens the window instead of being lost.
    pub last_seen: u64,
    /// Clients need a fresh snapshot.
    pub dirty_shape: bool,
    /// Agents are looked at on the next tick, rather than when it is time.
    pub detect_soon: bool,
    /// When the last size arrived, while sizes keep arriving.
    pub settling: Option<u64>,
    /// Every screen is to be built and sent again.
    pub repaint: bool,
    pub events: Vec<Event>,
}

/// The same, as values.
pub struct EngineView {
    pub session: SessionView,
    pub board: BoardView,
    pub triggers: StoreView,
    pub recents: Seq<RecentView>,
    pub clients: Seq<ClientView>,
    pub started: u64,
    pub last_seen: u64,
    pub dirty_shape: bool,
    pub detect_soon: bool,
    pub settling: Option<u64>,
    pub repaint: bool,
    pub events: Seq<EventView>,
}

impl View for Engine {
    type V = EngineView;

    open spec fn view(&self) -> EngineView {
        EngineView {
            session: self.session@,
            board: self.board@,
            triggers: self.triggers@,
            recents: self.recents@,
            clients: client_views(self.clients@),
            started: self.started,
            last_seen: self.last_seen,
            dirty_shape: self.dirty_shape,
            detect_soon: self.detect_soon,
            settling: self.settling,
            repaint: self.repaint,
            events: event_views(self.events@),
        }
    }
}

impl EngineView {
    /// The session, the board and the rules are sound.
    pub open spec fn wf(self) -> bool {
        self.session.wf() && self.board.wf() && self.triggers.wf()
    }

    /// The same, with something to tell.
    pub open spec fn telling(self, e: EventView) -> EngineView {
        EngineView { events: self.events.push(e), ..self }
    }

    /// The same, with a notice to give.
    pub open spec fn noticing(self, level: Level, text: Seq<char>) -> EngineView {
        self.telling(EventView::Notice { level, text })
    }

    /// The size re-derived from the windows that are attached. Two windows share one set of
    /// terminals, so the smallest counts; with nobody watching the last size stays.
    pub open spec fn resynced(self, bars: Bars, now: u64) -> EngineView {
        let (cols, rows) = common_size(self.clients, self.clients.len() as int);
        let (c, r) = (at_least(cols, 20), at_least(rows, 6));
        if self.clients.len() == 0 || (c == self.session.client_cols && r
            == self.session.client_rows) {
            self
        } else {
            let s = (SessionView { client_cols: c, client_rows: r, ..self.session }).laid_out(bars);
            EngineView {
                session: s,
                clients: all_owed(self.clients, pane_ids(s)),
                settling: Some(now),
                repaint: true,
                dirty_shape: true,
                ..self
            }
        }
    }

    /// What a window that attaches does.
    pub open spec fn attaching(
        self,
        bars: Bars,
        id: u64,
        cols: u16,
        rows: u16,
        headline: Option<Seq<char>>,
        now: u64,
    ) -> EngineView {
        let me = ClientView { id, cols, rows, needs_full: pane_ids(self.session) };
        let there = EngineView {
            clients: pick(self.clients, other_client(id), |c: ClientView| c).push(me),
            ..self
        };
        let sized = EngineView { dirty_shape: true, ..there.resynced(bars, now) };
        match headline {
            Some(h) => sized.noticing(Level::Info, h + " — see `horde digest`"@),
            None => sized,
        }
    }

    /// What a window that leaves does.
    pub open spec fn detaching(self, bars: Bars, id: u64, now: u64) -> EngineView {
        (EngineView {
            clients: pick(self.clients, other_client(id), |c: ClientView| c),
            ..self
        }).resynced(bars, now)
    }

    /// What a window of another size does.
    pub open spec fn resizing(self, bars: Bars, id: u64, cols: u16, rows: u16, now: u64) -> EngineView {
        let i = first_where(self.clients, client_is(id));
        let there = if i < self.clients.len() {
            EngineView {
                clients: self.clients.update(i, ClientView { cols, rows, ..self.clients[i] }),
                ..self
            }
        } else {
            self
        };
        there.resynced(bars, now)
    }

    /// The time from which what happened has not been read.
    pub open spec fn unread_since(self) -> u64 {
        if self.last_seen == 0 {
            self.started
        } else {
            self.last_seen
        }
    }

    /// What a command does, whoever gave it: agents are looked at soon, as any command can have
    /// made a pane, and clients get a fresh snapshot.
    pub open spec fn doing(self, bars: Bars, shell: Seq<char>, cmd: Cmd, facts: Facts) -> (
        EngineView,
        AppliedView,
    ) {
        let (s, a) = commanded(self.session, bars, shell, cmd, facts);
        let there = EngineView {
            session: s,
            detect_soon: true,
            dirty_shape: true,
            repaint: self.repaint || a.repaint,
            ..self
        };
        (
            match a.problem {
                Some((level, text)) => there.noticing(level, text),
                None => there,
            },
            a,
        )
    }
}

// -- frames ------------------------------------------------------------------

/// What a window sends.
#[derive(Debug, Clone, PartialEq, Eq)]
pub enum ClientFrame {
    Ping,
    Detach,
    Resize { cols: u16, rows: u16 },
    Input { pane: u64, bytes: Vec<u8> },
    Focus { pane: u64 },
    Command(Cmd),
}

/// What is left to be done about a frame.
#[derive(Debug, Clone, PartialEq, Eq)]
pub struct FrameOutcome {
    /// Keys for a pane that is there.
    pub input: Option<(u64, Vec<u8>)>,
    /// A pane that has now been looked at.
    pub seen: Option<u64>,
    pub act: Option<PaneAct>,
    /// The window asked what happened since then: it alone is told.
    pub digest_since: Option<u64>,
}

/// The same, as values.
pub struct FrameOutcomeView {
    pub input: Option<(u64, Seq<u8>)>,
    pub seen: Option<u64>,
    pub act: Option<PaneAct>,
    pub digest_since: Option<u64>,
}

impl View for FrameOutcome {
    type V = FrameOutcomeView;

    open spec fn view(&self) -> FrameOutcomeView {
        FrameOutcomeView {
            input: match self.input {
                Some((p, b)) => Some((p, b@)),
                None => None,
            },
            seen: self.seen,
            act: self.act,
            digest_since: self.digest_since,
        }
    }
}

/// Nothing is left to be done.
pub open spec fn all_done() -> FrameOutcomeView {
    FrameOutcomeView { input: None, seen: None, act: None, digest_since: None }
}

/// What a frame does.
pub open spec fn handled(
    e: EngineView,
    bars: Bars,
    shell: Seq<char>,
    id: u64,
    frame: ClientFrame,
    facts: Facts,
    now: u64,
) -> (EngineView, FrameOutcomeView) {
    match frame {
        ClientFrame::Ping => (e, all_done()),
        ClientFrame::Detach => (e.detaching(bars, id, now), all_done()),
        ClientFrame::Resize { cols, rows } => (e.resizing(bars, id, cols, rows, now), all_done()),
        ClientFrame::Input { pane, bytes } => (
            e,
            FrameOutcomeView {
                input: if e.session.has_pane(pane) {
                    Some((pane, bytes@))
                } else {
                    None
                },
                seen: Some(pane),
                ..all_done()
            },
        ),
        ClientFrame::Focus { pane } => {
            let (s, found) = pane_focused(e.session, pane);
            if found {
                (
                    EngineView { session: s, dirty_shape: true, ..e },
                    FrameOutcomeView { seen: Some(pane), ..all_done() },
                )
            } else {
                (EngineView { session: s, ..e }, all_done())
            }
        },
        ClientFrame::Command(Cmd::RequestDigest) => (
            EngineView { last_seen: now, dirty_shape: true, ..e },
            FrameOutcomeView { digest_since: Some(e.unread_since()), ..all_done() },
        ),
        ClientFrame::Command(cmd) => {
            let (after, a) = e.doing(bars, shell, cmd, facts);
            (after, FrameOutcomeView { seen: a.seen, act: a.act, ..all_done() })
        },
    }
}

// -- the clock ---------------------------------------------------------------

/// What an agent looks like from a distance.
#[derive(Debug, Clone, PartialEq, Eq)]
pub struct Sighting {
    pub pane: u64,
    pub name: String,
    pub state: AgentState,
}

/// The same, as values.
pub struct SightingView {
    pub pane: u64,
    pub name: Seq<char>,
    pub state: AgentState,
}

impl View for Sighting {
    type V = SightingView;

    open spec fn view(&self) -> SightingView {
        SightingView { pane: self.pane, name: self.name@, state: self.state }
    }
}

/// Sightings, as values.
pub open spec fn sighting_views(v: Seq<Sighting>) -> Seq<SightingView> {
    Seq::new(v.len(), |i: int| v[i]@)
}

/// A pane with an agent in it.
pub open spec fn has_agent() -> spec_fn(PaneView) -> bool {
    |p: PaneView| p.life.agent is Some
}

/// What an agent looks like from a distance.
pub open spec fn sighted() -> spec_fn(PaneView) -> SightingView {
    |p: PaneView|
        SightingView {
            pane: p.id,
            name: p.life.agent->Some_0.name,
            state: p.life.agent->Some_0.state,
        }
}

/// Every agent of a session, in the order of the panes.
pub open spec fn fingerprint(s: SessionView) -> Seq<SightingView> {
    pick(s.panes, has_agent(), sighted())
}

/// What is said of a task that came back.
pub open spec fn task_back(id: u64) -> EventView {
    EventView::Notice {
        level: Level::Info,
        text: "task #"@ + decimal(id as nat) + " is open again — its agent left"@,
    }
}

impl EngineView {
    /// What a detection pass leaves behind: agents' states and timers travel in the snapshot,
    /// and one that disappeared leaves no event.
    pub open spec fn detected(self, before: Seq<SightingView>, told: bool) -> EngineView {
        let after = fingerprint(self.session);
        EngineView {
            detect_soon: false,
            dirty_shape: self.dirty_shape || told || after.len() > 0 || before != after,
            ..self
        }
    }

    /// What taking away the panes whose programs ended does.
    pub open spec fn reaped(self, bars: Bars) -> EngineView {
        let gone = dead(self.session.panes);
        EngineView {
            session: panes_closed(self.session, bars, gone, gone.len() as int),
            events: self.events + Seq::new(
                gone.len(),
                |i: int| EventView::PaneExited { pane: gone[i], status: 0 },
            ),
            dirty_shape: self.dirty_shape || gone.len() > 0,
            ..self
        }
    }

    /// What handing back the tasks of agents that left does.
    pub open spec fn reclaimed(self, live: Seq<Seq<char>>) -> EngineView {
        let back = pick(self.board.tasks, orphaned(live), give_back());
        EngineView {
            board: self.board.put_all(orphaned(live), give_back()),
            events: self.events + Seq::new(back.len(), |i: int| task_back(back[i].id)),
            dirty_shape: self.dirty_shape || back.len() > 0,
            ..self
        }
    }

    /// Whether sizes have stopped arriving.
    pub open spec fn is_settled(self, now: u64) -> bool {
        self.settling matches Some(at) && now - at >= RESIZE_SETTLE
    }

    /// What the end of a flurry of sizes does: every program gets one clean chance to repaint.
    pub open spec fn settled(self, now: u64) -> EngineView {
        if self.is_settled(now) {
            EngineView {
                session: all_redrawn(
                    self.session,
                    pane_ids(self.session),
                    self.session.panes.len() as int,
                ),
                settling: None,
                dirty_shape: true,
                ..self
            }
        } else {
            self
        }
    }

    /// What the close of the last pane does: there is always a space.
    pub open spec fn revived(self, bars: Bars, shell: Seq<char>, reaped: bool, here: Seq<char>) -> EngineView {
        if reaped && self.session.spaces.len() == 0 {
            EngineView {
                session: with_space(self.session, bars, shell, None, here),
                dirty_shape: true,
                ..self
            }
        } else {
            self
        }
    }
}

impl Engine {
    /// Queue something to be told on the next tick.
    pub fn emit(&mut self, ev: Event)
        ensures
            final(self)@ == old(self)@.telling(ev@),
            final(self)@.session == old(self)@.session,
    {
        let ghost had = event_views(self.events@);
        self.events.push(ev);
        proof {
            assert(event_views(self.events@) =~= had.push(ev@));
        }
    }

    /// Queue a notice.
    pub fn notice(&mut self, level: Level, text: &str)
        ensures
            final(self)@ == old(self)@.noticing(level, text@),
    {
        self.emit(Event::Notice { level, text: owned(text) });
    }

    /// Mark the shape as changed, so that clients get a new snapshot.
    pub fn touch(&mut self)
        ensures
            final(self)@ == (EngineView { dirty_shape: true, ..old(self)@ }),
    {
        self.dirty_shape = true;
    }

    /// Ask for a detection pass on the next tick.
    pub fn detect_now(&mut self)
        ensures
            final(self)@ == (EngineView { detect_soon: true, ..old(self)@ }),
    {
        self.detect_soon = true;
    }

    /// The panes of the session, in order.
    fn every_pane(&self) -> (r: Vec<u64>)
        ensures
            r@ == pane_ids(self@.session),
    {
        let mut all: Vec<u64> = Vec::new();
        let mut i: usize = 0;
        while i < self.session.panes.len()
            invariant
                i <= self.session.panes@.len(),
                all@.len() == i,
                forall|j: int| 0 <= j < i ==> #[trigger] all@[j] == self@.session.panes[j].id,
            decreases self.session.panes@.len() - i,
        {
            all.push(self.session.panes[i].id);
            i = i + 1;
        }
        proof {
            assert(all@ =~= pane_ids(self@.session));
        }
        all
    }

    /// Re-derive the size from the windows still attached, and make them all repaint.
    pub fn resync_client_size(&mut self, bars: Bars, now: u64)
        ensures
            final(self)@ == old(self)@.resynced(bars, now),
            old(self)@.wf() ==> final(self)@.wf(),
    {
        let n: usize = self.clients.len();
        if n == 0 {
            return;
        }
        let ghost cs = self@.clients;
        let mut cols: u16 = self.clients[0].cols;
        let mut rows: u16 = self.clients[0].rows;
        let mut i: usize = 1;
        while i < n
            invariant
                1 <= i <= n,
                n == self.clients@.len(),
                cs == client_views(self.clients@),
                (cols, rows) == common_size(cs, i as int),
            decreases n - i,
        {
            let c: u16 = self.clients[i].cols;
            let r: u16 = self.clients[i].rows;
            proof {
                assert(cs[i as int].cols == c && cs[i as int].rows == r);
            }
            if c < cols {
                cols = c;
            }
            if r < rows {
                rows = r;
            }
            i = i + 1;
        }
        let c: u16 = if cols < 20 {
            20
        } else {
            cols
        };
        let r: u16 = if rows < 6 {
            6
        } else {
            rows
        };
        if c == self.session.client_cols && r == self.session.client_rows {
            return;
        }
        self.session.set_client_size(bars, cols, rows);
        self.settling = Some(now);
        self.repaint = true;
        self.dirty_shape = true;
        let panes = self.every_pane();
        let ghost owed = all_owed(cs, panes@);
        let ghost rest = self@;
        let mut k: usize = 0;
        while k < n
            invariant
                k <= n,
                n == self.clients@.len(),
                owed == all_owed(cs, panes@),
                cs.len() == n,
                self@ == (EngineView { clients: self@.clients, ..rest }),
                forall|j: int| 0 <= j < k ==> (#[trigger] self.clients@[j])@ == owed[j],
                forall|j: int| k <= j < n ==> (#[trigger] self.clients@[j])@ == cs[j],
            decreases n - k,
        {
            let copy = panes.clone();
            proof {
                assert(copy@ =~= panes@);
            }
            self.clients[k].needs_full = copy;
            k = k + 1;
        }
        proof {
            assert(self@.clients =~= owed);
        }
    }

    /// The clients but one.
    fn drop_client(&mut self, id: u64)
        ensures
            final(self)@ == (EngineView {
                clients: pick(old(self)@.clients, other_client(id), |c: ClientView| c),
                ..old(self)@
            }),
    {
        let ghost cs = self@.clients;
        let ghost f = |c: ClientView| c;
        let mut left: Vec<Client> = Vec::new();
        let mut i: usize = 0;
        proof {
            assert(client_views(left@) =~= pick(cs.take(0), other_client(id), f));
        }
        while i < self.clients.len()
            invariant
                i <= self.clients@.len(),
                cs == client_views(self.clients@),
                f == (|c: ClientView| c),
                client_views(left@) == pick(cs.take(i as int), other_client(id), f),
            decreases self.clients@.len() - i,
        {
            proof {
                lemma_pick_take(cs, other_client(id), f, i as int);
                assert(cs[i as int] == self.clients@[i as int]@);
            }
            let c = &self.clients[i];
            if c.id != id {
                let ghost had = client_views(left@);
                let full = c.needs_full.clone();
                proof {
                    assert(full@ =~= c.needs_full@);
                }
                left.push(Client { id: c.id, cols: c.cols, rows: c.rows, needs_full: full });
                proof {
                    assert(client_views(left@) =~= had.push(cs[i as int]));
                }
            }
            i = i + 1;
        }
        proof {
            assert(cs.take(i as int) =~= cs);
        }
        self.clients = left;
    }

    /// A window attaches. `headline` is what has happened since somebody last looked, in a line,
    /// where there is anything to say.
    pub fn attach(
        &mut self,
        bars: Bars,
        id: u64,
        cols: u16,
        rows: u16,
        headline: Option<&str>,
        now: u64,
    )
        ensures
            final(self)@ == old(self)@.attaching(
                bars,
                id,
                cols,
                rows,
                match headline {
                    Some(h) => Some(h@),
                    None => None,
                },
                now,
            ),
            old(self)@.wf() ==> final(self)@.wf(),
    {
        let panes = self.every_pane();
        self.drop_client(id);
        let ghost had = self@.clients;
        self.clients.push(Client { id, cols, rows, needs_full: panes });
        proof {
            assert(self@.clients =~= had.push(
                ClientView { id, cols, rows, needs_full: panes@ },
            ));
        }
        self.resync_client_size(bars, now);
        self.dirty_shape = true;
        if let Some(h) = headline {
            let mut m = owned(h);
            m.append(" — see `horde digest`");
            self.notice(Level::Info, m.as_str());
        }
    }

    /// A window leaves.
    pub fn detach(&mut self, bars: Bars, id: u64, now: u64)
        ensures
            final(self)@ == old(self)@.detaching(bars, id, now),
            old(self)@.wf() ==> final(self)@.wf(),
    {
        self.drop_client(id);
        self.resync_client_size(bars, now);
    }

    /// A window has another size.
    pub fn resize_client(&mut self, bars: Bars, id: u64, cols: u16, rows: u16, now: u64)
        ensures
            final(self)@ == old(self)@.resizing(bars, id, cols, rows, now),
            old(self)@.wf() ==> final(self)@.wf(),
    {
        let ghost before = self@;
        let mut i: usize = 0;
        while i < self.clients.len() && self.clients[i].id != id
            invariant
                i <= self.clients@.len(),
                self@ == before,
                forall|j: int| 0 <= j < i ==> !client_is(id)(#[trigger] before.clients[j]),
            decreases self.clients@.len() - i,
        {
            proof {
                assert(!client_is(id)(before.clients[i as int]));
            }
            i = i + 1;
        }
        proof {
            if i < before.clients.len() {
                assert(client_is(id)(before.clients[i as int]));
            }
            lemma_first_where_is(before.clients, client_is(id), i as int);
        }
        if i < self.clients.len() {
            self.clients[i].cols = cols;
            self.clients[i].rows = rows;
            proof {
                assert(self@.clients =~= before.clients.update(
                    i as int,
                    ClientView { cols, rows, ..before.clients[i as int] },
                ));
            }
        }
        self.resync_client_size(bars, now);
    }

    /// The time from which what happened has not been read.
    pub fn digest_since(&self) -> (r: u64)
        ensures
            r == self@.unread_since(),
    {
        if self.last_seen == 0 {
            self.started
        } else {
            self.last_seen
        }
    }

    /// Do what a person asked.
    pub fn apply_cmd(&mut self, bars: Bars, shell: &str, cmd: &Cmd, facts: Facts) -> (r: Applied)
        requires
            old(self)@.wf(),
            old(self)@.session.has_ids(),
            old(self)@.session.has_space_ids(),
            facts.preset matches Some(p) ==> old(self)@.session.next_pane + p.want <= u64::MAX,
        ensures
            (final(self)@, r@) == old(self)@.doing(bars, shell@, *cmd, facts),
            final(self)@.wf(),
    {
        let a = self.session.apply(bars, shell, cmd, facts);
        self.detect_soon = true;
        if a.repaint {
            self.repaint = true;
        }
        self.dirty_shape = true;
        if let Some((level, text)) = &a.problem {
            self.notice(*level, text.as_str());
        }
        a
    }

    /// Deal with what a window sent.
    pub fn handle_client_frame(
        &mut self,
        bars: Bars,
        shell: &str,
        id: u64,
        frame: ClientFrame,
        facts: Facts,
        now: u64,
    ) -> (r: FrameOutcome)
        requires
            old(self)@.wf(),
            old(self)@.session.has_ids(),
            old(self)@.session.has_space_ids(),
            facts.preset matches Some(p) ==> old(self)@.session.next_pane + p.want <= u64::MAX,
        ensures
            (final(self)@, r@) == handled(old(self)@, bars, shell@, id, frame, facts, now),
            final(self)@.wf(),
    {
        let mut out = FrameOutcome { input: None, seen: None, act: None, digest_since: None };
        match frame {
            ClientFrame::Ping => {},
            ClientFrame::Detach => {
                self.detach(bars, id, now);
            },
            ClientFrame::Resize { cols, rows } => {
                self.resize_client(bars, id, cols, rows, now);
            },
            ClientFrame::Input { pane, bytes } => {
                if self.session.pane(pane).is_some() {
                    out.input = Some((pane, bytes));
                }
                out.seen = Some(pane);
            },
            ClientFrame::Focus { pane } => {
                if self.session.focus_pane(pane) {
                    out.seen = Some(pane);
                    self.dirty_shape = true;
                }
            },
            ClientFrame::Command(Cmd::RequestDigest) => {
                out.digest_since = Some(self.digest_since());
                self.last_seen = now;
                self.dirty_shape = true;
            },
            ClientFrame::Command(cmd) => {
                let a = self.apply_cmd(bars, shell, &cmd, facts);
                out.seen = a.seen;
                out.act = a.act;
            },
        }
        out
    }

    // -- the clock -----------------------------------------------------------

    /// Every agent from a distance, so that a detection pass can tell whether anything a client
    /// sees has changed.
    pub fn agent_fingerprint(&self) -> (r: Vec<Sighting>)
        ensures
            sighting_views(r@) == fingerprint(self@.session),
    {
        let ghost ps = self@.session.panes;
        let mut out: Vec<Sighting> = Vec::new();
        let mut i: usize = 0;
        proof {
            assert(sighting_views(out@) =~= pick(ps.take(0), has_agent(), sighted()));
        }
        while i < self.session.panes.len()
            invariant
                i <= self.session.panes@.len(),
                ps == self@.session.panes,
                sighting_views(out@) == pick(ps.take(i as int), has_agent(), sighted()),
            decreases self.session.panes@.len() - i,
        {
            proof {
                lemma_pick_take(ps, has_agent(), sighted(), i as int);
            }
            let p = &self.session.panes[i];
            if let Some(a) = &p.life.agent {
                let ghost had = sighting_views(out@);
                out.push(Sighting { pane: p.id, name: a.name.clone(), state: a.state });
                proof {
                    assert(sighting_views(out@) =~= had.push(sighted()(ps[i as int])));
                }
            }
            i = i + 1;
        }
        proof {
            assert(ps.take(i as int) =~= ps);
        }
        out
    }

    /// A detection pass has run: `before` is how agents looked ahead of it, and `told` whether it
    /// has anything to tell.
    pub fn detected(&mut self, before: &Vec<Sighting>, told: bool)
        ensures
            final(self)@ == old(self)@.detected(sighting_views(before@), told),
            old(self)@.wf() ==> final(self)@.wf(),
    {
        self.detect_soon = false;
        let after = self.agent_fingerprint();
        if told || after.len() > 0 || !same_sightings(before, &after) {
            self.dirty_shape = true;
        }
    }

    /// Take away the panes whose programs ended, and tell of them.
    pub fn reap(&mut self, bars: Bars) -> (r: Vec<u64>)
        requires
            old(self)@.wf(),
        ensures
            r@ == dead(old(self)@.session.panes),
            final(self)@ == old(self)@.reaped(bars),
            final(self)@.wf(),
    {
        let ghost before = self@;
        let gone = self.session.reap_exited(bars);
        let ghost all = Seq::new(
            gone@.len(),
            |i: int| EventView::PaneExited { pane: gone@[i], status: 0 },
        );
        let mut i: usize = 0;
        proof {
            assert(self@.events =~= before.events + all.take(0));
        }
        while i < gone.len()
            invariant
                i <= gone@.len(),
                all == Seq::new(
                    gone@.len(),
                    |i: int| EventView::PaneExited { pane: gone@[i], status: 0 },
                ),
                self@ == (EngineView {
                    session: self@.session,
                    events: before.events + all.take(i as int),
                    dirty_shape: before.dirty_shape || i > 0,
                    ..before
                }),
                self@.session == panes_closed(before.session, bars, gone@, gone@.len() as int),
                self@.session.wf(),
            decreases gone@.len() - i,
        {
            self.emit(Event::PaneExited { pane: gone[i], status: 0 });
            self.dirty_shape = true;
            proof {
                assert(before.events + all.take(i as int + 1) =~= (before.events + all.take(
                    i as int,
                )).push(all[i as int]));
            }
            i = i + 1;
        }
        proof {
            assert(all.take(i as int) =~= all);
        }
        gone
    }

    /// Hand back the tasks of agents that left, so that the board does not stall on work nobody
    /// is doing. `live` are the names of those still here.
    pub fn reclaim(&mut self, live: &[String])
        requires
            old(self)@.wf(),
        ensures
            final(self)@ == old(self)@.reclaimed(texts(live@)),
            final(self)@.wf(),
    {
        let ghost before = self@;
        let back = self.board.reclaim_absent(live);
        let ghost all = Seq::new(back@.len(), |i: int| task_back(back@[i].id));
        let mut i: usize = 0;
        proof {
            assert(self@.events =~= before.events + all.take(0));
        }
        while i < back.len()
            invariant
                i <= back@.len(),
                all == Seq::new(back@.len(), |i: int| task_back(back@[i].id)),
                self@ == (EngineView {
                    board: self@.board,
                    events: before.events + all.take(i as int),
                    dirty_shape: before.dirty_shape || i > 0,
                    ..before
                }),
                self@.board == before.board.put_all(orphaned(texts(live@)), give_back()),
                self@.board.wf(),
            decreases back@.len() - i,
        {
            let mut m = owned("task #");
            m.append(number(back[i].id).as_str());
            m.append(" is open again — its agent left");
            self.notice(Level::Info, m.as_str());
            self.dirty_shape = true;
            proof {
                assert(before.events + all.take(i as int + 1) =~= (before.events + all.take(
                    i as int,
                )).push(all[i as int]));
            }
            i = i + 1;
        }
        proof {
            let tasks = pick(before.board.tasks, orphaned(texts(live@)), give_back());
            assert(views(back@) == tasks);
            assert(all.take(i as int) =~= all);
            assert forall|k: int| 0 <= k < all.len() implies #[trigger] all[k] == task_back(
                tasks[k].id,
            ) by {
                assert(tasks[k] == back@[k]@);
            }
            assert(all =~= Seq::new(tasks.len(), |i: int| task_back(tasks[i].id)));
        }
    }

    /// Once sizes have stopped arriving, give every program one clean chance to repaint.
    pub fn settle_resize(&mut self, now: u64)
        ensures
            final(self)@ == old(self)@.settled(now),
            old(self)@.wf() ==> final(self)@.wf(),
    {
        let settled = match self.settling {
            Some(at) => now >= at && now - at >= RESIZE_SETTLE,
            None => false,
        };
        if settled {
            self.settling = None;
            self.session.redraw_all();
            self.dirty_shape = true;
        }
    }

    /// If the last pane closed, make a space, so that there is always one.
    pub fn revive(&mut self, bars: Bars, shell: &str, reaped: bool, here: &str)
        requires
            old(self)@.wf(),
            old(self)@.session.has_ids(),
            old(self)@.session.has_space_ids(),
        ensures
            final(self)@ == old(self)@.revived(bars, shell@, reaped, here@),
            final(self)@.wf(),
    {
        if reaped && self.session.spaces.len() == 0 {
            let _ = self.session.create_space(bars, shell, None, here);
            self.dirty_shape = true;
        }
    }

    /// What clients are told of the whole: the session, and everything that only the daemon
    /// knows. There is this one place where it is put together, so that whoever asks gets the
    /// same answer.
    pub fn snapshot(
        &self,
        bars: Bars,
        tiles: &Vec<(u64, Rect)>,
        unattended: bool,
        around: &Around,
        now: u64,
    ) -> (r: Snapshot)
        ensures
            r@ == told_whole(self@, bars, tiles@, unattended, *around, now),
    {
        let open: usize = self.board.open_count();
        let claimed: usize = self.board.claimed_count();
        let fires: usize = if unattended {
            self.triggers.armed_count()
        } else {
            0
        };
        let mut snap = self.session.snapshot(bars, tiles, now, open, claimed, fires);
        let ghost base = snap@;
        snap.cards_due = count_due(&around.cards, now);
        snap.recents = self.recents.recent_projects(&self.session);
        let n: usize = snap.spaces.len();
        let ghost shape = snap@;
        let mut i: usize = 0;
        while i < n
            invariant
                i <= n,
                n == snap.spaces@.len(),
                n == shape.spaces.len(),
                snap@ == (SnapshotView { spaces: snap@.spaces, ..shape }),
                forall|j: int|
                    0 <= j < i ==> #[trigger] snap@.spaces[j] == space_filled(
                        self@.session,
                        shape.spaces[j],
                        *around,
                    ),
                forall|j: int| i <= j < n ==> #[trigger] snap@.spaces[j] == shape.spaces[j],
            decreases n - i,
        {
            let ghost before = snap@;
            proof {
                assert(snap@.spaces[i as int] == snap.spaces@[i as int]@);
                assert(before.spaces[i as int] == shape.spaces[i as int]);
            }
            let id: u64 = snap.spaces[i].id;
            let notes = notes_for(around, id);
            let lsp = lsp_info(&self.session, id, &around.serving);
            snap.spaces[i].notes = notes;
            snap.spaces[i].lsp = lsp;
            proof {
                let want = space_filled(self@.session, shape.spaces[i as int], *around);
                assert(snap.spaces@[i as int]@ == want);
                assert(snap@.spaces =~= before.spaces.update(i as int, want));
            }
            i = i + 1;
        }
        proof {
            assert(snap@.spaces =~= told_whole(
                self@,
                bars,
                tiles@,
                unattended,
                *around,
                now,
            ).spaces);
        }
        snap
    }

    /// Move the project in front to the head of those opened before.
    pub fn note_focused_project(&mut self, now: u64)
        ensures
            final(self)@ == (EngineView {
                recents: noted(old(self)@.recents, old(self)@.session, now),
                ..old(self)@
            }),
            old(self)@.wf() ==> final(self)@.wf(),
    {
        self.recents.note_focused_project(&self.session, now);
    }
}

// -- what only the daemon knows ------------------------------------------------

/// What a snapshot has that is not the session's: when each card that is waiting is due, which
/// vault each space reads, how many notes there are in each, and the language servers.
pub struct Around {
    pub cards: Vec<u64>,
    pub roots: Vec<(u64, String)>,
    pub vaults: Vec<(String, usize)>,
    pub serving: Vec<Serving>,
}

/// The vault that a space reads.
pub open spec fn reads(space: u64) -> spec_fn((u64, String)) -> bool {
    |r: (u64, String)| r.0 == space
}

/// The vault at this place.
pub open spec fn vault_at(root: Seq<char>) -> spec_fn((String, usize)) -> bool {
    |v: (String, usize)| same_place(v.0@, root)
}

/// How many notes a space's vault has: none that can be told where it reads no vault, or one that
/// has not been indexed.
pub open spec fn notes_of(around: Around, space: u64) -> Option<usize> {
    let i = first_where(around.roots@, reads(space));
    if i < around.roots@.len() {
        let k = first_where(around.vaults@, vault_at(around.roots@[i].1@));
        if k < around.vaults@.len() {
            Some(around.vaults@[k].1)
        } else {
            None
        }
    } else {
        None
    }
}

/// What is told of a space, with its notes and its servers.
pub open spec fn space_filled(s: SessionView, sp: SpaceInfoView, around: Around) -> SpaceInfoView {
    SpaceInfoView {
        notes: notes_of(around, sp.id),
        lsp: serving_in(s, sp.id, serving_views(around.serving@)),
        ..sp
    }
}

/// What clients are told of the whole.
pub open spec fn told_whole(
    e: EngineView,
    bars: Bars,
    tiles: Seq<(u64, Rect)>,
    unattended: bool,
    around: Around,
    now: u64,
) -> SnapshotView {
    let shape = told(
        e.session,
        rects_of(e.session, bars, tiles),
        now,
        count_where(e.board.tasks, |t: TaskView| t.is_open()),
        count_where(e.board.tasks, |t: TaskView| t.is_claimed()),
        if unattended {
            count_where(e.triggers.triggers, armed())
        } else {
            0
        },
    );
    SnapshotView {
        spaces: Seq::new(
            shape.spaces.len(),
            |i: int| space_filled(e.session, shape.spaces[i], around),
        ),
        cards_due: count_where(around.cards@, is_due(now)),
        recents: projects_of(e.recents, e.session),
        ..shape
    }
}

/// How many notes a space's vault has.
fn notes_for(around: &Around, space: u64) -> (r: Option<usize>)
    ensures
        r == notes_of(*around, space),
{
    let mut i: usize = 0;
    while i < around.roots.len() && around.roots[i].0 != space
        invariant
            i <= around.roots@.len(),
            forall|j: int| 0 <= j < i ==> !reads(space)(#[trigger] around.roots@[j]),
        decreases around.roots@.len() - i,
    {
        i = i + 1;
    }
    proof {
        lemma_first_where_is(around.roots@, reads(space), i as int);
    }
    if i == around.roots.len() {
        return None;
    }
    let root = around.roots[i].1.as_str();
    let mut k: usize = 0;
    while k < around.vaults.len() && !same_path(around.vaults[k].0.as_str(), root)
        invariant
            k <= around.vaults@.len(),
            forall|j: int| 0 <= j < k ==> !vault_at(root@)(#[trigger] around.vaults@[j]),
        decreases around.vaults@.len() - k,
    {
        k = k + 1;
    }
    proof {
        lemma_first_where_is(around.vaults@, vault_at(root@), k as int);
    }
    if k == around.vaults.len() {
        None
    } else {
        Some(around.vaults[k].1)
    }
}

// -- starting up -------------------------------------------------------------

/// Warnings to be given.
pub open spec fn warned(e: EngineView, ws: Seq<Seq<char>>, n: int) -> EngineView
    decreases n,
{
    if n <= 0 {
        e
    } else {
        warned(e, ws, n - 1).noticing(Level::Warn, ws[n - 1])
    }
}

/// What opening for business does: there is a space, and what went wrong on the way is said, as
/// are messages that outlived a restart.
pub open spec fn opened(
    e: EngineView,
    bars: Bars,
    shell: Seq<char>,
    here: Seq<char>,
    warnings: Seq<Seq<char>>,
    orphans: nat,
) -> EngineView {
    let there = if e.session.spaces.len() == 0 {
        EngineView { session: with_space(e.session, bars, shell, None, here), ..e }
    } else {
        e
    };
    let said = warned(there, warnings, warnings.len() as int);
    match orphans_text(orphans) {
        Some(t) => said.noticing(Level::Info, t),
        None => said,
    }
}

impl Engine {
    /// An engine that nobody watches yet. Everything is to be told and looked at.
    pub fn new(session: Session, board: Board, triggers: Store, recents: Recents, started: u64) -> (r:
        Engine)
        ensures
            r@ == (EngineView {
                session: session@,
                board: board@,
                triggers: triggers@,
                recents: recents@,
                clients: Seq::empty(),
                started,
                last_seen: 0,
                dirty_shape: true,
                detect_soon: true,
                settling: None,
                repaint: false,
                events: Seq::empty(),
            }),
    {
        let e = Engine {
            session,
            board,
            triggers,
            recents,
            clients: Vec::new(),
            started,
            last_seen: 0,
            dirty_shape: true,
            detect_soon: true,
            settling: None,
            repaint: false,
            events: Vec::new(),
        };
        proof {
            assert(e@.clients =~= Seq::<ClientView>::empty());
            assert(e@.events =~= Seq::<EventView>::empty());
        }
        e
    }

    /// Open for business.
    pub fn open(
        &mut self,
        bars: Bars,
        shell: &str,
        here: &str,
        warnings: &Vec<String>,
        orphans: usize,
    )
        requires
            old(self)@.wf(),
            old(self)@.session.has_ids(),
            old(self)@.session.has_space_ids(),
        ensures
            final(self)@ == opened(
                old(self)@,
                bars,
                shell@,
                here@,
                texts(warnings@),
                orphans as nat,
            ),
            final(self)@.wf(),
    {
        if self.session.spaces.len() == 0 {
            let _ = self.session.create_space(bars, shell, None, here);
        }
        let ghost there = self@;
        let ghost ws = texts(warnings@);
        let mut i: usize = 0;
        while i < warnings.len()
            invariant
                i <= warnings@.len(),
                ws == texts(warnings@),
                there.wf(),
                self@ == warned(there, ws, i as int),
                self@.wf(),
            decreases warnings@.len() - i,
        {
            self.notice(Level::Warn, warnings[i].as_str());
            i = i + 1;
        }
        if let Some(m) = orphans_notice(orphans) {
            self.notice(Level::Info, m.as_str());
        }
    }
}

// -- the order of a tick -----------------------------------------------------

/// What one tick does.
#[derive(Debug, Clone, Copy, PartialEq, Eq, Structural)]
pub enum Step {
    /// Take in what programs printed.
    Pump,
    /// Note the project in front.
    NoteProject,
    /// Take in what language servers said.
    DrainServers,
    RefreshRepos,
    RefreshVaults,
    /// Stop the language servers nobody needs, and give those that died another try.
    SweepServers,
    AdvanceModels,
    NudgeHandover,
    Succeed,
    /// Look at what agents are doing, deliver what waited for them, and offer them work.
    Detect,
    Reap,
    Reclaim,
    SettleResize,
    /// Answer the prompts that a rule answers.
    Approve,
    FireTriggers,
    Notify,
    Revive,
    Broadcast,
}

/// What comes after a step. `due` says that it is time to look at agents, and `soon` that
/// something has asked for that. What forks or reads screens runs only when it is due; a prompt
/// is answered only off a screen that has just been looked at; a firing comes before the notice
/// that can speak of it; and what goes out goes out last.
pub open spec fn step_after(s: Step, due: bool, soon: bool) -> Option<Step> {
    match s {
        Step::Pump => Some(Step::NoteProject),
        Step::NoteProject => Some(Step::DrainServers),
        Step::DrainServers => if due {
            Some(Step::RefreshRepos)
        } else if soon {
            Some(Step::Detect)
        } else {
            Some(Step::Reap)
        },
        Step::RefreshRepos => Some(Step::RefreshVaults),
        Step::RefreshVaults => Some(Step::SweepServers),
        Step::SweepServers => Some(Step::AdvanceModels),
        Step::AdvanceModels => Some(Step::NudgeHandover),
        Step::NudgeHandover => Some(Step::Succeed),
        Step::Succeed => Some(Step::Detect),
        Step::Detect => Some(Step::Reap),
        Step::Reap => Some(Step::Reclaim),
        Step::Reclaim => Some(Step::SettleResize),
        Step::SettleResize => if due {
            Some(Step::Approve)
        } else {
            Some(Step::FireTriggers)
        },
        Step::Approve => Some(Step::FireTriggers),
        Step::FireTriggers => Some(Step::Notify),
        Step::Notify => Some(Step::Revive),
        Step::Revive => Some(Step::Broadcast),
        Step::Broadcast => None,
    }
}

impl Engine {
    /// What comes after a step of a tick, which starts with [`Step::Pump`].
    pub fn next_step(&self, s: Step, due: bool) -> (r: Option<Step>)
        ensures
            r == step_after(s, due, self@.detect_soon),
    {
        match s {
            Step::Pump => Some(Step::NoteProject),
            Step::NoteProject => Some(Step::DrainServers),
            Step::DrainServers => if due {
                Some(Step::RefreshRepos)
            } else if self.detect_soon {
                Some(Step::Detect)
            } else {
                Some(Step::Reap)
            },
            Step::RefreshRepos => Some(Step::RefreshVaults),
            Step::RefreshVaults => Some(Step::SweepServers),
            Step::SweepServers => Some(Step::AdvanceModels),
            Step::AdvanceModels => Some(Step::NudgeHandover),
            Step::NudgeHandover => Some(Step::Succeed),
            Step::Succeed => Some(Step::Detect),
            Step::Detect => Some(Step::Reap),
            Step::Reap => Some(Step::Reclaim),
            Step::Reclaim => Some(Step::SettleResize),
            Step::SettleResize => if due {
                Some(Step::Approve)
            } else {
                Some(Step::FireTriggers)
            },
            Step::Approve => Some(Step::FireTriggers),
            Step::FireTriggers => Some(Step::Notify),
            Step::Notify => Some(Step::Revive),
            Step::Revive => Some(Step::Broadcast),
            Step::Broadcast => None,
        }
    }
}

/// Whether agents look the same.
fn same_sightings(a: &Vec<Sighting>, b: &Vec<Sighting>) -> (r: bool)
    ensures
        r == (sighting_views(a@) == sighting_views(b@)),
{
    if a.len() != b.len() {
        proof {
            assert(sighting_views(a@).len() != sighting_views(b@).len());
        }
        return false;
    }
    let mut i: usize = 0;
    while i < a.len()
        invariant
            i <= a@.len(),
            a@.len() == b@.len(),
            forall|j: int| 0 <= j < i ==> #[trigger] sighting_views(a@)[j] == sighting_views(b@)[j],
        decreases a@.len() - i,
    {
        if a[i].pane != b[i].pane || a[i].state != b[i].state || !same(
            a[i].name.as_str(),
            b[i].name.as_str(),
        ) {
            proof {
                assert(sighting_views(a@)[i as int] != sighting_views(b@)[i as int]);
            }
            return false;
        }
        i = i + 1;
    }
    proof {
        assert(sighting_views(a@) =~= sighting_views(b@));
    }
    true
}

// -- laws --------------------------------------------------------------------

/// The session is never larger than any window that shows it.
pub proof fn law_the_smallest_window_counts(cs: Seq<ClientView>, n: int, i: int)
    requires
        0 <= i < n <= cs.len(),
    ensures
        common_size(cs, n).0 <= cs[i].cols,
        common_size(cs, n).1 <= cs[i].rows,
    decreases n,
{
    if n > 1 && i < n - 1 {
        law_the_smallest_window_counts(cs, n - 1, i);
    }
}

/// When the smaller of two windows leaves, the larger has its size back.
pub proof fn law_the_larger_window_grows_back(e: EngineView, bars: Bars, id: u64, c: ClientView, now: u64)
    requires
        pick(e.clients, other_client(id), |c: ClientView| c) == seq![c],
    ensures
        e.detaching(bars, id, now).session.client_cols == at_least(c.cols, 20),
        e.detaching(bars, id, now).session.client_rows == at_least(c.rows, 6),
{
    let left = pick(e.clients, other_client(id), |c: ClientView| c);
    assert(common_size(left, 1) == (c.cols, c.rows));
}

/// With nobody watching, the size stays for whoever comes back.
pub proof fn law_the_size_outlives_the_last_window(e: EngineView, bars: Bars, id: u64, now: u64)
    requires
        pick(e.clients, other_client(id), |c: ClientView| c).len() == 0,
    ensures
        e.detaching(bars, id, now).session == e.session,
{
}

/// Reading what happened closes the window: asked again, it starts where the last reading was.
pub proof fn law_reading_advances_the_window(
    e: EngineView,
    bars: Bars,
    shell: Seq<char>,
    id: u64,
    facts: Facts,
    now: u64,
)
    requires
        now > 0,
    ensures
        handled(
            e,
            bars,
            shell,
            id,
            ClientFrame::Command(Cmd::RequestDigest),
            facts,
            now,
        ).0.unread_since() == now,
{
}

/// There is a space after the last one closed.
pub proof fn law_there_is_always_a_space(
    e: EngineView,
    bars: Bars,
    shell: Seq<char>,
    here: Seq<char>,
)
    requires
        e.session.wf(),
    ensures
        e.revived(bars, shell, true, here).session.spaces.len() > 0,
{
}

/// How far a step is from the end of a tick.
pub open spec fn steps_left(s: Step) -> nat {
    match s {
        Step::Pump => 17,
        Step::NoteProject => 16,
        Step::DrainServers => 15,
        Step::RefreshRepos => 14,
        Step::RefreshVaults => 13,
        Step::SweepServers => 12,
        Step::AdvanceModels => 11,
        Step::NudgeHandover => 10,
        Step::Succeed => 9,
        Step::Detect => 8,
        Step::Reap => 7,
        Step::Reclaim => 6,
        Step::SettleResize => 5,
        Step::Approve => 4,
        Step::FireTriggers => 3,
        Step::Notify => 2,
        Step::Revive => 1,
        Step::Broadcast => 0,
    }
}

/// A tick ends, and what goes out goes out last: every step but that is followed by one that is
/// nearer to the end.
pub proof fn law_a_tick_ends_by_sending_out(s: Step, due: bool, soon: bool)
    ensures
        match step_after(s, due, soon) {
            Some(t) => steps_left(t) < steps_left(s),
            None => s == Step::Broadcast,
        },
{
}

} // verus!
