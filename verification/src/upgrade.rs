//! The handoff transaction: pause, transfer, commit, exit.
//!
//! ```text
//!   1. pause every reader, and wait for each to acknowledge
//!   2. snapshot state, duplicate the terminals
//!   3. spawn the successor, connected by a socketpair
//!   4. send manifest and descriptors
//!   5. successor rebuilds the panes and binds the staging socket   -> "R"
//!   6. we unlink the socket                                        -> "G"
//!   7. successor renames the staging socket into place             -> "B"
//!   8. we exit without signalling any pane
//! ```
//!
//! This module owns the *ordering*, which is where the safety lives. Anything that fails before
//! the end rolls back: readers resume, the successor is killed, and the session carries on.

use crate::handoff::{by_number, position_in, to_hnode, HNode, HPane, HSpace, HTab, Manifest};
use crate::paths::{file_name, last_dot, last_slash, stem_in, stem_of, tail_trimmed};
use crate::persist::place_in;
use crate::state::{Session, SessionView, SpaceView};
use crate::text::{decimal, number, owned};
use vstd::prelude::*;
use vstd::string::*;

verus! {

/// How long to wait, in millis, for a reader to confirm it has stopped.
pub const PAUSE_TIMEOUT: u64 = 2_000;

/// How long to wait, in millis, for the successor at each step.
pub const STEP_TIMEOUT: u64 = 10_000;

/// Where the successor listens before it takes over the real socket: the same directory and
/// stem, under an extension of its own.
pub open spec fn staged(socket: Seq<char>) -> Seq<char> {
    match file_name(socket) {
        Some(n) => {
            let t = tail_trimmed(socket);
            t.take(last_slash(t) + 1) + stem_of(n) + ".sock.handoff"@
        },
        None => socket,
    }
}

/// Path the successor binds before taking over the real one.
pub fn staging_socket(socket: &str) -> (r: String)
    ensures
        r@ == staged(socket@),
{
    match (crate::paths::dir_part(socket), stem_in(socket)) {
        (dir, Some(stem)) => {
            let mut s = dir;
            s.append(stem.as_str());
            s.append(".sock.handoff");
            s
        },
        (_, None) => owned(socket),
    }
}

/// How far a handoff has got.
#[derive(Debug, Clone, Copy, PartialEq, Eq, Structural)]
pub enum Phase {
    /// This many readers have stopped.
    Pausing(usize),
    Building,
    Spawning,
    Sending,
    /// Waiting for the successor to say it is ready.
    AwaitingReady,
    /// Giving up the socket.
    Committing,
    /// Waiting for the successor to say that the socket is its own.
    AwaitingBound,
    Done,
    RolledBack,
}

/// What happened.
#[derive(Debug, Clone, Copy, PartialEq, Eq, Structural)]
pub enum Happened {
    /// What was asked for was done.
    Did,
    /// It was not.
    Failed,
    /// The successor said this.
    Said(u8),
}

/// What to do next.
#[derive(Debug, Clone, Copy, PartialEq, Eq, Structural)]
pub enum Next {
    /// Stop the reader of this pane, and wait for it.
    Pause(u64),
    /// Snapshot the state and duplicate the terminals.
    Build,
    /// Start the successor.
    Spawn,
    /// Send it the manifest and the descriptors.
    Send,
    /// Read one byte from it.
    Listen,
    /// Unlink the socket and tell the successor to go.
    Commit,
    /// Leave, without signalling any pane.
    Exit,
    /// Resume the first readers, this many; and kill the successor and remove its socket,
    /// where there is one.
    RollBack { resume: usize, kill: bool },
}

/// A handoff in progress.
pub struct Handoff {
    /// The panes, in the order of the manifest.
    pub order: Vec<u64>,
    pub phase: Phase,
}

/// What the successor says when it is ready, and when the socket is its own.
pub const READY: u8 = 82;

pub const BOUND: u8 = 66;

/// What the predecessor says when the socket is free.
pub const GO: u8 = 71;

/// Whether a successor has been started.
pub open spec fn has_successor(p: Phase) -> bool {
    p == Phase::Sending || p == Phase::AwaitingReady || p == Phase::Committing || p
        == Phase::AwaitingBound
}

/// How many readers have been stopped.
pub open spec fn stopped(p: Phase, panes: nat) -> nat {
    match p {
        Phase::Pausing(n) => n as nat,
        Phase::Done | Phase::RolledBack => 0,
        _ => panes,
    }
}

/// The step from a phase on an event: the next phase, and what to do.
pub open spec fn advanced(order: Seq<u64>, p: Phase, e: Happened) -> (Phase, Next) {
    let back = (
        Phase::RolledBack,
        Next::RollBack { resume: stopped(p, order.len()) as usize, kill: has_successor(p) },
    );
    match (p, e) {
        (Phase::Pausing(n), Happened::Did) => if n + 1 < order.len() {
            (Phase::Pausing((n + 1) as usize), Next::Pause(order[n + 1]))
        } else {
            (Phase::Building, Next::Build)
        },
        (Phase::Building, Happened::Did) => (Phase::Spawning, Next::Spawn),
        (Phase::Spawning, Happened::Did) => (Phase::Sending, Next::Send),
        (Phase::Sending, Happened::Did) => (Phase::AwaitingReady, Next::Listen),
        (Phase::AwaitingReady, Happened::Said(b)) => if b == READY {
            (Phase::Committing, Next::Commit)
        } else {
            back
        },
        (Phase::Committing, Happened::Did) => (Phase::AwaitingBound, Next::Listen),
        (Phase::AwaitingBound, Happened::Said(b)) => if b == BOUND {
            (Phase::Done, Next::Exit)
        } else {
            back
        },
        (Phase::Done, _) => (Phase::Done, Next::Exit),
        _ => back,
    }
}

impl Handoff {
    /// A handoff is where it can be.
    pub open spec fn wf(&self) -> bool {
        self.phase matches Phase::Pausing(n) ==> n < self.order@.len()
    }

    /// Begin a handoff of these panes. With no panes there is nothing to pause.
    pub fn begin(order: Vec<u64>) -> (r: (Handoff, Next))
        ensures
            r.0.order == order,
            r.0.wf(),
            order@.len() > 0 ==> r.0.phase == Phase::Pausing(0) && r.1 == Next::Pause(order@[0]),
            order@.len() == 0 ==> r.0.phase == Phase::Building && r.1 == Next::Build,
    {
        if order.len() > 0 {
            let first: u64 = order[0];
            (Handoff { order, phase: Phase::Pausing(0) }, Next::Pause(first))
        } else {
            (Handoff { order, phase: Phase::Building }, Next::Build)
        }
    }

    /// Take what happened, and say what to do next.
    pub fn step(&mut self, e: Happened) -> (r: Next)
        requires
            old(self).wf(),
        ensures
            final(self).wf(),
            final(self).order == old(self).order,
            (final(self).phase, r) == advanced(old(self).order@, old(self).phase, e),
    {
        let total: usize = self.order.len();
        let (held, kill): (usize, bool) = match self.phase {
            Phase::Pausing(n) => (n, false),
            Phase::Building | Phase::Spawning => (total, false),
            Phase::Sending | Phase::AwaitingReady | Phase::Committing | Phase::AwaitingBound => (
                total,
                true,
            ),
            Phase::Done | Phase::RolledBack => (0, false),
        };
        let (phase, next): (Phase, Next) = match (self.phase, e) {
            (Phase::Pausing(n), Happened::Did) => if n < total - 1 {
                (Phase::Pausing(n + 1), Next::Pause(self.order[n + 1]))
            } else {
                (Phase::Building, Next::Build)
            },
            (Phase::Building, Happened::Did) => (Phase::Spawning, Next::Spawn),
            (Phase::Spawning, Happened::Did) => (Phase::Sending, Next::Send),
            (Phase::Sending, Happened::Did) => (Phase::AwaitingReady, Next::Listen),
            (Phase::AwaitingReady, Happened::Said(b)) => if b == READY {
                (Phase::Committing, Next::Commit)
            } else {
                (Phase::RolledBack, Next::RollBack { resume: held, kill })
            },
            (Phase::Committing, Happened::Did) => (Phase::AwaitingBound, Next::Listen),
            (Phase::AwaitingBound, Happened::Said(b)) => if b == BOUND {
                (Phase::Done, Next::Exit)
            } else {
                (Phase::RolledBack, Next::RollBack { resume: held, kill })
            },
            (Phase::Done, _) => (Phase::Done, Next::Exit),
            _ => (Phase::RolledBack, Next::RollBack { resume: held, kill }),
        };
        self.phase = phase;
        next
    }
}

/// What to say of a reader that did not stop.
pub fn pause_failure(pane: u64) -> (r: String)
    ensures
        r@ == "pane "@ + decimal(pane as nat)
            + " did not stop reading in time; nothing was changed"@,
{
    let mut m = owned("pane ");
    m.append(number(pane).as_str());
    m.append(" did not stop reading in time; nothing was changed");
    m
}

/// What to say of a pane that went while it was being handed over.
pub fn vanished(pane: u64) -> (r: String)
    ensures
        r@ == "pane "@ + decimal(pane as nat) + " vanished mid-handoff"@,
{
    let mut m = owned("pane ");
    m.append(number(pane).as_str());
    m.append(" vanished mid-handoff");
    m
}

// -- the successor's side ----------------------------------------------------

/// How far the successor has got in taking over the socket.
#[derive(Debug, Clone, Copy, PartialEq, Eq, Structural)]
pub enum Takeover {
    /// Ready, and waiting for the go-ahead.
    Waiting,
    /// Moving the staging socket into place.
    Moving,
    Taken,
    Refused,
}

/// What the successor does next.
#[derive(Debug, Clone, Copy, PartialEq, Eq, Structural)]
pub enum TakeoverAct {
    /// Rename the staging socket to the real one.
    Rename,
    /// Say that the socket is its own.
    Confirm,
    /// Give up.
    Quit,
    Nothing,
}

/// What the successor does on an event, having said it is ready.
pub fn complete_import(t: Takeover, e: Happened) -> (r: (Takeover, TakeoverAct))
    ensures
        r == (match (t, e) {
            (Takeover::Waiting, Happened::Said(b)) => if b == GO {
                (Takeover::Moving, TakeoverAct::Rename)
            } else {
                (Takeover::Refused, TakeoverAct::Quit)
            },
            (Takeover::Waiting, _) => (Takeover::Refused, TakeoverAct::Quit),
            (Takeover::Moving, Happened::Did) => (Takeover::Taken, TakeoverAct::Confirm),
            (Takeover::Moving, _) => (Takeover::Refused, TakeoverAct::Quit),
            (Takeover::Taken, _) => (Takeover::Taken, TakeoverAct::Nothing),
            (Takeover::Refused, _) => (Takeover::Refused, TakeoverAct::Nothing),
        }),
{
    match (t, e) {
        (Takeover::Waiting, Happened::Said(b)) => if b == GO {
            (Takeover::Moving, TakeoverAct::Rename)
        } else {
            (Takeover::Refused, TakeoverAct::Quit)
        },
        (Takeover::Waiting, _) => (Takeover::Refused, TakeoverAct::Quit),
        (Takeover::Moving, Happened::Did) => (Takeover::Taken, TakeoverAct::Confirm),
        (Takeover::Moving, _) => (Takeover::Refused, TakeoverAct::Quit),
        (Takeover::Taken, _) => (Takeover::Taken, TakeoverAct::Nothing),
        (Takeover::Refused, _) => (Takeover::Refused, TakeoverAct::Nothing),
    }
}

// -- the manifest ------------------------------------------------------------

/// A tab of a manifest, as values.
pub struct HTabView {
    pub name: Seq<char>,
    pub tree: HNode,
    pub focused_pane: Option<usize>,
}

/// The same.
pub open spec fn htab_view(t: HTab) -> HTabView {
    HTabView { name: t.name@, tree: t.tree, focused_pane: t.focused_pane }
}

/// Tabs of a manifest, as values.
pub open spec fn htab_views(v: Seq<HTab>) -> Seq<HTabView> {
    Seq::new(v.len(), |i: int| htab_view(v[i]))
}

/// A space of a manifest, as values.
pub struct HSpaceView {
    pub name: Seq<char>,
    pub cwd: Seq<char>,
    pub tabs: Seq<HTabView>,
    pub focused_tab: Option<usize>,
}

/// The same.
pub open spec fn hspace_view(s: HSpace) -> HSpaceView {
    HSpaceView {
        name: s.name@,
        cwd: s.cwd@,
        tabs: htab_views(s.tabs@),
        focused_tab: s.focused_tab,
    }
}

/// What is handed over of the first `n` tabs of a list: those that are there and have panes.
pub open spec fn tabs_handed(s: SessionView, order: Seq<u64>, tabs: Seq<u64>, n: int) -> Seq<
    HTabView,
>
    decreases n,
{
    if n <= 0 {
        Seq::empty()
    } else {
        let before = tabs_handed(s, order, tabs, n - 1);
        let id = tabs[n - 1];
        if s.has_tab(id) && s.tabs[s.tab_at(id)].layout.tree is Some {
            let t = s.tabs[s.tab_at(id)];
            before.push(
                HTabView {
                    name: t.name,
                    tree: by_number(t.layout.tree->Some_0, order),
                    focused_pane: place_in(order, t.focused_pane),
                },
            )
        } else {
            before
        }
    }
}

/// What is handed over of a space.
pub open spec fn space_handed(s: SessionView, order: Seq<u64>, sp: SpaceView) -> HSpaceView {
    HSpaceView {
        name: sp.name,
        cwd: sp.cwd,
        tabs: tabs_handed(s, order, sp.tabs, sp.tabs.len() as int),
        focused_tab: place_in(sp.tabs, sp.focused_tab),
    }
}

/// Where an id is in a list, if it is.
fn place_of(s: &Vec<u64>, id: Option<u64>) -> (r: Option<usize>)
    ensures
        r == place_in(s@, id),
{
    match id {
        Some(x) => position_in(s, x),
        None => None,
    }
}

/// The manifest of a session whose panes, in `order`, have been exported as `panes`.
pub fn build(s: &Session, order: &Vec<u64>, panes: Vec<HPane>, version: u32, from: &str) -> (r:
    Manifest)
    ensures
        r.version == version,
        r.from_version@ == from@,
        r.panes == panes,
        r.view == s@.view,
        r.client_cols == s@.client_cols,
        r.client_rows == s@.client_rows,
        r.focused_space == (match s@.focused_space {
            Some(id) if s@.has_space(id) => Some(s@.space_at(id) as usize),
            _ => None,
        }),
        r.spaces@.len() == s@.spaces.len(),
        forall|i: int|
            0 <= i < r.spaces@.len() ==> hspace_view(#[trigger] r.spaces@[i]) == space_handed(
                s@,
                order@,
                s@.spaces[i],
            ),
{
    let mut spaces: Vec<HSpace> = Vec::new();
    let mut i: usize = 0;
    while i < s.spaces.len()
        invariant
            i <= s.spaces@.len(),
            spaces@.len() == i,
            forall|j: int|
                0 <= j < i ==> hspace_view(#[trigger] spaces@[j]) == space_handed(
                    s@,
                    order@,
                    s@.spaces[j],
                ),
        decreases s.spaces@.len() - i,
    {
        let sp = &s.spaces[i];
        let mut tabs: Vec<HTab> = Vec::new();
        let mut t: usize = 0;
        proof {
            assert(htab_views(tabs@) =~= tabs_handed(s@, order@, sp.tabs@, 0));
        }
        while t < sp.tabs.len()
            invariant
                t <= sp.tabs@.len(),
                htab_views(tabs@) == tabs_handed(s@, order@, sp.tabs@, t as int),
            decreases sp.tabs@.len() - t,
        {
            let ghost had = htab_views(tabs@);
            match s.tab(sp.tabs[t]) {
                Some(tab) => match &tab.layout.tree {
                    Some(root) => {
                        let h = HTab {
                            name: tab.name.clone(),
                            tree: to_hnode(root, order),
                            focused_pane: place_of(order, tab.focused_pane),
                        };
                        tabs.push(h);
                        proof {
                            assert(htab_views(tabs@) =~= had.push(htab_view(h)));
                        }
                    },
                    None => {},
                },
                None => {},
            }
            t = t + 1;
        }
        let h = HSpace {
            name: sp.name.clone(),
            cwd: sp.cwd.clone(),
            tabs,
            focused_tab: place_of(&sp.tabs, sp.focused_tab),
        };
        proof {
            assert(hspace_view(h) == space_handed(s@, order@, s@.spaces[i as int]));
        }
        spaces.push(h);
        i = i + 1;
    }
    let focused_space: Option<usize> = match s.focused_space {
        Some(id) => {
            let k: usize = s.space_index(id);
            if k < s.spaces.len() {
                Some(k)
            } else {
                None
            }
        },
        None => None,
    };
    Manifest {
        version,
        from_version: owned(from),
        focused_space,
        view: s.view,
        client_cols: s.client_cols,
        client_rows: s.client_rows,
        spaces,
        panes,
    }
}

// -- laws --------------------------------------------------------------------

/// The socket is given up only once the successor has said it is ready.
pub proof fn law_commit_only_when_ready(order: Seq<u64>, p: Phase, e: Happened)
    requires
        advanced(order, p, e).1 == Next::Commit,
    ensures
        p == Phase::AwaitingReady,
        e == Happened::Said(READY),
{
}

/// The daemon leaves only once the successor has the socket.
pub proof fn law_exit_only_when_bound(order: Seq<u64>, p: Phase, e: Happened)
    requires
        advanced(order, p, e).1 == Next::Exit,
        p != Phase::Done,
    ensures
        p == Phase::AwaitingBound,
        e == Happened::Said(BOUND),
{
}

/// A failure anywhere before the end rolls back: exactly the readers that were stopped resume,
/// and a successor is killed exactly where there is one.
pub proof fn law_a_failure_rolls_back(order: Seq<u64>, p: Phase)
    requires
        p != Phase::Done,
    ensures
        advanced(order, p, Happened::Failed) == (
            Phase::RolledBack,
            Next::RollBack { resume: stopped(p, order.len()) as usize, kill: has_successor(p) },
        ),
{
}

/// Before the last slash of a path there is nothing, and behind it no other.
proof fn lemma_last_slash(s: Seq<char>)
    ensures
        -1 <= last_slash(s) < s.len(),
        forall|i: int| last_slash(s) < i < s.len() ==> #[trigger] s[i] != '/',
        last_slash(s) >= 0 ==> s[last_slash(s)] == '/',
    decreases s.len(),
{
    if s.len() > 0 && s.last() != '/' {
        let t = s.drop_last();
        lemma_last_slash(t);
        assert forall|i: int| last_slash(s) < i < s.len() implies #[trigger] s[i] != '/' by {
            if i < t.len() {
                assert(t[i] == s[i]);
            }
        }
        if last_slash(t) >= 0 {
            assert(t[last_slash(t)] == s[last_slash(t)]);
        }
    }
}

/// A dot with none behind it is the last.
proof fn lemma_last_dot_is(s: Seq<char>, k: int)
    requires
        0 <= k < s.len(),
        s[k] == '.',
        forall|i: int| k < i < s.len() ==> #[trigger] s[i] != '.',
    ensures
        last_dot(s) == k,
    decreases s.len(),
{
    if k < s.len() - 1 {
        assert(s[s.len() - 1] != '.');
        lemma_last_dot_is(s.drop_last(), k);
    }
}

/// The staging socket is distinct from the real one, whatever that is called.
pub proof fn law_staging_is_distinct(socket: Seq<char>)
    requires
        file_name(socket) is Some,
    ensures
        staged(socket) != socket,
{
    reveal_strlit(".sock.handoff");
    let ext = ".sock.handoff"@;
    let s = staged(socket);
    let t = tail_trimmed(socket);
    let n = file_name(socket)->Some_0;
    let front = t.take(last_slash(t) + 1) + stem_of(n);
    assert(s == front + ext);
    if s == socket {
        let m = s.len() as int;
        assert forall|i: int| 0 <= i < 13 implies socket[m - 13 + i] == #[trigger] ext[i] by {}
        assert(socket.last() == ext[12]);
        assert(ext[12] == 'f');
        assert(t == socket);
        lemma_last_slash(socket);
        let k = last_slash(socket);
        if k >= m - 13 {
            assert(socket[k] == ext[k - (m - 13)]);
        }
        // The name ends in what staging adds, so its stem is shorter by less than that.
        let c = n.len() as int;
        assert forall|i: int| 0 <= i < 13 implies n[c - 13 + i] == #[trigger] ext[i] by {
            assert(n[c - 13 + i] == socket[m - 13 + i]);
        }
        assert(n[c - 8] == ext[5]);
        assert forall|i: int| c - 8 < i < c implies #[trigger] n[i] != '.' by {
            assert(n[i] == ext[i - (c - 13)]);
        }
        lemma_last_dot_is(n, c - 8);
        assert(stem_of(n).len() == c - 8);
    }
}

} // verus!
