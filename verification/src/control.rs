//! What requests do: one method per verb.

use crate::commands::{
    accent_set, collapse_set, inherited, pane_named, pin_set, role_given, Facts, PaneAct,
};
use crate::engine::{Engine, EngineView};
use crate::fleet::{
    from_agent, may_set_role, no_role_text, role_line_views, role_lines, role_list, RoleLine,
    RoleLineView,
};
use crate::nudge::roles_in;
use crate::preset::shaped;
use crate::proto::Dir;
use crate::rpc::{
    bad, bad_of, caller_space, caller_space_of, command_by_name, command_called, failed, failed_of,
    find_space, known_views, not_found, not_found_of, pane_arg, pane_meant, pane_named_by,
    pane_or_front, space_arg, space_called, space_meant, trigger_arg, trigger_meant, Code, Fault,
    FaultView, Known, Request, RequestView,
};
use crate::schedule::{at_in, days_in, every_in, parse_at, parse_days, parse_every, When};
use crate::seqs::{lemma_pick_take, pick};
use crate::state::{
    pane_closed, pane_focused, space_closed, space_focused, space_renamed, splitting, tab_closed,
    tab_renamed, with_space, with_tab, Bars, PaneLifeView, PaneView, SessionView,
};
use crate::tasks::{
    adding, claiming, cleared, drop_at, finishing, listed, releasing, views as task_views, Task,
    TaskView,
};
use crate::text::{
    as_opt, begins, decimal, join, joined, number, opt_text, own_opt, owned, quote, quoted, same,
    starts_with, texts,
};
use crate::triggers::{
    adding_rule, armed, disarmed, living, off, views as trigger_views, Trigger, TriggerView, What,
    WhatView,
};
use vstd::prelude::*;
use vstd::string::*;

verus! {

// -- what a request is answered from ----------------------------------------

/// What is configured.
pub struct Rules {
    pub bars: Bars,
    pub shell: String,
    /// Whether agents take work off the board.
    pub board: bool,
    /// Whether triggers fire.
    pub unattended: bool,
    /// The roles that may put work on the board; anyone's, where there are none.
    pub task_authors: Vec<String>,
    /// The roles that are declared.
    pub roles: Vec<String>,
}

/// What is known of the call beside what it says.
pub struct Context {
    /// The names that panes go by.
    pub known: Vec<Known>,
    /// Who the call is from, as the board and messages write it.
    pub sender: String,
    /// The role that the call names, as roles are written.
    pub role: Option<String>,
    /// Where the daemon runs, if that can be told.
    pub cwd: Option<String>,
    pub facts: Facts,
    pub now: u64,
}

// -- answers -----------------------------------------------------------------

/// What else there is to ask, whose answers are put together elsewhere.
#[derive(Debug, Clone, Copy, PartialEq, Eq, Structural)]
pub enum Topic {
    Server,
    Listing,
    Screen,
    Report,
    Agents,
    Spawn,
    Worktree,
    Bus,
    Fire,
    Vault,
    Digest,
}

/// What a call that worked is answered.
pub enum Reply {
    Pong,
    Stopping,
    Space(u64),
    Closed(u64),
    SpaceRenamed { space: u64, name: String },
    Accent { space: u64, slot: u8 },
    Collapsed { space: u64, collapsed: bool },
    Tab(u64),
    Renamed(u64),
    Current(Option<u64>),
    Pane(u64),
    /// The pane has now been looked at.
    Focused(u64),
    /// To be typed at the pane, with or without Enter behind it.
    Type { pane: u64, text: String, submit: bool },
    /// By so many lines, or to the bottom.
    Scroll { pane: u64, lines: i32 },
    Applied(String),
    Added { task: Task, warning: Option<String> },
    Task(Task),
    NoTask,
    Released { task: Task, settled_by: Option<String> },
    Tasks(Vec<Task>),
    Cleared { dropped: usize, space: Option<String> },
    Enlisted { pane: u64, board: bool },
    Roles(Vec<String>),
    RoleSet { pane: u64, role: Option<String> },
    Pinned { pane: u64, pinned: bool },
    RoleList(Vec<RoleLine>),
    Trigger { trigger: Trigger, armed: bool },
    Triggers { triggers: Vec<Trigger>, armed: bool },
    Changed(Trigger),
    Disabled(usize),
    Ran { name: String, seen: Option<u64>, act: Option<PaneAct> },
    Elsewhere(Topic),
}

/// The same, as values.
pub enum ReplyView {
    Pong,
    Stopping,
    Space(u64),
    Closed(u64),
    SpaceRenamed { space: u64, name: Seq<char> },
    Accent { space: u64, slot: u8 },
    Collapsed { space: u64, collapsed: bool },
    Tab(u64),
    Renamed(u64),
    Current(Option<u64>),
    Pane(u64),
    Focused(u64),
    Type { pane: u64, text: Seq<char>, submit: bool },
    Scroll { pane: u64, lines: i32 },
    Applied(Seq<char>),
    Added { task: TaskView, warning: Option<Seq<char>> },
    Task(TaskView),
    NoTask,
    Released { task: TaskView, settled_by: Option<Seq<char>> },
    Tasks(Seq<TaskView>),
    Cleared { dropped: nat, space: Option<Seq<char>> },
    Enlisted { pane: u64, board: bool },
    Roles(Seq<Seq<char>>),
    RoleSet { pane: u64, role: Option<Seq<char>> },
    Pinned { pane: u64, pinned: bool },
    RoleList(Seq<RoleLineView>),
    Trigger { trigger: TriggerView, armed: bool },
    Triggers { triggers: Seq<TriggerView>, armed: bool },
    Changed(TriggerView),
    Disabled(nat),
    Ran { name: Seq<char>, seen: Option<u64>, act: Option<PaneAct> },
    Elsewhere(Topic),
}

impl View for Reply {
    type V = ReplyView;

    open spec fn view(&self) -> ReplyView {
        match *self {
            Reply::Pong => ReplyView::Pong,
            Reply::Stopping => ReplyView::Stopping,
            Reply::Space(x) => ReplyView::Space(x),
            Reply::Closed(x) => ReplyView::Closed(x),
            Reply::SpaceRenamed { space, name } => ReplyView::SpaceRenamed { space, name: name@ },
            Reply::Accent { space, slot } => ReplyView::Accent { space, slot },
            Reply::Collapsed { space, collapsed } => ReplyView::Collapsed { space, collapsed },
            Reply::Tab(x) => ReplyView::Tab(x),
            Reply::Renamed(x) => ReplyView::Renamed(x),
            Reply::Current(x) => ReplyView::Current(x),
            Reply::Pane(x) => ReplyView::Pane(x),
            Reply::Focused(x) => ReplyView::Focused(x),
            Reply::Type { pane, text, submit } => ReplyView::Type { pane, text: text@, submit },
            Reply::Scroll { pane, lines } => ReplyView::Scroll { pane, lines },
            Reply::Applied(s) => ReplyView::Applied(s@),
            Reply::Added { task, warning } => ReplyView::Added {
                task: task@,
                warning: opt_text(warning),
            },
            Reply::Task(t) => ReplyView::Task(t@),
            Reply::NoTask => ReplyView::NoTask,
            Reply::Released { task, settled_by } => ReplyView::Released {
                task: task@,
                settled_by: opt_text(settled_by),
            },
            Reply::Tasks(v) => ReplyView::Tasks(task_views(v@)),
            Reply::Cleared { dropped, space } => ReplyView::Cleared {
                dropped: dropped as nat,
                space: opt_text(space),
            },
            Reply::Enlisted { pane, board } => ReplyView::Enlisted { pane, board },
            Reply::Roles(v) => ReplyView::Roles(texts(v@)),
            Reply::RoleSet { pane, role } => ReplyView::RoleSet { pane, role: opt_text(role) },
            Reply::Pinned { pane, pinned } => ReplyView::Pinned { pane, pinned },
            Reply::RoleList(v) => ReplyView::RoleList(role_line_views(v@)),
            Reply::Trigger { trigger, armed } => ReplyView::Trigger { trigger: trigger@, armed },
            Reply::Triggers { triggers, armed } => ReplyView::Triggers {
                triggers: trigger_views(triggers@),
                armed,
            },
            Reply::Changed(t) => ReplyView::Changed(t@),
            Reply::Disabled(n) => ReplyView::Disabled(n as nat),
            Reply::Ran { name, seen, act } => ReplyView::Ran { name: name@, seen, act },
            Reply::Elsewhere(t) => ReplyView::Elsewhere(t),
        }
    }
}

/// What comes of a call, as values.
pub open spec fn answer(r: Result<Reply, Fault>) -> Result<ReplyView, FaultView> {
    match r {
        Ok(a) => Ok(a@),
        Err(e) => Err(e@),
    }
}

/// An engine and what came of a call.
pub type Answered = (EngineView, Result<ReplyView, FaultView>);

/// Nothing done, and why.
pub open spec fn refused(e: EngineView, f: FaultView) -> Answered {
    (e, Err(f))
}

/// Done to the session, which clients are to see.
pub open spec fn reshaped(e: EngineView, s: SessionView) -> EngineView {
    EngineView { session: s, dirty_shape: true, ..e }
}

/// The same, with something started that is to be looked at.
pub open spec fn restarted(e: EngineView, s: SessionView) -> EngineView {
    EngineView { session: s, dirty_shape: true, detect_soon: true, ..e }
}

impl EngineView {
    /// Everything is sound, and there are ids left.
    pub open spec fn ready(self) -> bool {
        &&& self.wf()
        &&& self.session.has_ids()
        &&& self.session.has_space_ids()
        &&& self.board.next_id < u64::MAX
        &&& self.triggers.next_id < u64::MAX
    }
}

// -- spaces and tabs ---------------------------------------------------------

pub open spec fn space_creating(e: EngineView, q: RequestView, rules: Rules, ctx: Context) -> Answered {
    let cwd = match q.text("cwd"@) {
        Some(c) => Some(c),
        None => opt_text(ctx.cwd),
    };
    match cwd {
        None => refused(e, bad_of("no cwd"@)),
        Some(c) => (
            restarted(e, with_space(e.session, rules.bars, rules.shell@, q.text("name"@), c)),
            Ok(ReplyView::Space(e.session.next_space)),
        ),
    }
}

pub open spec fn space_focusing(e: EngineView, q: RequestView) -> Answered {
    match q.text("name"@) {
        None => refused(e, bad_of("name required"@)),
        Some(n) => match space_called(e.session, n) {
            Err(f) => refused(e, f),
            Ok(id) => (
                reshaped(e, space_focused(e.session, id).0),
                Ok(ReplyView::Space(id)),
            ),
        },
    }
}

pub open spec fn space_closing(e: EngineView, q: RequestView, rules: Rules) -> Answered {
    match q.text("name"@) {
        None => refused(e, bad_of("name required"@)),
        Some(n) => match space_called(e.session, n) {
            Err(f) => refused(e, f),
            Ok(id) => (
                reshaped(e, space_closed(e.session, rules.bars, id)),
                Ok(ReplyView::Closed(id)),
            ),
        },
    }
}

/// A colour is named by its number, of which the last eight bits count. Leaving it out steps to
/// the next one, so that a caller who has not seen the session can still move it.
pub open spec fn space_accenting(e: EngineView, q: RequestView, ctx: Context) -> Answered {
    match space_meant(q, e.session) {
        Err(f) => refused(e, f),
        Ok(id) => {
            let slot = match q.whole("slot"@) {
                Some(n) => Some((n % 256) as u8),
                None => None,
            };
            match accent_set(e.session, id, slot, ctx.facts.accents) {
                (s, Some(slot)) => (reshaped(e, s), Ok(ReplyView::Accent { space: id, slot })),
                (_, None) => refused(e, not_found_of("no such space"@)),
            }
        },
    }
}

pub open spec fn space_collapsing(e: EngineView, q: RequestView) -> Answered {
    match space_meant(q, e.session) {
        Err(f) => refused(e, f),
        Ok(id) => match collapse_set(e.session, id, q.flag("collapsed"@)) {
            (s, Some(collapsed)) => (
                reshaped(e, s),
                Ok(ReplyView::Collapsed { space: id, collapsed }),
            ),
            (_, None) => refused(e, not_found_of("no such space"@)),
        },
    }
}

/// A clash is settled by another name, so the answer says which one it got.
pub open spec fn space_renaming(e: EngineView, q: RequestView) -> Answered {
    match (q.text("name"@), q.text("to"@)) {
        (None, _) => refused(e, bad_of("name required"@)),
        (Some(_), None) => refused(e, bad_of("to required"@)),
        (Some(n), Some(to)) => match space_called(e.session, n) {
            Err(f) => refused(e, f),
            Ok(id) => {
                let (s, done) = space_renamed(e.session, id, to);
                if done {
                    (
                        reshaped(e, s),
                        Ok(
                            ReplyView::SpaceRenamed {
                                space: id,
                                name: if s.has_space(id) {
                                    s.spaces[s.space_at(id)].name
                                } else {
                                    ""@
                                },
                            },
                        ),
                    )
                } else {
                    (
                        EngineView { session: s, ..e },
                        Err(bad_of("a space needs a name"@)),
                    )
                }
            },
        },
    }
}

pub open spec fn tab_creating(e: EngineView, q: RequestView, rules: Rules) -> Answered {
    match e.session.focused_space {
        None => refused(e, failed_of("no focused space"@)),
        Some(space) => {
            let (s, r) = with_tab(e.session, rules.bars, rules.shell@, space, q.text("name"@));
            match r {
                Err(x) => (EngineView { session: s, ..e }, Err(failed_of(x.message()))),
                Ok(id) => (restarted(e, s), Ok(ReplyView::Tab(id))),
            }
        },
    }
}

pub open spec fn tab_closing(e: EngineView, rules: Rules) -> Answered {
    match e.session.front_tab() {
        None => refused(e, failed_of("no focused tab"@)),
        Some(t) => (
            reshaped(e, tab_closed(e.session, rules.bars, t)),
            Ok(ReplyView::Closed(t)),
        ),
    }
}

pub open spec fn tab_renaming(e: EngineView, q: RequestView) -> Answered {
    let t = match q.whole("tab"@) {
        Some(t) => Some(t),
        None => e.session.front_tab(),
    };
    match (t, q.text("name"@)) {
        (None, _) => refused(e, bad_of("no tab"@)),
        (Some(_), None) => refused(e, bad_of("name required"@)),
        (Some(t), Some(n)) => {
            let (s, done) = tab_renamed(e.session, t, n);
            if done {
                (reshaped(e, s), Ok(ReplyView::Renamed(t)))
            } else {
                (EngineView { session: s, ..e }, Err(bad_of("a tab needs a name"@)))
            }
        },
    }
}

// -- panes -------------------------------------------------------------------

pub open spec fn pane_splitting(e: EngineView, q: RequestView, rules: Rules, ctx: Context) -> Answered {
    let target = pane_named_by(q, known_views(ctx.known@), "pane"@);
    let dir = q.direction("direction"@, Dir::Right);
    let (s, r) = splitting(
        e.session,
        rules.bars,
        rules.shell@,
        target,
        dir,
        q.text("cmd"@),
        ctx.facts.fits,
    );
    match r {
        Err(x) => (EngineView { session: s, ..e }, Err(failed_of(x.message()))),
        Ok(id) => (
            restarted(
                e,
                match q.text("name"@) {
                    Some(n) => pane_named(s, id, Some(n)),
                    None => s,
                },
            ),
            Ok(ReplyView::Pane(id)),
        ),
    }
}

pub open spec fn pane_closing(e: EngineView, q: RequestView, rules: Rules, ctx: Context) -> Answered {
    match pane_meant(q, e.session, known_views(ctx.known@), "pane"@) {
        None => refused(e, bad_of("no pane"@)),
        Some(p) => (
            reshaped(e, pane_closed(e.session, rules.bars, p)),
            Ok(ReplyView::Closed(p)),
        ),
    }
}

pub open spec fn pane_focusing(e: EngineView, q: RequestView, ctx: Context) -> Answered {
    match pane_named_by(q, known_views(ctx.known@), "pane"@) {
        None => refused(e, bad_of("pane required"@)),
        Some(p) => {
            let (s, found) = pane_focused(e.session, p);
            if found {
                (reshaped(e, s), Ok(ReplyView::Focused(p)))
            } else {
                (EngineView { session: s, ..e }, Err(not_found_of("no such pane"@)))
            }
        },
    }
}

pub open spec fn pane_renaming(e: EngineView, q: RequestView, ctx: Context) -> Answered {
    let name = match q.text("name"@) {
        Some(n) if n.len() > 0 => Some(n),
        _ => None,
    };
    match pane_named_by(q, known_views(ctx.known@), "pane"@) {
        None => refused(e, bad_of("pane required"@)),
        Some(p) => if e.session.has_pane(p) {
            (reshaped(e, pane_named(e.session, p, name)), Ok(ReplyView::Renamed(p)))
        } else {
            refused(e, not_found_of("no such pane"@))
        },
    }
}

pub open spec fn pane_typing(e: EngineView, q: RequestView, ctx: Context) -> Answered {
    match (pane_meant(q, e.session, known_views(ctx.known@), "pane"@), q.text("text"@)) {
        (None, _) => refused(e, bad_of("no pane"@)),
        (Some(_), None) => refused(e, bad_of("text required"@)),
        (Some(p), Some(t)) => if e.session.has_pane(p) {
            (e, Ok(ReplyView::Type { pane: p, text: t, submit: q.is_on("submit"@) }))
        } else {
            refused(e, not_found_of("no such pane"@))
        },
    }
}

pub open spec fn pane_scrolling(e: EngineView, q: RequestView, ctx: Context) -> Answered {
    let lines = match q.number("lines"@) {
        Some(n) => n,
        None => 0,
    };
    match pane_meant(q, e.session, known_views(ctx.known@), "pane"@) {
        None => refused(e, bad_of("no pane"@)),
        Some(p) => if e.session.has_pane(p) {
            (e, Ok(ReplyView::Scroll { pane: p, lines: lines as i32 }))
        } else {
            refused(e, not_found_of("no such pane"@))
        },
    }
}

pub open spec fn layout_applying(e: EngineView, q: RequestView, rules: Rules, ctx: Context) -> Answered {
    match q.text("preset"@) {
        None => refused(e, bad_of("preset required"@)),
        Some(n) => {
            let (s, x) = shaped(e.session, rules.bars, rules.shell@, n, ctx.facts.preset);
            match x {
                Some(x) => (EngineView { session: s, ..e }, Err(failed_of(x.message()))),
                None => (reshaped(e, s), Ok(ReplyView::Applied(n))),
            }
        },
    }
}

pub open spec fn command_running(e: EngineView, q: RequestView, rules: Rules, ctx: Context) -> Answered {
    match q.text("name"@) {
        None => refused(e, bad_of("name required"@)),
        Some(n) => if n == "new-space"@ {
            (
                restarted(
                    e,
                    with_space(
                        e.session,
                        rules.bars,
                        rules.shell@,
                        Some(n),
                        inherited(e.session, ctx.facts.here@),
                    ),
                ),
                Ok(ReplyView::Ran { name: n, seen: None, act: None }),
            )
        } else {
            match command_called(n, q) {
                None => refused(e, bad_of("unknown command "@ + quoted(n))),
                Some(cmd) => {
                    let (after, a) = e.doing(rules.bars, rules.shell@, cmd, ctx.facts);
                    (after, Ok(ReplyView::Ran { name: n, seen: a.seen, act: a.act }))
                },
            }
        },
    }
}

// -- tasks -------------------------------------------------------------------

/// The role of a pane.
pub open spec fn role_of(s: SessionView, pane: u64) -> Option<Seq<char>> {
    if s.has_pane(pane) {
        s.panes[s.pane_at(pane)].life.role
    } else {
        None
    }
}

/// Whether a call from a pane may put work on the board.
pub open spec fn may_add(s: SessionView, authors: Seq<Seq<char>>, from: Option<u64>) -> bool {
    match from {
        None => true,
        Some(p) => authors.len() == 0 || (role_of(s, p) matches Some(r) && authors.contains(r)),
    }
}

/// Why a call may not put work on the board.
pub open spec fn authors_text(authors: Seq<Seq<char>>, mine: Option<Seq<char>>) -> Seq<char> {
    "only "@ + joined(authors, ", "@) + " may add tasks here (agents.task_authors)"@ + (match mine {
        Some(r) => ", and you are "@ + r,
        None => ", and you have no role"@,
    }) + " — ask one of them, or say what you need with `horde send`"@
}

/// What is said of work for a role that nobody has.
pub open spec fn stranded_text(space: Seq<char>, role: Seq<char>) -> Seq<char> {
    "nobody enlisted in "@ + space + " has the role "@ + role
        + ", so this will sit until one does — `horde spawn --role "@ + role
        + " --board` starts one"@
}

/// A warning, where work is for a role that nobody has.
pub open spec fn warning_of(
    s: SessionView,
    role: Option<Seq<char>>,
    space: Option<Seq<char>>,
) -> Option<Seq<char>> {
    match (role, space) {
        (Some(want), Some(space)) => if roles_in(s, space).contains(want) {
            None
        } else {
            Some(stranded_text(space, want))
        },
        _ => None,
    }
}

pub open spec fn task_adding(e: EngineView, q: RequestView, rules: Rules, ctx: Context) -> Answered {
    let ks = known_views(ctx.known@);
    let from = pane_named_by(q, ks, "from"@);
    let space = match q.text("space"@) {
        Some(s) => Some(s),
        None => caller_space_of(q, e.session, ks),
    };
    let authors = texts(rules.task_authors@);
    match q.text("text"@) {
        None => refused(e, bad_of("text required"@)),
        Some(t) => if !may_add(e.session, authors, from) {
            refused(
                e,
                failed_of(authors_text(authors, role_of(e.session, from->Some_0))),
            )
        } else {
            let (b, r) = adding(e.board, t, ctx.sender@, space, ctx.now);
            match r {
                Err(x) => (EngineView { board: b, ..e }, Err(failed_of(x.message()))),
                Ok(task) => (
                    EngineView { board: b, dirty_shape: true, ..e },
                    Ok(
                        ReplyView::Added {
                            task,
                            warning: warning_of(e.session, opt_text(ctx.role), task.space),
                        },
                    ),
                ),
            }
        },
    }
}

pub open spec fn roles_answered(e: EngineView, q: RequestView, ctx: Context) -> Answered {
    (
        e,
        Ok(
            ReplyView::Roles(
                match caller_space_of(q, e.session, known_views(ctx.known@)) {
                    Some(s) => roles_in(e.session, s),
                    None => Seq::empty(),
                },
            ),
        ),
    )
}

/// The project a call is about, unless it is about all of them.
pub open spec fn scope_of(e: EngineView, q: RequestView, ctx: Context) -> Option<Seq<char>> {
    if q.is_on("everywhere"@) {
        None
    } else {
        caller_space_of(q, e.session, known_views(ctx.known@))
    }
}

pub open spec fn tasks_clearing(e: EngineView, q: RequestView, ctx: Context) -> Answered {
    let space = scope_of(e, q, ctx);
    let p = cleared(space, q.is_on("claimed"@));
    (
        EngineView { board: e.board.put_all(p, drop_at(ctx.now)), dirty_shape: true, ..e },
        Ok(
            ReplyView::Cleared {
                dropped: pick(e.board.tasks, p, drop_at(ctx.now)).len(),
                space,
            },
        ),
    )
}

/// A session with a pane on or off the board.
pub open spec fn enlisted(s: SessionView, pane: u64, on: bool) -> SessionView {
    let i = s.pane_at(pane);
    SessionView {
        panes: s.panes.update(
            i,
            PaneView { life: PaneLifeView { board: on, ..s.panes[i].life }, ..s.panes[i] },
        ),
        ..s
    }
}

pub open spec fn enlisting(e: EngineView, q: RequestView, ctx: Context) -> Answered {
    let on = match q.flag("on"@) {
        Some(b) => b,
        None => true,
    };
    match pane_meant(q, e.session, known_views(ctx.known@), "from"@) {
        None => refused(e, bad_of("no pane"@)),
        Some(p) => if e.session.has_pane(p) {
            (
                reshaped(e, enlisted(e.session, p, on)),
                Ok(ReplyView::Enlisted { pane: p, board: on }),
            )
        } else {
            refused(e, not_found_of("no such pane"@))
        },
    }
}

pub open spec fn role_setting(e: EngineView, q: RequestView, ctx: Context) -> Answered {
    let ks = known_views(ctx.known@);
    match pane_meant(q, e.session, ks, "pane"@) {
        None => refused(e, bad_of("no pane"@)),
        Some(p) => if from_agent(e.session, pane_named_by(q, ks, "from"@)) {
            refused(e, failed_of(no_role_text()))
        } else if e.session.has_pane(p) {
            (
                reshaped(e, role_given(e.session, p, opt_text(ctx.role))),
                Ok(ReplyView::RoleSet { pane: p, role: opt_text(ctx.role) }),
            )
        } else {
            refused(e, not_found_of("no such pane"@))
        },
    }
}

pub open spec fn pinning(e: EngineView, q: RequestView, ctx: Context) -> Answered {
    match pane_meant(q, e.session, known_views(ctx.known@), "pane"@) {
        None => refused(e, bad_of("no pane"@)),
        Some(p) => match pin_set(e.session, p, q.flag("pinned"@)) {
            (s, Some(pinned)) => (reshaped(e, s), Ok(ReplyView::Pinned { pane: p, pinned })),
            (_, None) => refused(e, not_found_of("no such pane"@)),
        },
    }
}

/// Nothing to do is a result, not a failure.
pub open spec fn task_claiming(e: EngineView, q: RequestView, ctx: Context) -> Answered {
    let space = caller_space_of(q, e.session, known_views(ctx.known@));
    let (b, r) = claiming(e.board, ctx.sender@, q.whole("task"@), space, ctx.now);
    match r {
        Err(x) => (EngineView { board: b, ..e }, Err(failed_of(x.message()))),
        Ok(Some(t)) => (
            EngineView { board: b, dirty_shape: true, ..e },
            Ok(ReplyView::Task(t)),
        ),
        Ok(None) => (EngineView { board: b, ..e }, Ok(ReplyView::NoTask)),
    }
}

pub open spec fn task_finishing(e: EngineView, q: RequestView, ctx: Context) -> Answered {
    let (b, r) = finishing(e.board, ctx.sender@, q.whole("task"@), q.text("result"@), ctx.now);
    match r {
        Err(x) => (EngineView { board: b, ..e }, Err(failed_of(x.message()))),
        Ok(t) => (EngineView { board: b, dirty_shape: true, ..e }, Ok(ReplyView::Task(t))),
    }
}

/// Only a dropped task is settled: putting one back is the middle of its life.
pub open spec fn task_releasing(e: EngineView, q: RequestView, ctx: Context) -> Answered {
    match q.whole("task"@) {
        None => refused(e, bad_of("task id required"@)),
        Some(id) => {
            let dropped = q.is_on("drop"@);
            let (b, r) = releasing(e.board, id, dropped, ctx.now);
            match r {
                Err(x) => (EngineView { board: b, ..e }, Err(failed_of(x.message()))),
                Ok(t) => (
                    EngineView { board: b, dirty_shape: true, ..e },
                    Ok(
                        ReplyView::Released {
                            task: t,
                            settled_by: if dropped {
                                Some(
                                    match t.owner {
                                        Some(o) => o,
                                        None => "horde"@,
                                    },
                                )
                            } else {
                                None
                            },
                        },
                    ),
                ),
            }
        },
    }
}

/// A task that a project's listing shows.
pub open spec fn listed_for(space: Option<Seq<char>>) -> spec_fn(TaskView) -> bool {
    |t: TaskView| space is None || t.space is None || t.space == space
}

pub open spec fn tasks_listing(e: EngineView, q: RequestView, ctx: Context) -> Answered {
    (
        e,
        Ok(
            ReplyView::Tasks(
                pick(e.board.tasks, listed_for(scope_of(e, q, ctx)), |t: TaskView| t),
            ),
        ),
    )
}

// -- triggers ----------------------------------------------------------------

/// When a trigger is to fire, as the request says.
pub open spec fn when_of(q: RequestView) -> Result<When, FaultView> {
    match (q.text("every"@), q.text("at"@)) {
        (Some(_), Some(_)) => Err(bad_of("give either every or at, not both"@)),
        (None, None) => Err(bad_of("a trigger needs every or at"@)),
        (Some(s), None) => match every_in(s) {
            Err(x) => Err(bad_of(x.message())),
            Ok(w) => if q.text("days"@) is Some {
                Err(bad_of("days only applies to at — an interval has no day to land on"@))
            } else {
                Ok(w)
            },
        },
        (None, Some(s)) => match at_in(s) {
            Err(x) => Err(bad_of(x.message())),
            Ok(w) => match (q.text("days"@), w) {
                (Some(d), When::At { hour, min, .. }) => match days_in(d) {
                    Ok(days) => Ok(When::At { hour, min, days }),
                    Err(x) => Err(bad_of(x.message())),
                },
                _ => Ok(w),
            },
        },
    }
}

/// What a trigger is to do, as the request says.
pub open spec fn what_of(q: RequestView) -> Result<WhatView, FaultView> {
    match (q.text("task"@), q.text("to"@), q.text("spawn"@)) {
        (Some(text), None, None) => Ok(WhatView::Task { text }),
        (None, Some(to), None) => match q.text("body"@) {
            Some(body) => Ok(WhatView::Send { to, body }),
            None => Err(bad_of("body required with to"@)),
        },
        (None, None, Some(cmd)) => Ok(WhatView::Spawn { cmd, name: q.text("name"@) }),
        (None, None, None) => Err(bad_of("a trigger needs task, to, or spawn"@)),
        _ => Err(bad_of("give exactly one of task, to, or spawn"@)),
    }
}

/// Why a pane that was started by a trigger may make none.
pub open spec fn depth_text(trigger: u64) -> Seq<char> {
    "this pane was started by horde itself (trigger #"@ + decimal(trigger as nat)
        + "), so it cannot create triggers — put work on the board instead"@
}

/// The trigger that started the pane a call is from.
pub open spec fn started_by(s: SessionView, from: Option<u64>) -> Option<u64> {
    match from {
        Some(p) if s.has_pane(p) => s.panes[s.pane_at(p)].life.spawned_by,
        _ => None,
    }
}

pub open spec fn trigger_adding(e: EngineView, q: RequestView, rules: Rules, ctx: Context) -> Answered {
    let ks = known_views(ctx.known@);
    match (when_of(q), what_of(q)) {
        (Err(f), _) => refused(e, f),
        (Ok(_), Err(f)) => refused(e, f),
        (Ok(when), Ok(what)) => match started_by(e.session, pane_named_by(q, ks, "from"@)) {
            Some(t) => refused(e, bad_of(depth_text(t))),
            None => {
                let (s, r) = adding_rule(
                    e.triggers,
                    when,
                    what,
                    ctx.sender@,
                    q.text("when"@),
                    caller_space_of(q, e.session, ks),
                    ctx.now,
                );
                match r {
                    Err(x) => (EngineView { triggers: s, ..e }, Err(failed_of(x.text()))),
                    Ok(t) => (
                        EngineView { triggers: s, dirty_shape: true, ..e },
                        Ok(ReplyView::Trigger { trigger: t, armed: rules.unattended }),
                    ),
                }
            },
        },
    }
}

pub open spec fn triggers_listing(e: EngineView, rules: Rules) -> Answered {
    (
        e,
        Ok(
            ReplyView::Triggers {
                triggers: pick(e.triggers.triggers, living(), |t: TriggerView| t),
                armed: rules.unattended,
            },
        ),
    )
}

pub open spec fn trigger_removing(e: EngineView, q: RequestView) -> Answered {
    match trigger_meant(q) {
        Err(f) => refused(e, f),
        Ok(id) => {
            let (s, r) = e.triggers.changed(id, |t: TriggerView| TriggerView { deleted: true, ..t });
            match r {
                Err(x) => (EngineView { triggers: s, ..e }, Err(not_found_of(x.text()))),
                Ok(t) => (
                    EngineView { triggers: s, dirty_shape: true, ..e },
                    Ok(ReplyView::Changed(t)),
                ),
            }
        },
    }
}

/// Off for all of them is the kill switch, and works without naming any.
pub open spec fn trigger_switching(e: EngineView, q: RequestView) -> Answered {
    if q.get("trigger"@) is None {
        if q.is_on("on"@) {
            refused(e, bad_of("name a trigger to turn on, or use `off --all`"@))
        } else {
            (
                EngineView { triggers: disarmed(e.triggers), dirty_shape: true, ..e },
                Ok(ReplyView::Disabled(pick(e.triggers.triggers, armed(), off()).len())),
            )
        }
    } else {
        match trigger_meant(q) {
            Err(f) => refused(e, f),
            Ok(id) => {
                let on = q.is_on("on"@);
                let (s, r) = e.triggers.changed(
                    id,
                    |t: TriggerView| TriggerView { enabled: on, ..t },
                );
                match r {
                    Err(x) => (EngineView { triggers: s, ..e }, Err(not_found_of(x.text()))),
                    Ok(t) => (
                        EngineView { triggers: s, dirty_shape: true, ..e },
                        Ok(ReplyView::Changed(t)),
                    ),
                }
            },
        }
    }
}

// -- all of them -------------------------------------------------------------

/// What is said of the board while it is off.
pub open spec fn board_off_text() -> Seq<char> {
    "the task board is off — set agents.board = true in config.toml to enable it"@
}

/// What else there is to ask.
pub open spec fn topic_of(m: Seq<char>) -> Option<Topic> {
    if m == "server.reload_config"@ || m == "server.status"@ {
        Some(Topic::Server)
    } else if m == "session.snapshot"@ || m == "space.list"@ || m == "tab.list"@ || m
        == "pane.list"@ {
        Some(Topic::Listing)
    } else if m == "pane.read"@ {
        Some(Topic::Screen)
    } else if m == "pane.report_agent"@ || m == "pane.report-agent"@ {
        Some(Topic::Report)
    } else if m == "agent.list"@ || m == "roster"@ || m == "agent.explain"@ {
        Some(Topic::Agents)
    } else if m == "agent.spawn"@ {
        Some(Topic::Spawn)
    } else if m == "worktree.list"@ || m == "worktree.remove"@ {
        Some(Topic::Worktree)
    } else if m == "bus.send"@ || m == "bus.reply"@ || m == "bus.reply_for"@ || m
        == "bus.broadcast"@ || m == "bus.tail"@ {
        Some(Topic::Bus)
    } else if m == "trigger.fire"@ {
        Some(Topic::Fire)
    } else if m == "vault.list"@ || m == "vault.search"@ || m == "vault.read"@ || m
        == "vault.init"@ || m == "vault.write"@ {
        Some(Topic::Vault)
    } else if m == "digest"@ {
        Some(Topic::Digest)
    } else {
        None
    }
}

/// What a request about spaces, tabs and panes comes to, where it is one.
pub open spec fn answered_session(e: EngineView, q: RequestView, rules: Rules, ctx: Context) -> Option<
    Answered,
> {
    let m = q.method;
    if m == "space.create"@ {
        Some(space_creating(e, q, rules, ctx))
    } else if m == "space.focus"@ {
        Some(space_focusing(e, q))
    } else if m == "space.close"@ {
        Some(space_closing(e, q, rules))
    } else if m == "space.rename"@ {
        Some(space_renaming(e, q))
    } else if m == "space.accent"@ {
        Some(space_accenting(e, q, ctx))
    } else if m == "space.collapse"@ {
        Some(space_collapsing(e, q))
    } else if m == "tab.create"@ {
        Some(tab_creating(e, q, rules))
    } else if m == "tab.close"@ {
        Some(tab_closing(e, rules))
    } else if m == "tab.rename"@ {
        Some(tab_renaming(e, q))
    } else if m == "pane.current"@ {
        Some((e, Ok(ReplyView::Current(e.session.front_pane()))))
    } else if m == "pane.split"@ {
        Some(pane_splitting(e, q, rules, ctx))
    } else if m == "pane.close"@ {
        Some(pane_closing(e, q, rules, ctx))
    } else if m == "pane.focus"@ {
        Some(pane_focusing(e, q, ctx))
    } else if m == "pane.rename"@ {
        Some(pane_renaming(e, q, ctx))
    } else if m == "pane.send_text"@ || m == "pane.send-text"@ {
        Some(pane_typing(e, q, ctx))
    } else if m == "pane.scroll"@ {
        Some(pane_scrolling(e, q, ctx))
    } else if m == "layout.apply"@ {
        Some(layout_applying(e, q, rules, ctx))
    } else if m == "command"@ {
        Some(command_running(e, q, rules, ctx))
    } else {
        None
    }
}

/// What a request about work and rules comes to, where it is one.
pub open spec fn answered_work(e: EngineView, q: RequestView, rules: Rules, ctx: Context) -> Option<
    Answered,
> {
    let m = q.method;
    if m == "task.add"@ {
        Some(task_adding(e, q, rules, ctx))
    } else if m == "task.roles"@ {
        Some(roles_answered(e, q, ctx))
    } else if m == "task.clear"@ {
        Some(tasks_clearing(e, q, ctx))
    } else if m == "task.work"@ {
        Some(enlisting(e, q, ctx))
    } else if m == "pane.role"@ {
        Some(role_setting(e, q, ctx))
    } else if m == "pane.pin"@ {
        Some(pinning(e, q, ctx))
    } else if m == "role.list"@ {
        Some((e, Ok(ReplyView::RoleList(role_lines(e.session, texts(rules.roles@))))))
    } else if m == "task.claim"@ {
        Some(task_claiming(e, q, ctx))
    } else if m == "task.done"@ {
        Some(task_finishing(e, q, ctx))
    } else if m == "task.release"@ {
        Some(task_releasing(e, q, ctx))
    } else if m == "task.list"@ {
        Some(tasks_listing(e, q, ctx))
    } else if m == "trigger.add"@ {
        Some(trigger_adding(e, q, rules, ctx))
    } else if m == "trigger.list"@ {
        Some(triggers_listing(e, rules))
    } else if m == "trigger.rm"@ {
        Some(trigger_removing(e, q))
    } else if m == "trigger.enable"@ {
        Some(trigger_switching(e, q))
    } else {
        None
    }
}

/// What a request comes to. The board can be off while messages go on: then no verb of it works,
/// whatever an agent has read about it.
pub open spec fn answered(e: EngineView, q: RequestView, rules: Rules, ctx: Context) -> Answered {
    let m = q.method;
    if begins(m, "task."@) && !rules.board {
        refused(e, failed_of(board_off_text()))
    } else if m == "ping"@ {
        (e, Ok(ReplyView::Pong))
    } else if m == "server.stop"@ {
        (e, Ok(ReplyView::Stopping))
    } else {
        match answered_session(e, q, rules, ctx) {
            Some(a) => a,
            None => match answered_work(e, q, rules, ctx) {
                Some(a) => a,
                None => if m == "agent.wait"@ {
                    refused(
                        e,
                        bad_of(
                            "use the CLI's `horde wait`, which polls rather than blocking the daemon"@,
                        ),
                    )
                } else {
                    match topic_of(m) {
                        Some(t) => (e, Ok(ReplyView::Elsewhere(t))),
                        None => refused(e, not_found_of("unknown method "@ + quoted(m))),
                    }
                },
            },
        }
    }
}

// -- spaces and tabs, done ---------------------------------------------------

impl Engine {
    fn space_create(&mut self, q: &Request, rules: &Rules, ctx: &Context) -> (r: Result<
        Reply,
        Fault,
    >)
        requires
            old(self)@.ready(),
        ensures
            (final(self)@, answer(r)) == space_creating(old(self)@, q@, *rules, *ctx),
            final(self)@.wf(),
    {
        let cwd = match q.str_arg("cwd") {
            Some(c) => c,
            None => match &ctx.cwd {
                Some(c) => c.as_str(),
                None => {
                    return Err(bad("no cwd"));
                },
            },
        };
        let id: u64 = self.session.next_space;
        let _ = self.session.create_space(rules.bars, rules.shell.as_str(), q.str_arg("name"), cwd);
        self.dirty_shape = true;
        self.detect_soon = true;
        Ok(Reply::Space(id))
    }

    fn space_focus(&mut self, q: &Request) -> (r: Result<Reply, Fault>)
        requires
            old(self)@.ready(),
        ensures
            (final(self)@, answer(r)) == space_focusing(old(self)@, q@),
            final(self)@.wf(),
    {
        let name = match q.str_arg("name") {
            Some(n) => n,
            None => {
                return Err(bad("name required"));
            },
        };
        match find_space(&self.session, name) {
            Err(f) => Err(f),
            Ok(id) => {
                self.session.focus_space(id);
                self.dirty_shape = true;
                Ok(Reply::Space(id))
            },
        }
    }

    fn space_close(&mut self, q: &Request, rules: &Rules) -> (r: Result<Reply, Fault>)
        requires
            old(self)@.ready(),
        ensures
            (final(self)@, answer(r)) == space_closing(old(self)@, q@, *rules),
            final(self)@.wf(),
    {
        let name = match q.str_arg("name") {
            Some(n) => n,
            None => {
                return Err(bad("name required"));
            },
        };
        match find_space(&self.session, name) {
            Err(f) => Err(f),
            Ok(id) => {
                self.session.close_space(rules.bars, id);
                self.dirty_shape = true;
                Ok(Reply::Closed(id))
            },
        }
    }

    fn space_rename(&mut self, q: &Request) -> (r: Result<Reply, Fault>)
        requires
            old(self)@.ready(),
        ensures
            (final(self)@, answer(r)) == space_renaming(old(self)@, q@),
            final(self)@.wf(),
    {
        let name = match q.str_arg("name") {
            Some(n) => n,
            None => {
                return Err(bad("name required"));
            },
        };
        let to = match q.str_arg("to") {
            Some(n) => n,
            None => {
                return Err(bad("to required"));
            },
        };
        let id: u64 = match find_space(&self.session, name) {
            Err(f) => {
                return Err(f);
            },
            Ok(id) => id,
        };
        if !self.session.rename_space(id, to) {
            return Err(bad("a space needs a name"));
        }
        let actual = match self.session.space(id) {
            Some(sp) => sp.name.clone(),
            None => owned(""),
        };
        self.dirty_shape = true;
        Ok(Reply::SpaceRenamed { space: id, name: actual })
    }

    fn space_accent(&mut self, q: &Request, ctx: &Context) -> (r: Result<Reply, Fault>)
        requires
            old(self)@.ready(),
        ensures
            (final(self)@, answer(r)) == space_accenting(old(self)@, q@, *ctx),
            final(self)@.wf(),
    {
        let id: u64 = match space_arg(q, &self.session) {
            Err(f) => {
                return Err(f);
            },
            Ok(id) => id,
        };
        let slot: Option<u8> = match q.u64_arg("slot") {
            Some(n) => Some((n % 256) as u8),
            None => None,
        };
        match self.session.set_space_accent(id, slot, ctx.facts.accents) {
            Some(slot) => {
                self.dirty_shape = true;
                Ok(Reply::Accent { space: id, slot })
            },
            None => Err(not_found("no such space")),
        }
    }

    fn space_collapse(&mut self, q: &Request) -> (r: Result<Reply, Fault>)
        requires
            old(self)@.ready(),
        ensures
            (final(self)@, answer(r)) == space_collapsing(old(self)@, q@),
            final(self)@.wf(),
    {
        let id: u64 = match space_arg(q, &self.session) {
            Err(f) => {
                return Err(f);
            },
            Ok(id) => id,
        };
        match self.session.toggle_space_collapsed(id, q.flag_arg("collapsed")) {
            Some(collapsed) => {
                self.dirty_shape = true;
                Ok(Reply::Collapsed { space: id, collapsed })
            },
            None => Err(not_found("no such space")),
        }
    }

    fn tab_create(&mut self, q: &Request, rules: &Rules) -> (r: Result<Reply, Fault>)
        requires
            old(self)@.ready(),
        ensures
            (final(self)@, answer(r)) == tab_creating(old(self)@, q@, *rules),
            final(self)@.wf(),
    {
        let space: u64 = match self.session.focused_space {
            Some(s) => s,
            None => {
                return Err(failed("no focused space"));
            },
        };
        match self.session.create_tab(
            rules.bars,
            rules.shell.as_str(),
            space,
            q.str_arg("name"),
        ) {
            Err(x) => Err(failed(x.message().as_str())),
            Ok(id) => {
                self.dirty_shape = true;
                self.detect_soon = true;
                Ok(Reply::Tab(id))
            },
        }
    }

    fn tab_close(&mut self, rules: &Rules) -> (r: Result<Reply, Fault>)
        requires
            old(self)@.ready(),
        ensures
            (final(self)@, answer(r)) == tab_closing(old(self)@, *rules),
            final(self)@.wf(),
    {
        match self.session.focused_tab() {
            None => Err(failed("no focused tab")),
            Some(t) => {
                self.session.close_tab(rules.bars, t);
                self.dirty_shape = true;
                Ok(Reply::Closed(t))
            },
        }
    }

    fn tab_rename(&mut self, q: &Request) -> (r: Result<Reply, Fault>)
        requires
            old(self)@.ready(),
        ensures
            (final(self)@, answer(r)) == tab_renaming(old(self)@, q@),
            final(self)@.wf(),
    {
        let t: u64 = match q.u64_arg("tab") {
            Some(t) => t,
            None => match self.session.focused_tab() {
                Some(t) => t,
                None => {
                    return Err(bad("no tab"));
                },
            },
        };
        let name = match q.str_arg("name") {
            Some(n) => n,
            None => {
                return Err(bad("name required"));
            },
        };
        if !self.session.rename_tab(t, name) {
            return Err(bad("a tab needs a name"));
        }
        self.dirty_shape = true;
        Ok(Reply::Renamed(t))
    }

    // -- panes, done ---------------------------------------------------------

    fn pane_split(&mut self, q: &Request, rules: &Rules, ctx: &Context) -> (r: Result<Reply, Fault>)
        requires
            old(self)@.ready(),
        ensures
            (final(self)@, answer(r)) == pane_splitting(old(self)@, q@, *rules, *ctx),
            final(self)@.wf(),
    {
        let target = pane_arg(q, &ctx.known, "pane");
        let dir = q.dir_arg("direction", Dir::Right);
        match self.session.split(
            rules.bars,
            rules.shell.as_str(),
            target,
            dir,
            q.str_arg("cmd"),
            ctx.facts.fits,
        ) {
            Err(x) => Err(failed(x.message().as_str())),
            Ok(id) => {
                if let Some(n) = q.str_arg("name") {
                    self.session.rename_pane(id, Some(owned(n)));
                }
                self.dirty_shape = true;
                self.detect_soon = true;
                Ok(Reply::Pane(id))
            },
        }
    }

    fn pane_close(&mut self, q: &Request, rules: &Rules, ctx: &Context) -> (r: Result<Reply, Fault>)
        requires
            old(self)@.ready(),
        ensures
            (final(self)@, answer(r)) == pane_closing(old(self)@, q@, *rules, *ctx),
            final(self)@.wf(),
    {
        match pane_or_front(q, &self.session, &ctx.known, "pane") {
            None => Err(bad("no pane")),
            Some(p) => {
                self.session.close_pane(rules.bars, p);
                self.dirty_shape = true;
                Ok(Reply::Closed(p))
            },
        }
    }

    fn pane_focus(&mut self, q: &Request, ctx: &Context) -> (r: Result<Reply, Fault>)
        requires
            old(self)@.ready(),
        ensures
            (final(self)@, answer(r)) == pane_focusing(old(self)@, q@, *ctx),
            final(self)@.wf(),
    {
        match pane_arg(q, &ctx.known, "pane") {
            None => Err(bad("pane required")),
            Some(p) => {
                if !self.session.focus_pane(p) {
                    return Err(not_found("no such pane"));
                }
                self.dirty_shape = true;
                Ok(Reply::Focused(p))
            },
        }
    }

    fn pane_rename(&mut self, q: &Request, ctx: &Context) -> (r: Result<Reply, Fault>)
        requires
            old(self)@.ready(),
        ensures
            (final(self)@, answer(r)) == pane_renaming(old(self)@, q@, *ctx),
            final(self)@.wf(),
    {
        let p: u64 = match pane_arg(q, &ctx.known, "pane") {
            None => {
                return Err(bad("pane required"));
            },
            Some(p) => p,
        };
        if self.session.pane(p).is_none() {
            return Err(not_found("no such pane"));
        }
        let name = match q.str_arg("name") {
            Some(n) => if n.is_empty() {
                None
            } else {
                Some(owned(n))
            },
            None => None,
        };
        self.session.rename_pane(p, name);
        self.dirty_shape = true;
        Ok(Reply::Renamed(p))
    }

    fn pane_type(&self, q: &Request, ctx: &Context) -> (r: Result<Reply, Fault>)
        ensures
            (self@, answer(r)) == pane_typing(self@, q@, *ctx),
    {
        let p: u64 = match pane_or_front(q, &self.session, &ctx.known, "pane") {
            None => {
                return Err(bad("no pane"));
            },
            Some(p) => p,
        };
        let text = match q.str_arg("text") {
            None => {
                return Err(bad("text required"));
            },
            Some(t) => t,
        };
        if self.session.pane(p).is_none() {
            return Err(not_found("no such pane"));
        }
        Ok(Reply::Type { pane: p, text: owned(text), submit: q.bool_arg("submit") })
    }

    fn pane_scroll(&self, q: &Request, ctx: &Context) -> (r: Result<Reply, Fault>)
        ensures
            (self@, answer(r)) == pane_scrolling(self@, q@, *ctx),
    {
        let p: u64 = match pane_or_front(q, &self.session, &ctx.known, "pane") {
            None => {
                return Err(bad("no pane"));
            },
            Some(p) => p,
        };
        let lines: i64 = match q.i64_arg("lines") {
            Some(n) => n,
            None => 0,
        };
        if self.session.pane(p).is_none() {
            return Err(not_found("no such pane"));
        }
        Ok(
            Reply::Scroll {
                pane: p,
                lines: #[verifier::truncate]
                (lines as i32),
            },
        )
    }

    fn layout_apply(&mut self, q: &Request, rules: &Rules, ctx: Context) -> (r: Result<Reply, Fault>)
        requires
            old(self)@.ready(),
            ctx.facts.preset matches Some(p) ==> old(self)@.session.next_pane + p.want <= u64::MAX,
        ensures
            (final(self)@, answer(r)) == layout_applying(old(self)@, q@, *rules, ctx),
            final(self)@.wf(),
    {
        let name = match q.str_arg("preset") {
            None => {
                return Err(bad("preset required"));
            },
            Some(n) => n,
        };
        match self.session.apply_preset(
            rules.bars,
            rules.shell.as_str(),
            name,
            ctx.facts.preset,
        ) {
            Err(x) => Err(failed(x.message().as_str())),
            Ok(_) => {
                self.dirty_shape = true;
                Ok(Reply::Applied(owned(name)))
            },
        }
    }

    fn command_run(&mut self, q: &Request, rules: &Rules, ctx: Context) -> (r: Result<Reply, Fault>)
        requires
            old(self)@.ready(),
            ctx.facts.preset matches Some(p) ==> old(self)@.session.next_pane + p.want <= u64::MAX,
        ensures
            (final(self)@, answer(r)) == command_running(old(self)@, q@, *rules, ctx),
            final(self)@.wf(),
    {
        let name = match q.str_arg("name") {
            None => {
                return Err(bad("name required"));
            },
            Some(n) => n,
        };
        match command_by_name(name, q) {
            None => {
                let mut m = owned("unknown command ");
                m.append(quote(name).as_str());
                Err(bad(m.as_str()))
            },
            Some(cmd) => {
                let a = self.apply_cmd(rules.bars, rules.shell.as_str(), &cmd, ctx.facts);
                Ok(Reply::Ran { name: owned(name), seen: a.seen, act: a.act })
            },
        }
    }

    // -- tasks, done ---------------------------------------------------------

    /// The role of a pane.
    fn pane_role(&self, pane: u64) -> (r: Option<String>)
        ensures
            opt_text(r) == role_of(self@.session, pane),
    {
        match self.session.pane(pane) {
            Some(p) => own_opt(as_opt(&p.life.role)),
            None => None,
        }
    }

    fn task_add(&mut self, q: &Request, rules: &Rules, ctx: &Context) -> (r: Result<Reply, Fault>)
        requires
            old(self)@.ready(),
        ensures
            (final(self)@, answer(r)) == task_adding(old(self)@, q@, *rules, *ctx),
            final(self)@.wf(),
    {
        let text = match q.str_arg("text") {
            None => {
                return Err(bad("text required"));
            },
            Some(t) => t,
        };
        let from = pane_arg(q, &ctx.known, "from");
        let space = match q.str_arg("space") {
            Some(s) => Some(owned(s)),
            None => caller_space(q, &self.session, &ctx.known),
        };
        if let Some(pane) = from {
            let n: usize = rules.task_authors.len();
            if n > 0 {
                let mine = self.pane_role(pane);
                let allowed = match &mine {
                    Some(r) => listed(rules.task_authors.as_slice(), r.as_str()),
                    None => false,
                };
                if !allowed {
                    return Err(failed(authors_refusal(&rules.task_authors, &mine).as_str()));
                }
            }
        }
        match self.board.add_at(text, ctx.sender.as_str(), as_opt(&space), ctx.now) {
            Err(x) => Err(failed(x.message().as_str())),
            Ok(t) => {
                self.dirty_shape = true;
                let warning = self.stranded(&ctx.role, &t.space);
                Ok(Reply::Added { task: t, warning })
            },
        }
    }

    /// A warning, where work is for a role that nobody has.
    fn stranded(&self, role: &Option<String>, space: &Option<String>) -> (r: Option<String>)
        ensures
            opt_text(r) == warning_of(self@.session, opt_text(*role), opt_text(*space)),
    {
        match (role, space) {
            (Some(want), Some(space)) => {
                let there = self.session.roles_enlisted_in(space.as_str());
                if listed(there.as_slice(), want.as_str()) {
                    return None;
                }
                let mut m = owned("nobody enlisted in ");
                m.append(space.as_str());
                m.append(" has the role ");
                m.append(want.as_str());
                m.append(", so this will sit until one does — `horde spawn --role ");
                m.append(want.as_str());
                m.append(" --board` starts one");
                Some(m)
            },
            _ => None,
        }
    }

    fn task_roles(&self, q: &Request, ctx: &Context) -> (r: Result<Reply, Fault>)
        ensures
            (self@, answer(r)) == roles_answered(self@, q@, *ctx),
    {
        match caller_space(q, &self.session, &ctx.known) {
            Some(s) => Ok(Reply::Roles(self.session.roles_enlisted_in(s.as_str()))),
            None => {
                let none: Vec<String> = Vec::new();
                proof {
                    assert(texts(none@) =~= Seq::<Seq<char>>::empty());
                }
                Ok(Reply::Roles(none))
            },
        }
    }

    /// The project a call is about, unless it is about all of them.
    fn scope(&self, q: &Request, ctx: &Context) -> (r: Option<String>)
        ensures
            opt_text(r) == scope_of(self@, q@, *ctx),
    {
        if q.bool_arg("everywhere") {
            None
        } else {
            caller_space(q, &self.session, &ctx.known)
        }
    }

    fn task_clear(&mut self, q: &Request, ctx: &Context) -> (r: Result<Reply, Fault>)
        requires
            old(self)@.ready(),
        ensures
            (final(self)@, answer(r)) == tasks_clearing(old(self)@, q@, *ctx),
            final(self)@.wf(),
    {
        let space = self.scope(q, ctx);
        let gone = self.board.clear_at(as_opt(&space), q.bool_arg("claimed"), ctx.now);
        self.dirty_shape = true;
        proof {
            assert(task_views(gone@).len() == gone@.len());
        }
        Ok(Reply::Cleared { dropped: gone.len(), space })
    }

    fn task_work(&mut self, q: &Request, ctx: &Context) -> (r: Result<Reply, Fault>)
        requires
            old(self)@.ready(),
        ensures
            (final(self)@, answer(r)) == enlisting(old(self)@, q@, *ctx),
            final(self)@.wf(),
    {
        let p: u64 = match pane_or_front(q, &self.session, &ctx.known, "from") {
            None => {
                return Err(bad("no pane"));
            },
            Some(p) => p,
        };
        let on = match q.flag_arg("on") {
            Some(b) => b,
            None => true,
        };
        let i: usize = self.session.pane_index(p);
        if i >= self.session.panes.len() {
            return Err(not_found("no such pane"));
        }
        let ghost before = self@.session;
        self.session.panes[i].life.board = on;
        self.dirty_shape = true;
        proof {
            assert(self@.session.panes =~= enlisted(before, p, on).panes);
        }
        Ok(Reply::Enlisted { pane: p, board: on })
    }

    fn role_set(&mut self, q: &Request, ctx: &Context) -> (r: Result<Reply, Fault>)
        requires
            old(self)@.ready(),
        ensures
            (final(self)@, answer(r)) == role_setting(old(self)@, q@, *ctx),
            final(self)@.wf(),
    {
        let p: u64 = match pane_or_front(q, &self.session, &ctx.known, "pane") {
            None => {
                return Err(bad("no pane"));
            },
            Some(p) => p,
        };
        let from = pane_arg(q, &ctx.known, "from");
        if let Err(f) = may_set_role(&self.session, from) {
            return Err(f);
        }
        if !self.session.set_pane_role(p, own_opt(as_opt(&ctx.role))) {
            return Err(not_found("no such pane"));
        }
        self.dirty_shape = true;
        Ok(Reply::RoleSet { pane: p, role: own_opt(as_opt(&ctx.role)) })
    }

    fn pane_pin(&mut self, q: &Request, ctx: &Context) -> (r: Result<Reply, Fault>)
        requires
            old(self)@.ready(),
        ensures
            (final(self)@, answer(r)) == pinning(old(self)@, q@, *ctx),
            final(self)@.wf(),
    {
        let p: u64 = match pane_or_front(q, &self.session, &ctx.known, "pane") {
            None => {
                return Err(bad("no pane"));
            },
            Some(p) => p,
        };
        match self.session.toggle_pane_pinned(p, q.flag_arg("pinned")) {
            Some(pinned) => {
                self.dirty_shape = true;
                Ok(Reply::Pinned { pane: p, pinned })
            },
            None => Err(not_found("no such pane")),
        }
    }

    fn task_claim(&mut self, q: &Request, ctx: &Context) -> (r: Result<Reply, Fault>)
        requires
            old(self)@.ready(),
        ensures
            (final(self)@, answer(r)) == task_claiming(old(self)@, q@, *ctx),
            final(self)@.wf(),
    {
        let space = caller_space(q, &self.session, &ctx.known);
        match self.board.claim_at(
            ctx.sender.as_str(),
            q.u64_arg("task"),
            as_opt(&space),
            ctx.now,
        ) {
            Err(x) => Err(failed(x.message().as_str())),
            Ok(Some(t)) => {
                self.dirty_shape = true;
                Ok(Reply::Task(t))
            },
            Ok(None) => Ok(Reply::NoTask),
        }
    }

    fn task_done(&mut self, q: &Request, ctx: &Context) -> (r: Result<Reply, Fault>)
        requires
            old(self)@.ready(),
        ensures
            (final(self)@, answer(r)) == task_finishing(old(self)@, q@, *ctx),
            final(self)@.wf(),
    {
        match self.board.done_at(
            ctx.sender.as_str(),
            q.u64_arg("task"),
            q.str_arg("result"),
            ctx.now,
        ) {
            Err(x) => Err(failed(x.message().as_str())),
            Ok(t) => {
                self.dirty_shape = true;
                Ok(Reply::Task(t))
            },
        }
    }

    fn task_release(&mut self, q: &Request, ctx: &Context) -> (r: Result<Reply, Fault>)
        requires
            old(self)@.ready(),
        ensures
            (final(self)@, answer(r)) == task_releasing(old(self)@, q@, *ctx),
            final(self)@.wf(),
    {
        let id: u64 = match q.u64_arg("task") {
            None => {
                return Err(bad("task id required"));
            },
            Some(id) => id,
        };
        let dropped = q.bool_arg("drop");
        match self.board.release_at(id, dropped, ctx.now) {
            Err(x) => Err(failed(x.message().as_str())),
            Ok(t) => {
                self.dirty_shape = true;
                let settled_by = if dropped {
                    match &t.owner {
                        Some(o) => Some(o.clone()),
                        None => Some(owned("horde")),
                    }
                } else {
                    None
                };
                Ok(Reply::Released { task: t, settled_by })
            },
        }
    }

    fn task_list(&self, q: &Request, ctx: &Context) -> (r: Result<Reply, Fault>)
        ensures
            (self@, answer(r)) == tasks_listing(self@, q@, *ctx),
    {
        let space = self.scope(q, ctx);
        let ghost want = opt_text(space);
        let ghost ts = self@.board.tasks;
        let ghost f = |t: TaskView| t;
        let all = self.board.all();
        let mut out: Vec<Task> = Vec::new();
        let mut i: usize = 0;
        proof {
            assert(task_views(out@) =~= pick(ts.take(0), listed_for(want), f));
        }
        while i < all.len()
            invariant
                i <= all@.len(),
                task_views(all@) == ts,
                want == opt_text(space),
                f == (|t: TaskView| t),
                task_views(out@) == pick(ts.take(i as int), listed_for(want), f),
            decreases all@.len() - i,
        {
            proof {
                lemma_pick_take(ts, listed_for(want), f, i as int);
                assert(ts[i as int] == all@[i as int]@);
            }
            let shown = match (&space, &all[i].space) {
                (Some(w), Some(s)) => same(s.as_str(), w.as_str()),
                _ => true,
            };
            if shown {
                let ghost had = task_views(out@);
                out.push(all[i].copy());
                proof {
                    assert(task_views(out@) =~= had.push(ts[i as int]));
                }
            }
            i = i + 1;
        }
        proof {
            assert(ts.take(i as int) =~= ts);
        }
        Ok(Reply::Tasks(out))
    }

    // -- triggers, done ------------------------------------------------------

    fn trigger_add(&mut self, q: &Request, rules: &Rules, ctx: &Context) -> (r: Result<
        Reply,
        Fault,
    >)
        requires
            old(self)@.ready(),
        ensures
            (final(self)@, answer(r)) == trigger_adding(old(self)@, q@, *rules, *ctx),
            final(self)@.wf(),
    {
        let when = match when_arg(q) {
            Ok(w) => w,
            Err(f) => {
                return Err(f);
            },
        };
        let what = match what_arg(q) {
            Ok(w) => w,
            Err(f) => {
                return Err(f);
            },
        };
        let from = pane_arg(q, &ctx.known, "from");
        if let Some(p) = from {
            if let Some(pane) = self.session.pane(p) {
                if let Some(t) = pane.life.spawned_by {
                    let mut m = owned("this pane was started by horde itself (trigger #");
                    m.append(number(t).as_str());
                    m.append("), so it cannot create triggers — put work on the board instead");
                    return Err(bad(m.as_str()));
                }
            }
        }
        let space = caller_space(q, &self.session, &ctx.known);
        match self.triggers.add_at(
            when,
            what,
            ctx.sender.as_str(),
            own_opt(q.str_arg("when")),
            space,
            ctx.now,
        ) {
            Err(x) => Err(failed(x.message().as_str())),
            Ok(t) => {
                self.dirty_shape = true;
                Ok(Reply::Trigger { trigger: t, armed: rules.unattended })
            },
        }
    }

    fn trigger_list(&self, rules: &Rules) -> (r: Result<Reply, Fault>)
        ensures
            (self@, answer(r)) == triggers_listing(self@, *rules),
    {
        let all = self.triggers.all();
        let ghost want = pick(self@.triggers.triggers, living(), |t: TriggerView| t);
        let mut out: Vec<Trigger> = Vec::new();
        let mut i: usize = 0;
        while i < all.len()
            invariant
                i <= all@.len(),
                Seq::new(all@.len(), |i: int| all@[i]@) == want,
                out@.len() == i,
                forall|j: int| 0 <= j < i ==> (#[trigger] out@[j])@ == want[j],
            decreases all@.len() - i,
        {
            proof {
                assert(want[i as int] == all@[i as int]@);
            }
            out.push(all[i].copy());
            i = i + 1;
        }
        proof {
            assert(want.len() == all@.len());
            assert(trigger_views(out@) =~= want);
        }
        Ok(Reply::Triggers { triggers: out, armed: rules.unattended })
    }

    fn trigger_rm(&mut self, q: &Request) -> (r: Result<Reply, Fault>)
        requires
            old(self)@.ready(),
        ensures
            (final(self)@, answer(r)) == trigger_removing(old(self)@, q@),
            final(self)@.wf(),
    {
        let id: u64 = match trigger_arg(q) {
            Ok(id) => id,
            Err(f) => {
                return Err(f);
            },
        };
        match self.triggers.remove(id) {
            Err(x) => Err(not_found(x.message().as_str())),
            Ok(t) => {
                self.dirty_shape = true;
                Ok(Reply::Changed(t))
            },
        }
    }

    fn trigger_enable(&mut self, q: &Request) -> (r: Result<Reply, Fault>)
        requires
            old(self)@.ready(),
        ensures
            (final(self)@, answer(r)) == trigger_switching(old(self)@, q@),
            final(self)@.wf(),
    {
        let on = q.bool_arg("on");
        if q.get("trigger").is_none() {
            if on {
                return Err(bad("name a trigger to turn on, or use `off --all`"));
            }
            let gone = self.triggers.disable_all();
            self.dirty_shape = true;
            proof {
                assert(trigger_views(gone@).len() == gone@.len());
            }
            return Ok(Reply::Disabled(gone.len()));
        }
        let id: u64 = match trigger_arg(q) {
            Ok(id) => id,
            Err(f) => {
                return Err(f);
            },
        };
        match self.triggers.set_enabled(id, on) {
            Err(x) => Err(not_found(x.message().as_str())),
            Ok(t) => {
                self.dirty_shape = true;
                Ok(Reply::Changed(t))
            },
        }
    }

    // -- all of them, done ---------------------------------------------------

    /// A request about spaces, tabs and panes. Gives the context back where it is not one.
    fn handle_session(&mut self, q: &Request, rules: &Rules, ctx: Context) -> (r: Result<
        Result<Reply, Fault>,
        Context,
    >)
        requires
            old(self)@.ready(),
            ctx.facts.preset matches Some(p) ==> old(self)@.session.next_pane + p.want <= u64::MAX,
        ensures
            match r {
                Ok(a) => answered_session(old(self)@, q@, *rules, ctx) == Some(
                    (final(self)@, answer(a)),
                ) && final(self)@.wf(),
                Err(c) => answered_session(old(self)@, q@, *rules, ctx) is None && c == ctx
                    && *final(self) == *old(self),
            },
    {
        let m = q.method.as_str();
        if same(m, "space.create") {
            Ok(self.space_create(q, rules, &ctx))
        } else if same(m, "space.focus") {
            Ok(self.space_focus(q))
        } else if same(m, "space.close") {
            Ok(self.space_close(q, rules))
        } else if same(m, "space.rename") {
            Ok(self.space_rename(q))
        } else if same(m, "space.accent") {
            Ok(self.space_accent(q, &ctx))
        } else if same(m, "space.collapse") {
            Ok(self.space_collapse(q))
        } else if same(m, "tab.create") {
            Ok(self.tab_create(q, rules))
        } else if same(m, "tab.close") {
            Ok(self.tab_close(rules))
        } else if same(m, "tab.rename") {
            Ok(self.tab_rename(q))
        } else if same(m, "pane.current") {
            Ok(Ok(Reply::Current(self.session.focused_pane())))
        } else if same(m, "pane.split") {
            Ok(self.pane_split(q, rules, &ctx))
        } else if same(m, "pane.close") {
            Ok(self.pane_close(q, rules, &ctx))
        } else if same(m, "pane.focus") {
            Ok(self.pane_focus(q, &ctx))
        } else if same(m, "pane.rename") {
            Ok(self.pane_rename(q, &ctx))
        } else if same(m, "pane.send_text") || same(m, "pane.send-text") {
            Ok(self.pane_type(q, &ctx))
        } else if same(m, "pane.scroll") {
            Ok(self.pane_scroll(q, &ctx))
        } else if same(m, "layout.apply") {
            Ok(self.layout_apply(q, rules, ctx))
        } else if same(m, "command") {
            Ok(self.command_run(q, rules, ctx))
        } else {
            Err(ctx)
        }
    }

    /// A request about work and rules.
    fn handle_work(&mut self, q: &Request, rules: &Rules, ctx: &Context) -> (r: Option<
        Result<Reply, Fault>,
    >)
        requires
            old(self)@.ready(),
        ensures
            match r {
                Some(a) => answered_work(old(self)@, q@, *rules, *ctx) == Some(
                    (final(self)@, answer(a)),
                ) && final(self)@.wf(),
                None => answered_work(old(self)@, q@, *rules, *ctx) is None && *final(self)
                    == *old(self),
            },
    {
        let m = q.method.as_str();
        if same(m, "task.add") {
            Some(self.task_add(q, rules, ctx))
        } else if same(m, "task.roles") {
            Some(self.task_roles(q, ctx))
        } else if same(m, "task.clear") {
            Some(self.task_clear(q, ctx))
        } else if same(m, "task.work") {
            Some(self.task_work(q, ctx))
        } else if same(m, "pane.role") {
            Some(self.role_set(q, ctx))
        } else if same(m, "pane.pin") {
            Some(self.pane_pin(q, ctx))
        } else if same(m, "role.list") {
            Some(Ok(Reply::RoleList(role_list(&self.session, &rules.roles))))
        } else if same(m, "task.claim") {
            Some(self.task_claim(q, ctx))
        } else if same(m, "task.done") {
            Some(self.task_done(q, ctx))
        } else if same(m, "task.release") {
            Some(self.task_release(q, ctx))
        } else if same(m, "task.list") {
            Some(self.task_list(q, ctx))
        } else if same(m, "trigger.add") {
            Some(self.trigger_add(q, rules, ctx))
        } else if same(m, "trigger.list") {
            Some(self.trigger_list(rules))
        } else if same(m, "trigger.rm") {
            Some(self.trigger_rm(q))
        } else if same(m, "trigger.enable") {
            Some(self.trigger_enable(q))
        } else {
            None
        }
    }

    /// Answer a request.
    pub fn handle(&mut self, q: &Request, rules: &Rules, ctx: Context) -> (r: Result<Reply, Fault>)
        requires
            old(self)@.ready(),
            ctx.facts.preset matches Some(p) ==> old(self)@.session.next_pane + p.want <= u64::MAX,
        ensures
            (final(self)@, answer(r)) == answered(old(self)@, q@, *rules, ctx),
            final(self)@.wf(),
    {
        let m = q.method.as_str();
        if starts_with(m, "task.") && !rules.board {
            return Err(
                failed(
                    "the task board is off — set agents.board = true in config.toml to enable it",
                ),
            );
        }
        if same(m, "ping") {
            return Ok(Reply::Pong);
        }
        if same(m, "server.stop") {
            return Ok(Reply::Stopping);
        }
        let ctx = match self.handle_session(q, rules, ctx) {
            Ok(a) => {
                return a;
            },
            Err(c) => c,
        };
        if let Some(a) = self.handle_work(q, rules, &ctx) {
            return a;
        }
        if same(m, "agent.wait") {
            return Err(
                bad("use the CLI's `horde wait`, which polls rather than blocking the daemon"),
            );
        }
        match topic(m) {
            Some(t) => Ok(Reply::Elsewhere(t)),
            None => {
                let mut x = owned("unknown method ");
                x.append(quote(m).as_str());
                Err(not_found(x.as_str()))
            },
        }
    }
}

/// Why a call may not put work on the board.
fn authors_refusal(authors: &Vec<String>, mine: &Option<String>) -> (r: String)
    ensures
        r@ == authors_text(texts(authors@), opt_text(*mine)),
{
    let mut m = owned("only ");
    m.append(join(authors, ", ").as_str());
    m.append(" may add tasks here (agents.task_authors)");
    match mine {
        Some(r) => {
            let mut who = owned(", and you are ");
            who.append(r.as_str());
            m.append(who.as_str());
        },
        None => {
            m.append(", and you have no role");
        },
    }
    m.append(" — ask one of them, or say what you need with `horde send`");
    m
}

/// When a trigger is to fire, as the request says.
pub fn when_arg(q: &Request) -> (r: Result<When, Fault>)
    ensures
        match r {
            Ok(w) => when_of(q@) == Ok::<When, FaultView>(w),
            Err(f) => when_of(q@) == Err::<When, FaultView>(f@),
        },
{
    match (q.str_arg("every"), q.str_arg("at")) {
        (Some(_), Some(_)) => Err(bad("give either every or at, not both")),
        (None, None) => Err(bad("a trigger needs every or at")),
        (Some(s), None) => match parse_every(s) {
            Err(x) => Err(bad(x.message().as_str())),
            Ok(w) => if q.str_arg("days").is_some() {
                Err(bad("days only applies to at — an interval has no day to land on"))
            } else {
                Ok(w)
            },
        },
        (None, Some(s)) => match parse_at(s) {
            Err(x) => Err(bad(x.message().as_str())),
            Ok(w) => match (q.str_arg("days"), w) {
                (Some(d), When::At { hour, min, days: _ }) => match parse_days(d) {
                    Ok(days) => Ok(When::At { hour, min, days }),
                    Err(x) => Err(bad(x.message().as_str())),
                },
                (_, w) => Ok(w),
            },
        },
    }
}

/// What a trigger is to do, as the request says.
pub fn what_arg(q: &Request) -> (r: Result<What, Fault>)
    ensures
        match r {
            Ok(w) => what_of(q@) == Ok::<WhatView, FaultView>(w@),
            Err(f) => what_of(q@) == Err::<WhatView, FaultView>(f@),
        },
{
    match (q.str_arg("task"), q.str_arg("to"), q.str_arg("spawn")) {
        (Some(text), None, None) => Ok(What::Task { text: owned(text) }),
        (None, Some(to), None) => match q.str_arg("body") {
            Some(body) => Ok(What::Send { to: owned(to), body: owned(body) }),
            None => Err(bad("body required with to")),
        },
        (None, None, Some(cmd)) => Ok(
            What::Spawn { cmd: owned(cmd), name: own_opt(q.str_arg("name")) },
        ),
        (None, None, None) => Err(bad("a trigger needs task, to, or spawn")),
        _ => Err(bad("give exactly one of task, to, or spawn")),
    }
}

/// What else there is to ask.
pub fn topic(m: &str) -> (r: Option<Topic>)
    ensures
        r == topic_of(m@),
{
    if same(m, "server.reload_config") || same(m, "server.status") {
        Some(Topic::Server)
    } else if same(m, "session.snapshot") || same(m, "space.list") || same(m, "tab.list") || same(
        m,
        "pane.list",
    ) {
        Some(Topic::Listing)
    } else if same(m, "pane.read") {
        Some(Topic::Screen)
    } else if same(m, "pane.report_agent") || same(m, "pane.report-agent") {
        Some(Topic::Report)
    } else if same(m, "agent.list") || same(m, "roster") || same(m, "agent.explain") {
        Some(Topic::Agents)
    } else if same(m, "agent.spawn") {
        Some(Topic::Spawn)
    } else if same(m, "worktree.list") || same(m, "worktree.remove") {
        Some(Topic::Worktree)
    } else if same(m, "bus.send") || same(m, "bus.reply") || same(m, "bus.reply_for") || same(
        m,
        "bus.broadcast",
    ) || same(m, "bus.tail") {
        Some(Topic::Bus)
    } else if same(m, "trigger.fire") {
        Some(Topic::Fire)
    } else if same(m, "vault.list") || same(m, "vault.search") || same(m, "vault.read") || same(
        m,
        "vault.init",
    ) || same(m, "vault.write") {
        Some(Topic::Vault)
    } else if same(m, "digest") {
        Some(Topic::Digest)
    } else {
        None
    }
}

// -- laws --------------------------------------------------------------------

/// While the board is off, no verb of it does anything, and each is told how to turn it on.
pub proof fn law_a_closed_board_stays_closed(
    e: EngineView,
    q: RequestView,
    rules: Rules,
    ctx: Context,
)
    requires
        begins(q.method, "task."@),
        !rules.board,
    ensures
        answered(e, q, rules, ctx).0 == e,
        answered(e, q, rules, ctx).1 == Err::<ReplyView, FaultView>(
            FaultView {
                code: Code::Failed,
                message:
                    "the task board is off — set agents.board = true in config.toml to enable it"@,
            },
        ),
{
}

/// A pane that a trigger started makes no triggers, whatever it asks for.
pub proof fn law_machine_started_panes_make_no_triggers(
    e: EngineView,
    q: RequestView,
    rules: Rules,
    ctx: Context,
)
    requires
        started_by(
            e.session,
            pane_named_by(q, known_views(ctx.known@), "from"@),
        ) is Some,
    ensures
        trigger_adding(e, q, rules, ctx).0 == e,
        trigger_adding(e, q, rules, ctx).1 is Err,
{
}

/// A person is never kept from the board: a call from outside a pane may add work, whoever the
/// authors are.
pub proof fn law_a_person_may_always_add(s: SessionView, authors: Seq<Seq<char>>)
    ensures
        may_add(s, authors, None),
{
}

/// With authors named, a pane without one of their roles puts nothing on the board.
pub proof fn law_only_authors_add(e: EngineView, q: RequestView, rules: Rules, ctx: Context)
    requires
        !may_add(
            e.session,
            texts(rules.task_authors@),
            pane_named_by(q, known_views(ctx.known@), "from"@),
        ),
    ensures
        task_adding(e, q, rules, ctx).0 == e,
        task_adding(e, q, rules, ctx).1 is Err,
{
}

/// An agent gives nobody a role, not even itself: a role decides what work is offered to whom.
pub proof fn law_an_agent_sets_no_role(e: EngineView, q: RequestView, ctx: Context)
    requires
        from_agent(e.session, pane_named_by(q, known_views(ctx.known@), "from"@)),
    ensures
        role_setting(e, q, ctx).0 == e,
        role_setting(e, q, ctx).1 is Err,
{
}

} // verus!
