//! What a person at a client can ask of the session.

use crate::layout::Layout;
use crate::paths::{file_name, name_in, same_path, same_place};
use crate::preset::{shaped, Preset};
use crate::proto::{Dir, ViewState};
use crate::seqs::{first_where, lemma_first_where, lemma_first_where_is};
use crate::state::{
    moved_to, next_to_look_at, outcome, pane_closed, pane_focused, pane_resized, pane_swapped,
    plain_look, redrawn, space_closed, space_cycled, space_focused, space_is, space_renamed, splitting,
    tab_closed, tab_cycled, tab_focused, tab_gone_to, tab_renamed, with_space, with_tab, Bars, Look,
    PaneLifeView, PaneView, Session, SessionError, SessionErrorView, SessionView, SpaceView,
};
use crate::text::{as_opt, opt_text, own_opt, owned};
use vstd::prelude::*;
use vstd::string::*;

verus! {

/// A request.
#[derive(Debug, Clone, PartialEq, Eq)]
pub enum Cmd {
    SplitRight,
    SplitDown,
    ClosePane,
    FocusDir(Dir),
    Resize { dir: Dir, cells: u16 },
    ToggleZoom,
    SwapDir(Dir),
    NewTab,
    NextTab,
    PrevTab,
    GotoTab(usize),
    CloseTab,
    NewSpace { name: Option<String> },
    FocusSpace(u64),
    OpenProject { cwd: String },
    NextSpace,
    PrevSpace,
    ToggleSidebar,
    ToggleBus,
    Redraw,
    JumpAttention,
    Scroll { pane: u64, lines: i32 },
    ScrollBottom { pane: u64 },
    FocusPane(u64),
    RenamePane { pane: u64, name: String },
    SpawnAgent { cmd: String, name: Option<String>, split: Option<Dir> },
    RenameSpace { space: u64, name: String },
    RenameTab { tab: u64, name: String },
    CloseSpace(u64),
    FocusTab(u64),
    NewTabIn(u64),
    ApplyLayout { preset: String },
    /// `None` takes the role away. A role is given as roles are written.
    SetPaneRole { pane: u64, role: Option<String> },
    TogglePanePinned(u64),
    /// Give a space a colour, or the next one where none is named.
    SetSpaceAccent { space: u64, slot: Option<u8> },
    ToggleSpaceCollapsed(u64),
    /// What happened since it was last read: a question, which whoever asked is answered.
    RequestDigest,
}

/// How much a notice matters.
#[derive(Debug, Clone, Copy, PartialEq, Eq, Structural)]
pub enum Level {
    Info,
    Warn,
    Error,
}

/// What the session does not know of itself, and a command may need.
pub struct Facts {
    /// Whether a pane beside the one in front would have room.
    pub fits: bool,
    /// The pane next to the one in front, in the direction that was named.
    pub neighbour: Option<u64>,
    /// The layout in front, with its share moved as was asked.
    pub reshaped: Option<Layout>,
    /// The layout of the name that was given.
    pub preset: Option<Preset>,
    /// Whether the directory that was named is one.
    pub is_dir: bool,
    /// Where the daemon runs.
    pub here: String,
    /// How many colours the theme has for spaces.
    pub accents: u8,
}

/// What is left to be done to a pane's emulator.
#[derive(Debug, Clone, Copy, PartialEq, Eq, Structural)]
pub enum PaneAct {
    Scroll { pane: u64, lines: i32 },
    ScrollBottom { pane: u64 },
}

/// What a command came to, beside what it did to the session.
pub struct Applied {
    pub problem: Option<(Level, String)>,
    /// A pane that has now been looked at.
    pub seen: Option<u64>,
    pub act: Option<PaneAct>,
    /// Every screen is to be built and sent again.
    pub repaint: bool,
}

/// The same, as values.
pub struct AppliedView {
    pub problem: Option<(Level, Seq<char>)>,
    pub seen: Option<u64>,
    pub act: Option<PaneAct>,
    pub repaint: bool,
}

impl View for Applied {
    type V = AppliedView;

    open spec fn view(&self) -> AppliedView {
        AppliedView {
            problem: match self.problem {
                Some((l, t)) => Some((l, t@)),
                None => None,
            },
            seen: self.seen,
            act: self.act,
            repaint: self.repaint,
        }
    }
}

/// Nothing more to be said.
pub open spec fn quiet() -> AppliedView {
    AppliedView { problem: None, seen: None, act: None, repaint: false }
}

/// A complaint, where there was a mistake.
pub open spec fn said<A>(level: Level, r: Result<A, SessionErrorView>) -> AppliedView {
    match r {
        Ok(_) => quiet(),
        Err(e) => AppliedView { problem: Some((level, e.message())), ..quiet() },
    }
}

/// A session with a pane given a role, or none.
pub open spec fn role_given(s: SessionView, pane: u64, role: Option<Seq<char>>) -> SessionView {
    let i = s.pane_at(pane);
    if i < s.panes.len() {
        SessionView {
            panes: s.panes.update(
                i,
                PaneView { life: PaneLifeView { role, ..s.panes[i].life }, ..s.panes[i] },
            ),
            ..s
        }
    } else {
        s
    }
}

/// A session with a pane pinned or not, or the other way round where nothing is said; and how it
/// is now.
pub open spec fn pin_set(s: SessionView, pane: u64, to: Option<bool>) -> (SessionView, Option<bool>) {
    let i = s.pane_at(pane);
    if i < s.panes.len() {
        let pinned = match to {
            Some(b) => b,
            None => !s.panes[i].life.pinned,
        };
        (
            SessionView {
                panes: s.panes.update(
                    i,
                    PaneView { life: PaneLifeView { pinned, ..s.panes[i].life }, ..s.panes[i] },
                ),
                ..s
            },
            Some(pinned),
        )
    } else {
        (s, None)
    }
}

/// How a space is shown.
pub open spec fn look_of(s: SessionView, space: u64) -> Look {
    if s.looks.contains_key(space) {
        s.looks[space]
    } else {
        plain_look()
    }
}

/// The colour after this one, and the first after the last.
pub open spec fn next_slot(slot: u8, slots: u8) -> u8 {
    if slot + 1 < slots {
        (slot + 1) as u8
    } else {
        0
    }
}

/// A session with a space in the colour that was named, or in the next one where none was; and
/// which it has now.
pub open spec fn accent_set(s: SessionView, space: u64, slot: Option<u8>, slots: u8) -> (
    SessionView,
    Option<u8>,
) {
    if s.has_space(space) {
        let was = look_of(s, space);
        let now = match slot {
            Some(n) => n,
            None => next_slot(was.slot, slots),
        };
        (
            SessionView { looks: s.looks.insert(space, Look { slot: now, ..was }), ..s },
            Some(now),
        )
    } else {
        (s, None)
    }
}

/// A session with a space folded away or not, or the other way round where nothing is said; and
/// how it is now.
pub open spec fn collapse_set(s: SessionView, space: u64, to: Option<bool>) -> (
    SessionView,
    Option<bool>,
) {
    if s.has_space(space) {
        let was = look_of(s, space);
        let collapsed = match to {
            Some(b) => b,
            None => !was.collapsed,
        };
        (
            SessionView { looks: s.looks.insert(space, Look { collapsed, ..was }), ..s },
            Some(collapsed),
        )
    } else {
        (s, None)
    }
}

/// A pane with another name.
pub open spec fn pane_named(s: SessionView, pane: u64, name: Option<Seq<char>>) -> SessionView {
    let i = s.pane_at(pane);
    if i < s.panes.len() {
        SessionView { panes: s.panes.update(i, PaneView { name, ..s.panes[i] }), ..s }
    } else {
        s
    }
}

/// A session whose panes, as far as the first `n`, have been made to draw themselves again.
pub open spec fn all_redrawn(s: SessionView, ids: Seq<u64>, n: int) -> SessionView
    decreases n,
{
    if n <= 0 {
        s
    } else {
        redrawn(all_redrawn(s, ids, n - 1), ids[n - 1])
    }
}

/// The panes of a session, in order.
pub open spec fn pane_ids(s: SessionView) -> Seq<u64> {
    Seq::new(s.panes.len(), |i: int| s.panes[i].id)
}

/// A space at this place.
pub open spec fn is_at(cwd: Seq<char>) -> spec_fn(SpaceView) -> bool {
    |sp: SpaceView| same_place(sp.cwd, cwd)
}

/// What opening a project does: a project that is open is gone to rather than started twice.
pub open spec fn project_opened(
    s: SessionView,
    bars: Bars,
    shell: Seq<char>,
    cwd: Seq<char>,
    is_dir: bool,
) -> (SessionView, AppliedView) {
    let i = first_where(s.spaces, is_at(cwd));
    if !is_dir {
        (
            s,
            AppliedView {
                problem: Some((Level::Warn, cwd + " is no longer a directory"@)),
                ..quiet()
            },
        )
    } else if i < s.spaces.len() {
        (space_focused(s, s.spaces[i].id).0, quiet())
    } else {
        let name = match file_name(cwd) {
            Some(n) => n,
            None => cwd,
        };
        (with_space(s, bars, shell, Some(name), cwd), quiet())
    }
}

/// Where a new space starts: where the one in front is, as it is nearly always more work on the
/// same project.
pub open spec fn inherited(s: SessionView, here: Seq<char>) -> Seq<char> {
    match s.focused_space {
        Some(id) if s.has_space(id) => s.spaces[s.space_at(id)].cwd,
        _ => here,
    }
}

/// What filling the screen with the pane in front, or no longer, does.
pub open spec fn zoom_toggled(s: SessionView, bars: Bars) -> SessionView {
    match s.front_pane() {
        None => s,
        Some(p) => (SessionView {
            view: ViewState {
                zoom: if s.view.zoom == Some(p) {
                    None
                } else {
                    Some(p)
                },
                ..s.view
            },
            ..s
        }).laid_out(bars),
    }
}

/// What asking for an agent does: a pane with its command, under its name.
pub open spec fn agent_spawned(
    s: SessionView,
    bars: Bars,
    shell: Seq<char>,
    cmd: Seq<char>,
    name: Option<Seq<char>>,
    dir: Dir,
    fits: bool,
) -> (SessionView, AppliedView) {
    let (after, r) = splitting(s, bars, shell, None, dir, Some(cmd), fits);
    match (r, name) {
        (Ok(id), Some(n)) => (pane_named(after, id, Some(n)), quiet()),
        _ => (after, said(Level::Warn, r)),
    }
}

/// What a command does.
pub open spec fn commanded(
    s: SessionView,
    bars: Bars,
    shell: Seq<char>,
    cmd: Cmd,
    facts: Facts,
) -> (SessionView, AppliedView) {
    match cmd {
        Cmd::SplitRight => {
            let (after, r) = splitting(s, bars, shell, None, Dir::Right, None, facts.fits);
            (after, said(Level::Warn, r))
        },
        Cmd::SplitDown => {
            let (after, r) = splitting(s, bars, shell, None, Dir::Down, None, facts.fits);
            (after, said(Level::Warn, r))
        },
        Cmd::ClosePane => (
            match s.front_pane() {
                Some(p) => pane_closed(s, bars, p),
                None => s,
            },
            quiet(),
        ),
        Cmd::FocusDir(_) => {
            let after = moved_to(s, facts.neighbour).0;
            (after, AppliedView { seen: after.front_pane(), ..quiet() })
        },
        Cmd::Resize { .. } => (pane_resized(s, bars, facts.reshaped).0, quiet()),
        Cmd::ToggleZoom => (zoom_toggled(s, bars), quiet()),
        Cmd::SwapDir(_) => (pane_swapped(s, bars, facts.neighbour).0, quiet()),
        Cmd::NewTab => match s.focused_space {
            Some(space) => {
                let (after, r) = with_tab(s, bars, shell, space, None);
                (after, said(Level::Error, r))
            },
            None => (s, quiet()),
        },
        Cmd::NextTab => (tab_cycled(s, 1).0.laid_out(bars), quiet()),
        Cmd::PrevTab => (tab_cycled(s, -1).0.laid_out(bars), quiet()),
        Cmd::GotoTab(i) => (tab_gone_to(s, i as int).0.laid_out(bars), quiet()),
        Cmd::CloseTab => (
            match s.front_tab() {
                Some(t) => tab_closed(s, bars, t),
                None => s,
            },
            quiet(),
        ),
        Cmd::NewSpace { name } => (
            with_space(s, bars, shell, opt_text(name), inherited(s, facts.here@)),
            quiet(),
        ),
        Cmd::FocusSpace(id) => (space_focused(s, id).0.laid_out(bars), quiet()),
        Cmd::OpenProject { cwd } => project_opened(s, bars, shell, cwd@, facts.is_dir),
        Cmd::NextSpace => (space_cycled(s, 1).0.laid_out(bars), quiet()),
        Cmd::PrevSpace => (space_cycled(s, -1).0.laid_out(bars), quiet()),
        Cmd::ToggleSidebar => (
            (SessionView {
                view: ViewState { sidebar_open: !s.view.sidebar_open, ..s.view },
                ..s
            }).laid_out(bars),
            quiet(),
        ),
        Cmd::ToggleBus => (
            (SessionView {
                view: ViewState { bus_open: !s.view.bus_open, ..s.view },
                ..s
            }).laid_out(bars),
            quiet(),
        ),
        Cmd::Redraw => (
            all_redrawn(s, pane_ids(s), s.panes.len() as int),
            AppliedView { repaint: true, ..quiet() },
        ),
        Cmd::JumpAttention => match next_to_look_at(s) {
            Some(p) => (pane_focused(s, p).0, AppliedView { seen: Some(p), ..quiet() }),
            None => (
                s,
                AppliedView {
                    problem: Some((Level::Info, "no agent needs attention"@)),
                    ..quiet()
                },
            ),
        },
        Cmd::Scroll { pane, lines } => (
            s,
            AppliedView {
                act: if s.has_pane(pane) {
                    Some(PaneAct::Scroll { pane, lines })
                } else {
                    None
                },
                ..quiet()
            },
        ),
        Cmd::ScrollBottom { pane } => (
            s,
            AppliedView {
                act: if s.has_pane(pane) {
                    Some(PaneAct::ScrollBottom { pane })
                } else {
                    None
                },
                ..quiet()
            },
        ),
        Cmd::FocusPane(p) => {
            let (after, found) = pane_focused(s, p);
            (
                after,
                AppliedView {
                    seen: if found {
                        Some(p)
                    } else {
                        None
                    },
                    ..quiet()
                },
            )
        },
        Cmd::RenamePane { pane, name } => (
            pane_named(
                s,
                pane,
                if name@.len() == 0 {
                    None
                } else {
                    Some(name@)
                },
            ),
            quiet(),
        ),
        Cmd::SpawnAgent { cmd, name, split } => agent_spawned(
            s,
            bars,
            shell,
            cmd@,
            opt_text(name),
            match split {
                Some(d) => d,
                None => Dir::Right,
            },
            facts.fits,
        ),
        Cmd::RenameSpace { space, name } => (space_renamed(s, space, name@).0, quiet()),
        Cmd::RenameTab { tab, name } => (tab_renamed(s, tab, name@).0, quiet()),
        Cmd::CloseSpace(id) => (space_closed(s, bars, id), quiet()),
        Cmd::FocusTab(id) => {
            let after = tab_focused(s, id).0.laid_out(bars);
            (after, AppliedView { seen: after.front_pane(), ..quiet() })
        },
        Cmd::NewTabIn(space) => {
            let (after, r) = with_tab(s, bars, shell, space, None);
            (after, said(Level::Error, r))
        },
        Cmd::ApplyLayout { preset } => {
            let (after, e) = shaped(s, bars, shell, preset@, facts.preset);
            (
                after,
                match e {
                    Some(e) => AppliedView { problem: Some((Level::Warn, e.message())), ..quiet() },
                    None => quiet(),
                },
            )
        },
        Cmd::SetPaneRole { pane, role } => (role_given(s, pane, opt_text(role)), quiet()),
        Cmd::TogglePanePinned(pane) => (pin_set(s, pane, None).0, quiet()),
        Cmd::SetSpaceAccent { space, slot } => (
            accent_set(s, space, slot, facts.accents).0,
            quiet(),
        ),
        Cmd::ToggleSpaceCollapsed(space) => (collapse_set(s, space, None).0, quiet()),
        Cmd::RequestDigest => (s, quiet()),
    }
}

fn nothing() -> (r: Applied)
    ensures
        r@ == quiet(),
{
    Applied { problem: None, seen: None, act: None, repaint: false }
}

/// A complaint, where there was a mistake.
fn complaint(level: Level, r: Result<u64, SessionError>) -> (a: Applied)
    ensures
        a@ == said(level, outcome(r)),
{
    match r {
        Ok(_) => nothing(),
        Err(e) => Applied {
            problem: Some((level, e.message())),
            seen: None,
            act: None,
            repaint: false,
        },
    }
}

impl Session {
    /// Give a pane a name, or take it away.
    pub fn rename_pane(&mut self, pane: u64, name: Option<String>)
        ensures
            final(self)@ == pane_named(old(self)@, pane, opt_text(name)),
            old(self)@.wf() ==> final(self)@.wf(),
    {
        let i: usize = self.pane_index(pane);
        if i < self.panes.len() {
            let ghost before = self@;
            self.panes[i].name = name;
            proof {
                assert(self@.panes =~= before.panes.update(
                    i as int,
                    PaneView { name: opt_text(name), ..before.panes[i as int] },
                ));
            }
        }
    }

    /// Give a pane a role, or none. `false` where there is no such pane.
    pub fn set_pane_role(&mut self, pane: u64, role: Option<String>) -> (r: bool)
        ensures
            final(self)@ == role_given(old(self)@, pane, opt_text(role)),
            r == old(self)@.has_pane(pane),
            old(self)@.wf() ==> final(self)@.wf(),
    {
        let i: usize = self.pane_index(pane);
        if i >= self.panes.len() {
            return false;
        }
        let ghost before = self@;
        self.panes[i].life.role = role;
        proof {
            assert(self@.panes =~= role_given(before, pane, opt_text(role)).panes);
        }
        true
    }

    /// Pin a pane or not, or turn that round; and say how it is now, where there is such a pane.
    pub fn toggle_pane_pinned(&mut self, pane: u64, to: Option<bool>) -> (r: Option<bool>)
        ensures
            (final(self)@, r) == pin_set(old(self)@, pane, to),
            old(self)@.wf() ==> final(self)@.wf(),
    {
        let i: usize = self.pane_index(pane);
        if i >= self.panes.len() {
            return None;
        }
        let pinned = match to {
            Some(b) => b,
            None => !self.panes[i].life.pinned,
        };
        let ghost before = self@;
        self.panes[i].life.pinned = pinned;
        proof {
            assert(self@.panes =~= pin_set(before, pane, to).0.panes);
        }
        Some(pinned)
    }

    /// How a space is shown.
    pub fn look(&self, space: u64) -> (r: Look)
        ensures
            r == look_of(self@, space),
    {
        match self.looks.get(&space) {
            Some(l) => *l,
            None => Look { slot: 0, collapsed: false },
        }
    }

    /// Give a space a colour, or the next one where none is named; and say which it has now, where
    /// there is such a space. `slots` is how many there are.
    pub fn set_space_accent(&mut self, space: u64, slot: Option<u8>, slots: u8) -> (r: Option<u8>)
        ensures
            (final(self)@, r) == accent_set(old(self)@, space, slot, slots),
            old(self)@.wf() ==> final(self)@.wf(),
    {
        if self.space(space).is_none() {
            return None;
        }
        let was = self.look(space);
        let now: u8 = match slot {
            Some(n) => n,
            None => if was.slot < 255 && was.slot + 1 < slots {
                was.slot + 1
            } else {
                0
            },
        };
        self.looks.insert(space, Look { slot: now, collapsed: was.collapsed });
        Some(now)
    }

    /// Fold a space away or not, or turn that round; and say how it is now, where there is such a
    /// space.
    pub fn toggle_space_collapsed(&mut self, space: u64, to: Option<bool>) -> (r: Option<bool>)
        ensures
            (final(self)@, r) == collapse_set(old(self)@, space, to),
            old(self)@.wf() ==> final(self)@.wf(),
    {
        if self.space(space).is_none() {
            return None;
        }
        let was = self.look(space);
        let collapsed = match to {
            Some(b) => b,
            None => !was.collapsed,
        };
        self.looks.insert(space, Look { slot: was.slot, collapsed });
        Some(collapsed)
    }

    /// Make every program draw itself again.
    pub fn redraw_all(&mut self)
        ensures
            final(self)@ == all_redrawn(old(self)@, pane_ids(old(self)@), old(
                self,
            )@.panes.len() as int),
            old(self)@.wf() ==> final(self)@.wf(),
    {
        let ghost before = self@;
        let ghost ids = pane_ids(before);
        let mut all: Vec<u64> = Vec::new();
        let mut i: usize = 0;
        while i < self.panes.len()
            invariant
                i <= self.panes@.len(),
                self@ == before,
                all@.len() == i,
                forall|j: int| 0 <= j < i ==> #[trigger] all@[j] == before.panes[j].id,
            decreases self.panes@.len() - i,
        {
            all.push(self.panes[i].id);
            i = i + 1;
        }
        proof {
            assert(all@ =~= ids);
        }
        let n: usize = all.len();
        let mut k: usize = 0;
        while k < n
            invariant
                k <= n,
                n == all@.len(),
                all@ == ids,
                self@ == all_redrawn(before, ids, k as int),
                before.wf() ==> self@.wf(),
            decreases n - k,
        {
            self.force_redraw(all[k]);
            k = k + 1;
        }
    }

    /// Open a project, or go there if it is open.
    fn open_project(&mut self, bars: Bars, shell: &str, cwd: &str, is_dir: bool) -> (r: Applied)
        requires
            old(self)@.wf(),
            old(self)@.has_ids(),
            old(self)@.has_space_ids(),
        ensures
            (final(self)@, r@) == project_opened(old(self)@, bars, shell@, cwd@, is_dir),
            final(self)@.wf(),
    {
        if !is_dir {
            let mut m = owned(cwd);
            m.append(" is no longer a directory");
            return Applied {
                problem: Some((Level::Warn, m)),
                seen: None,
                act: None,
                repaint: false,
            };
        }
        let mut i: usize = 0;
        while i < self.spaces.len() && !same_path(self.spaces[i].cwd.as_str(), cwd)
            invariant
                i <= self.spaces@.len(),
                forall|j: int| 0 <= j < i ==> !is_at(cwd@)(#[trigger] self@.spaces[j]),
            decreases self.spaces@.len() - i,
        {
            proof {
                assert(!is_at(cwd@)(self@.spaces[i as int]));
            }
            i = i + 1;
        }
        proof {
            if i < self@.spaces.len() {
                assert(is_at(cwd@)(self@.spaces[i as int]));
            }
            lemma_first_where_is(self@.spaces, is_at(cwd@), i as int);
        }
        if i < self.spaces.len() {
            let id: u64 = self.spaces[i].id;
            self.focus_space(id);
            return nothing();
        }
        let name = match name_in(cwd) {
            Some(n) => n,
            None => owned(cwd),
        };
        let _ = self.create_space(bars, shell, Some(name.as_str()), cwd);
        nothing()
    }

    /// Start a command beside the pane in front, under a name.
    fn spawn_agent(
        &mut self,
        bars: Bars,
        shell: &str,
        cmd: &str,
        name: &Option<String>,
        dir: Dir,
        fits: bool,
    ) -> (r: Applied)
        requires
            old(self)@.wf(),
            old(self)@.has_ids(),
        ensures
            (final(self)@, r@) == agent_spawned(
                old(self)@,
                bars,
                shell@,
                cmd@,
                opt_text(*name),
                dir,
                fits,
            ),
            final(self)@.wf(),
    {
        let r = self.split(bars, shell, None, dir, Some(cmd), fits);
        match (r, name) {
            (Ok(id), Some(n)) => {
                self.rename_pane(id, Some(n.clone()));
                nothing()
            },
            (r, _) => complaint(Level::Warn, r),
        }
    }

    /// Do what a person asked.
    #[verifier::rlimit(60)]
    pub fn apply(&mut self, bars: Bars, shell: &str, cmd: &Cmd, facts: Facts) -> (r: Applied)
        requires
            old(self)@.wf(),
            old(self)@.has_ids(),
            old(self)@.has_space_ids(),
            facts.preset matches Some(p) ==> old(self)@.next_pane + p.want <= u64::MAX,
        ensures
            (final(self)@, r@) == commanded(old(self)@, bars, shell@, *cmd, facts),
            final(self)@.wf(),
    {
        match cmd {
            Cmd::SplitRight => {
                let r = self.split(bars, shell, None, Dir::Right, None, facts.fits);
                complaint(Level::Warn, r)
            },
            Cmd::SplitDown => {
                let r = self.split(bars, shell, None, Dir::Down, None, facts.fits);
                complaint(Level::Warn, r)
            },
            Cmd::ClosePane => {
                if let Some(p) = self.focused_pane() {
                    self.close_pane(bars, p);
                }
                nothing()
            },
            Cmd::FocusDir(_) => {
                self.focus_dir(facts.neighbour);
                Applied { problem: None, seen: self.focused_pane(), act: None, repaint: false }
            },
            Cmd::Resize { dir: _, cells: _ } => {
                self.resize_pane(bars, facts.reshaped);
                nothing()
            },
            Cmd::ToggleZoom => {
                self.toggle_zoom(bars);
                nothing()
            },
            Cmd::SwapDir(_) => {
                self.swap_dir(bars, facts.neighbour);
                nothing()
            },
            Cmd::NewTab => match self.focused_space {
                Some(space) => {
                    let r = self.create_tab(bars, shell, space, None);
                    complaint(Level::Error, r)
                },
                None => nothing(),
            },
            Cmd::NextTab => {
                self.cycle_tab(1);
                self.relayout(bars);
                nothing()
            },
            Cmd::PrevTab => {
                self.cycle_tab(-1);
                self.relayout(bars);
                nothing()
            },
            Cmd::GotoTab(i) => {
                self.goto_tab(*i);
                self.relayout(bars);
                nothing()
            },
            Cmd::CloseTab => {
                if let Some(t) = self.focused_tab() {
                    self.close_tab(bars, t);
                }
                nothing()
            },
            Cmd::NewSpace { name } => {
                let cwd = match self.focused_space {
                    Some(id) => match self.space(id) {
                        Some(sp) => sp.cwd.clone(),
                        None => facts.here,
                    },
                    None => facts.here,
                };
                let _ = self.create_space(bars, shell, as_opt(name), cwd.as_str());
                nothing()
            },
            Cmd::FocusSpace(id) => {
                self.focus_space(*id);
                self.relayout(bars);
                nothing()
            },
            Cmd::OpenProject { cwd } => self.open_project(bars, shell, cwd.as_str(), facts.is_dir),
            Cmd::NextSpace => {
                self.cycle_space(1);
                self.relayout(bars);
                nothing()
            },
            Cmd::PrevSpace => {
                self.cycle_space(-1);
                self.relayout(bars);
                nothing()
            },
            Cmd::ToggleSidebar => {
                self.toggle_sidebar(bars);
                nothing()
            },
            Cmd::ToggleBus => {
                self.toggle_bus(bars);
                nothing()
            },
            Cmd::Redraw => {
                self.redraw_all();
                Applied { problem: None, seen: None, act: None, repaint: true }
            },
            Cmd::JumpAttention => match self.next_attention() {
                Some(p) => {
                    self.focus_pane(p);
                    Applied { problem: None, seen: Some(p), act: None, repaint: false }
                },
                None => Applied {
                    problem: Some((Level::Info, owned("no agent needs attention"))),
                    seen: None,
                    act: None,
                    repaint: false,
                },
            },
            Cmd::Scroll { pane, lines } => {
                let act = if self.pane(*pane).is_some() {
                    Some(PaneAct::Scroll { pane: *pane, lines: *lines })
                } else {
                    None
                };
                Applied { problem: None, seen: None, act, repaint: false }
            },
            Cmd::ScrollBottom { pane } => {
                let act = if self.pane(*pane).is_some() {
                    Some(PaneAct::ScrollBottom { pane: *pane })
                } else {
                    None
                };
                Applied { problem: None, seen: None, act, repaint: false }
            },
            Cmd::FocusPane(p) => {
                let found = self.focus_pane(*p);
                Applied {
                    problem: None,
                    seen: if found {
                        Some(*p)
                    } else {
                        None
                    },
                    act: None,
                    repaint: false,
                }
            },
            Cmd::RenamePane { pane, name } => {
                let given = if name.as_str().is_empty() {
                    None
                } else {
                    Some(name.clone())
                };
                self.rename_pane(*pane, given);
                nothing()
            },
            Cmd::SpawnAgent { cmd, name, split } => {
                let dir = match split {
                    Some(d) => *d,
                    None => Dir::Right,
                };
                self.spawn_agent(bars, shell, cmd.as_str(), name, dir, facts.fits)
            },
            Cmd::RenameSpace { space, name } => {
                self.rename_space(*space, name.as_str());
                nothing()
            },
            Cmd::RenameTab { tab, name } => {
                self.rename_tab(*tab, name.as_str());
                nothing()
            },
            Cmd::CloseSpace(id) => {
                self.close_space(bars, *id);
                nothing()
            },
            Cmd::FocusTab(id) => {
                self.focus_tab(*id);
                self.relayout(bars);
                Applied { problem: None, seen: self.focused_pane(), act: None, repaint: false }
            },
            Cmd::NewTabIn(space) => {
                let r = self.create_tab(bars, shell, *space, None);
                complaint(Level::Error, r)
            },
            Cmd::ApplyLayout { preset } => match self.apply_preset(
                bars,
                shell,
                preset.as_str(),
                facts.preset,
            ) {
                Ok(_) => nothing(),
                Err(e) => Applied {
                    problem: Some((Level::Warn, e.message())),
                    seen: None,
                    act: None,
                    repaint: false,
                },
            },
            Cmd::SetPaneRole { pane, role } => {
                self.set_pane_role(*pane, own_opt(as_opt(role)));
                nothing()
            },
            Cmd::TogglePanePinned(pane) => {
                self.toggle_pane_pinned(*pane, None);
                nothing()
            },
            Cmd::SetSpaceAccent { space, slot } => {
                self.set_space_accent(*space, *slot, facts.accents);
                nothing()
            },
            Cmd::ToggleSpaceCollapsed(space) => {
                self.toggle_space_collapsed(*space, None);
                nothing()
            },
            Cmd::RequestDigest => nothing(),
        }
    }
}

// -- laws --------------------------------------------------------------------

/// A project that is open is not opened twice: there are as many spaces as before, and the one
/// that is there comes to the front.
pub proof fn law_a_project_is_open_once(
    s: SessionView,
    bars: Bars,
    shell: Seq<char>,
    cwd: Seq<char>,
    i: int,
)
    requires
        s.wf(),
        0 <= i < s.spaces.len(),
        same_place(s.spaces[i].cwd, cwd),
    ensures
        ({
            let after = project_opened(s, bars, shell, cwd, true).0;
            &&& after.spaces.len() == s.spaces.len()
            &&& after.focused_space matches Some(id) && after.has_space(id) && same_place(
                after.spaces[after.space_at(id)].cwd,
                cwd,
            )
        }),
{
    lemma_first_where(s.spaces, is_at(cwd));
    let k = first_where(s.spaces, is_at(cwd));
    assert(is_at(cwd)(s.spaces[i]));
    assert(k < s.spaces.len());
    let id = s.spaces[k].id;
    assert forall|j: int| 0 <= j < k implies !space_is(id)(#[trigger] s.spaces[j]) by {
        assert(s.spaces[j].id < s.spaces[k].id);
    }
    lemma_first_where_is(s.spaces, space_is(id), k);
    assert(is_at(cwd)(s.spaces[k]));
}

/// A directory that is gone opens nothing.
pub proof fn law_a_missing_project_opens_nothing(
    s: SessionView,
    bars: Bars,
    shell: Seq<char>,
    cwd: Seq<char>,
)
    ensures
        project_opened(s, bars, shell, cwd, false).0 == s,
        project_opened(s, bars, shell, cwd, false).1.problem is Some,
{
}

/// Folding a space twice leaves it as it was, and shows both times how it is.
pub proof fn law_folding_twice_is_nothing(s: SessionView, space: u64)
    requires
        s.has_space(space),
    ensures
        ({
            let (once, first) = collapse_set(s, space, None);
            let (twice, second) = collapse_set(once, space, None);
            &&& first == Some(!look_of(s, space).collapsed)
            &&& second == Some(look_of(s, space).collapsed)
            &&& look_of(twice, space) == look_of(s, space)
        }),
{
}

/// A colour that is named is the one a space gets, and stepping on from it gives the next, or the
/// first after the last. Nothing else of a session changes by it.
pub proof fn law_an_accent_is_set_or_stepped(s: SessionView, space: u64, slot: u8, slots: u8)
    requires
        s.has_space(space),
    ensures
        ({
            let (named, first) = accent_set(s, space, Some(slot), slots);
            let (stepped, second) = accent_set(named, space, None, slots);
            &&& first == Some(slot)
            &&& second == Some(next_slot(slot, slots))
            &&& look_of(stepped, space).slot == next_slot(slot, slots)
            &&& look_of(stepped, space).collapsed == look_of(s, space).collapsed
            &&& stepped == (SessionView { looks: stepped.looks, ..s })
        }),
{
}

} // verus!
