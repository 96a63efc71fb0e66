//! Session model: spaces own tabs, tabs own panes, panes tile inside a tab's layout.
//!
//! The session decides; it starts, stops and resizes nothing itself. What is to be done to
//! processes is queued in `effects`, for whoever drives it to carry out.

use crate::agent::{opt_agent, AgentRuntime, AgentView};
use crate::layout::{leaving_out, Layout, Node};
use crate::paths::{file_name, name_in};
use crate::proto::{less, no_rect, Dir, Rect, ViewState};
use crate::seqs::{first_where, lemma_first_where, lemma_first_where_is, lemma_pick_take, pick};
use crate::text::{
    decimal, lemma_decimal_is_injective, number, opt_str, opt_text, owned, quote, quoted, same,
    trim, trimmed,
};
use std::collections::HashMap;
use vstd::prelude::*;
use vstd::string::*;

verus! {

/// Fallback geometry while nothing is attached, so panes still hold a workable size.
pub const DETACHED_COLS: u16 = 120;

pub const DETACHED_ROWS: u16 = 40;

/// The size a pane starts at. The real one is applied by the relayout that follows.
pub const START_COLS: u16 = 80;

pub const START_ROWS: u16 = 24;

/// The narrowest panel worth drawing beside the panes.
pub const MIN_SIDEBAR: u16 = 14;

/// What must be left for the panes where the bus is open.
pub const MIN_PANES: u16 = 20;

/// What decides where the regions of the screen sit.
#[derive(Debug, Clone, Copy, PartialEq, Eq, Structural)]
pub struct Bars {
    pub tab_bar: bool,
    pub status_bar: bool,
    pub pane_titles: bool,
}

#[derive(Debug, Clone, PartialEq, Eq)]
pub struct Space {
    pub id: u64,
    pub name: String,
    pub cwd: String,
    pub tabs: Vec<u64>,
    pub focused_tab: Option<u64>,
}

#[derive(Debug)]
pub struct Tab {
    pub id: u64,
    pub space: u64,
    pub name: String,
    pub layout: Layout,
    pub focused_pane: Option<u64>,
}

/// Which model of a profile an agent runs on.
#[derive(Debug, Clone, PartialEq, Eq)]
pub struct ModelRun {
    pub profile: String,
    pub index: usize,
    /// When it was last moved on, in unix millis.
    pub switched: Option<u64>,
}

/// What a pane is up to, beside what it was started as.
#[derive(Debug, Clone, PartialEq, Eq)]
pub struct PaneLife {
    /// What the program calls itself.
    pub title: Option<String>,
    pub cols: u16,
    pub rows: u16,
    pub agent: Option<AgentRuntime>,
    /// The trigger that started it, where one did.
    pub spawned_by: Option<u64>,
    /// The pane whose agent asked for it, where one did.
    pub spawned_by_pane: Option<u64>,
    pub exited: bool,
    /// Whether it takes work off the board.
    pub board: bool,
    pub role: Option<String>,
    pub model: Option<ModelRun>,
    /// Whether another agent has taken over from it.
    pub succeeded: bool,
    /// Whether it has been told to hand over.
    pub handover_told: bool,
    /// How many agents handed over before it.
    pub succession_depth: u32,
    pub pinned: bool,
    pub scroll_offset: usize,
    pub wants_mouse: bool,
    pub bracketed_paste: bool,
}

/// A model run, as values.
pub struct ModelRunView {
    pub profile: Seq<char>,
    pub index: usize,
    pub switched: Option<u64>,
}

impl View for ModelRun {
    type V = ModelRunView;

    open spec fn view(&self) -> ModelRunView {
        ModelRunView { profile: self.profile@, index: self.index, switched: self.switched }
    }
}

/// What a pane is up to, as values.
pub struct PaneLifeView {
    pub title: Option<Seq<char>>,
    pub cols: u16,
    pub rows: u16,
    pub agent: Option<AgentView>,
    pub spawned_by: Option<u64>,
    pub spawned_by_pane: Option<u64>,
    pub exited: bool,
    pub board: bool,
    pub role: Option<Seq<char>>,
    pub model: Option<ModelRunView>,
    pub succeeded: bool,
    pub handover_told: bool,
    pub succession_depth: u32,
    pub pinned: bool,
    pub scroll_offset: usize,
    pub wants_mouse: bool,
    pub bracketed_paste: bool,
}

impl View for PaneLife {
    type V = PaneLifeView;

    open spec fn view(&self) -> PaneLifeView {
        PaneLifeView {
            title: opt_text(self.title),
            cols: self.cols,
            rows: self.rows,
            agent: opt_agent(self.agent),
            spawned_by: self.spawned_by,
            spawned_by_pane: self.spawned_by_pane,
            exited: self.exited,
            board: self.board,
            role: opt_text(self.role),
            model: match self.model {
                Some(m) => Some(m@),
                None => None,
            },
            succeeded: self.succeeded,
            handover_told: self.handover_told,
            succession_depth: self.succession_depth,
            pinned: self.pinned,
            scroll_offset: self.scroll_offset,
            wants_mouse: self.wants_mouse,
            bracketed_paste: self.bracketed_paste,
        }
    }
}

/// A pane that has just been started.
pub open spec fn newborn() -> PaneLifeView {
    PaneLifeView {
        title: None,
        cols: START_COLS,
        rows: START_ROWS,
        agent: None,
        spawned_by: None,
        spawned_by_pane: None,
        exited: false,
        board: false,
        role: None,
        model: None,
        succeeded: false,
        handover_told: false,
        succession_depth: 0,
        pinned: false,
        scroll_offset: 0,
        wants_mouse: false,
        bracketed_paste: false,
    }
}

impl PaneLife {
    /// A pane that has just been started.
    pub fn new() -> (r: PaneLife)
        ensures
            r@ == newborn(),
    {
        PaneLife {
            title: None,
            cols: START_COLS,
            rows: START_ROWS,
            agent: None,
            spawned_by: None,
            spawned_by_pane: None,
            exited: false,
            board: false,
            role: None,
            model: None,
            succeeded: false,
            handover_told: false,
            succession_depth: 0,
            pinned: false,
            scroll_offset: 0,
            wants_mouse: false,
            bracketed_paste: false,
        }
    }
}

#[derive(Debug, Clone, PartialEq, Eq)]
pub struct Pane {
    pub id: u64,
    pub tab: u64,
    pub space: u64,
    pub cmd: String,
    pub cwd: String,
    pub name: Option<String>,
    pub life: PaneLife,
}

/// Where each region of the screen sits. Computed once per relayout.
#[derive(Debug, Clone, Copy, PartialEq, Eq, Structural)]
pub struct Chrome {
    pub tabbar: Rect,
    pub sidebar: Rect,
    pub bus: Rect,
    pub status: Rect,
    /// Region the pane tree tiles into.
    pub panes: Rect,
}

/// Something to be done to a process.
#[derive(Debug, Clone, PartialEq, Eq)]
pub enum Effect {
    /// Start a command in a pane. `front` is what was in front of its tab before it came.
    Spawn { pane: u64, cmd: String, cwd: String, front: Option<u64> },
    /// Take over a process that is running, by its number in the manifest.
    Adopt { pane: u64, index: usize },
    /// Stop what runs in a pane.
    Kill(u64),
    /// Tell what runs in a pane its size.
    Resize { pane: u64, cols: u16, rows: u16 },
}

/// The same, as values.
pub enum EffectView {
    Spawn { pane: u64, cmd: Seq<char>, cwd: Seq<char>, front: Option<u64> },
    Adopt { pane: u64, index: usize },
    Kill(u64),
    Resize { pane: u64, cols: u16, rows: u16 },
}

impl View for Effect {
    type V = EffectView;

    open spec fn view(&self) -> EffectView {
        match *self {
            Effect::Spawn { pane, cmd, cwd, front } => EffectView::Spawn {
                pane,
                cmd: cmd@,
                cwd: cwd@,
                front,
            },
            Effect::Adopt { pane, index } => EffectView::Adopt { pane, index },
            Effect::Kill(p) => EffectView::Kill(p),
            Effect::Resize { pane, cols, rows } => EffectView::Resize { pane, cols, rows },
        }
    }
}

/// A space, as values.
pub struct SpaceView {
    pub id: u64,
    pub name: Seq<char>,
    pub cwd: Seq<char>,
    pub tabs: Seq<u64>,
    pub focused_tab: Option<u64>,
}

impl View for Space {
    type V = SpaceView;

    open spec fn view(&self) -> SpaceView {
        SpaceView {
            id: self.id,
            name: self.name@,
            cwd: self.cwd@,
            tabs: self.tabs@,
            focused_tab: self.focused_tab,
        }
    }
}

/// A tab, as values.
pub struct TabView {
    pub id: u64,
    pub space: u64,
    pub name: Seq<char>,
    pub layout: Layout,
    pub focused_pane: Option<u64>,
}

impl View for Tab {
    type V = TabView;

    open spec fn view(&self) -> TabView {
        TabView {
            id: self.id,
            space: self.space,
            name: self.name@,
            layout: self.layout,
            focused_pane: self.focused_pane,
        }
    }
}

/// A pane, as values.
pub struct PaneView {
    pub id: u64,
    pub tab: u64,
    pub space: u64,
    pub cmd: Seq<char>,
    pub cwd: Seq<char>,
    pub name: Option<Seq<char>>,
    pub life: PaneLifeView,
}

impl View for Pane {
    type V = PaneView;

    open spec fn view(&self) -> PaneView {
        PaneView {
            id: self.id,
            tab: self.tab,
            space: self.space,
            cmd: self.cmd@,
            cwd: self.cwd@,
            name: opt_text(self.name),
            life: self.life@,
        }
    }
}

/// How a space is shown: which of a theme's colours it has, and whether it is folded away.
#[derive(Debug, Clone, Copy, PartialEq, Eq, Structural)]
pub struct Look {
    pub slot: u8,
    pub collapsed: bool,
}

/// How a space is shown until somebody says otherwise.
pub open spec fn plain_look() -> Look {
    Look { slot: 0, collapsed: false }
}

pub struct Session {
    pub spaces: Vec<Space>,
    pub tabs: Vec<Tab>,
    pub panes: Vec<Pane>,
    pub focused_space: Option<u64>,
    pub view: ViewState,
    pub chrome: Chrome,
    /// Last size reported by a client; retained while detached.
    pub client_cols: u16,
    pub client_rows: u16,
    pub next_space: u64,
    pub next_tab: u64,
    pub next_pane: u64,
    /// How spaces are shown, by id. One that is not here is shown plainly.
    pub looks: HashMap<u64, Look>,
    /// What is to be done to processes, in order.
    pub effects: Vec<Effect>,
}

/// A session, as values.
pub struct SessionView {
    pub spaces: Seq<SpaceView>,
    pub tabs: Seq<TabView>,
    pub panes: Seq<PaneView>,
    pub focused_space: Option<u64>,
    pub view: ViewState,
    pub chrome: Chrome,
    pub client_cols: u16,
    pub client_rows: u16,
    pub next_space: u64,
    pub next_tab: u64,
    pub next_pane: u64,
    pub looks: Map<u64, Look>,
    pub effects: Seq<EffectView>,
}

/// Spaces, as values.
pub open spec fn space_views(v: Seq<Space>) -> Seq<SpaceView> {
    Seq::new(v.len(), |i: int| v[i]@)
}

/// Tabs, as values.
pub open spec fn tab_views(v: Seq<Tab>) -> Seq<TabView> {
    Seq::new(v.len(), |i: int| v[i]@)
}

/// Panes, as values.
pub open spec fn pane_views(v: Seq<Pane>) -> Seq<PaneView> {
    Seq::new(v.len(), |i: int| v[i]@)
}

/// Effects, as values.
pub open spec fn effect_views(v: Seq<Effect>) -> Seq<EffectView> {
    Seq::new(v.len(), |i: int| v[i]@)
}

impl View for Session {
    type V = SessionView;

    open spec fn view(&self) -> SessionView {
        SessionView {
            spaces: space_views(self.spaces@),
            tabs: tab_views(self.tabs@),
            panes: pane_views(self.panes@),
            focused_space: self.focused_space,
            view: self.view,
            chrome: self.chrome,
            client_cols: self.client_cols,
            client_rows: self.client_rows,
            next_space: self.next_space,
            next_tab: self.next_tab,
            next_pane: self.next_pane,
            looks: self.looks@,
            effects: effect_views(self.effects@),
        }
    }
}

/// A space with this id.
pub open spec fn space_is(id: u64) -> spec_fn(SpaceView) -> bool {
    |s: SpaceView| s.id == id
}

/// A tab with this id.
pub open spec fn tab_is(id: u64) -> spec_fn(TabView) -> bool {
    |t: TabView| t.id == id
}

/// A pane with this id.
pub open spec fn pane_is(id: u64) -> spec_fn(PaneView) -> bool {
    |p: PaneView| p.id == id
}

impl SessionView {
    /// Where a space is, or the number of spaces.
    pub open spec fn space_at(self, id: u64) -> int {
        first_where(self.spaces, space_is(id))
    }

    /// Where a tab is, or the number of tabs.
    pub open spec fn tab_at(self, id: u64) -> int {
        first_where(self.tabs, tab_is(id))
    }

    /// Where a pane is, or the number of panes.
    pub open spec fn pane_at(self, id: u64) -> int {
        first_where(self.panes, pane_is(id))
    }

    pub open spec fn has_space(self, id: u64) -> bool {
        self.space_at(id) < self.spaces.len()
    }

    pub open spec fn has_tab(self, id: u64) -> bool {
        self.tab_at(id) < self.tabs.len()
    }

    pub open spec fn has_pane(self, id: u64) -> bool {
        self.pane_at(id) < self.panes.len()
    }

    /// The tab in front.
    pub open spec fn front_tab(self) -> Option<u64> {
        match self.focused_space {
            Some(s) if self.has_space(s) => self.spaces[self.space_at(s)].focused_tab,
            _ => None,
        }
    }

    /// The pane that keys go to.
    pub open spec fn front_pane(self) -> Option<u64> {
        match self.front_tab() {
            Some(t) if self.has_tab(t) => self.tabs[self.tab_at(t)].focused_pane,
            _ => None,
        }
    }

    /// The panes of the tab in front.
    pub open spec fn in_front(self) -> Seq<u64> {
        match self.front_tab() {
            Some(t) if self.has_tab(t) => self.tabs[self.tab_at(t)].layout.order(),
            _ => Seq::empty(),
        }
    }

    /// The same, with a space in front.
    pub open spec fn with_space_in_front(self, id: u64) -> SessionView {
        SessionView { focused_space: Some(id), ..self }
    }

    /// The same, with a tab in front of its space.
    pub open spec fn with_tab_in_front(self, space: u64, tab: u64) -> SessionView {
        let i = self.space_at(space);
        if i < self.spaces.len() {
            SessionView {
                spaces: self.spaces.update(
                    i,
                    SpaceView { focused_tab: Some(tab), ..self.spaces[i] },
                ),
                ..self
            }
        } else {
            self
        }
    }

    /// The same, with a pane in front of its tab.
    pub open spec fn with_pane_in_front(self, tab: u64, pane: u64) -> SessionView {
        let i = self.tab_at(tab);
        if i < self.tabs.len() {
            SessionView {
                tabs: self.tabs.update(
                    i,
                    TabView { focused_pane: Some(pane), ..self.tabs[i] },
                ),
                ..self
            }
        } else {
            self
        }
    }
}

impl Session {
    /// Where a space is, or the number of spaces.
    pub(crate) fn space_index(&self, id: u64) -> (r: usize)
        ensures
            r <= self.spaces@.len(),
            r == self@.space_at(id),
            r < self.spaces@.len() ==> self.spaces@[r as int].id == id,
    {
        let mut i: usize = 0;
        while i < self.spaces.len() && self.spaces[i].id != id
            invariant
                i <= self.spaces@.len(),
                forall|j: int| 0 <= j < i ==> !space_is(id)(#[trigger] self@.spaces[j]),
            decreases self.spaces@.len() - i,
        {
            i = i + 1;
        }
        proof {
            lemma_first_where_is(self@.spaces, space_is(id), i as int);
        }
        i
    }

    /// Where a tab is, or the number of tabs.
    pub(crate) fn tab_index(&self, id: u64) -> (r: usize)
        ensures
            r <= self.tabs@.len(),
            r == self@.tab_at(id),
            r < self.tabs@.len() ==> self.tabs@[r as int].id == id,
    {
        let mut i: usize = 0;
        while i < self.tabs.len() && self.tabs[i].id != id
            invariant
                i <= self.tabs@.len(),
                forall|j: int| 0 <= j < i ==> !tab_is(id)(#[trigger] self@.tabs[j]),
            decreases self.tabs@.len() - i,
        {
            i = i + 1;
        }
        proof {
            lemma_first_where_is(self@.tabs, tab_is(id), i as int);
        }
        i
    }

    /// Where a pane is, or the number of panes.
    pub fn pane_index(&self, id: u64) -> (r: usize)
        ensures
            r <= self.panes@.len(),
            r == self@.pane_at(id),
            r < self.panes@.len() ==> self.panes@[r as int].id == id,
    {
        let mut i: usize = 0;
        while i < self.panes.len() && self.panes[i].id != id
            invariant
                i <= self.panes@.len(),
                forall|j: int| 0 <= j < i ==> !pane_is(id)(#[trigger] self@.panes[j]),
            decreases self.panes@.len() - i,
        {
            i = i + 1;
        }
        proof {
            lemma_first_where_is(self@.panes, pane_is(id), i as int);
        }
        i
    }

    /// The space with this id.
    pub fn space(&self, id: u64) -> (r: Option<&Space>)
        ensures
            match r {
                Some(s) => self@.has_space(id) && s@ == self@.spaces[self@.space_at(id)],
                None => !self@.has_space(id),
            },
    {
        let i: usize = self.space_index(id);
        if i < self.spaces.len() {
            Some(&self.spaces[i])
        } else {
            None
        }
    }

    /// The tab with this id.
    pub fn tab(&self, id: u64) -> (r: Option<&Tab>)
        ensures
            match r {
                Some(t) => self@.has_tab(id) && t@ == self@.tabs[self@.tab_at(id)],
                None => !self@.has_tab(id),
            },
    {
        let i: usize = self.tab_index(id);
        if i < self.tabs.len() {
            Some(&self.tabs[i])
        } else {
            None
        }
    }

    /// The pane with this id.
    pub fn pane(&self, id: u64) -> (r: Option<&Pane>)
        ensures
            match r {
                Some(p) => self@.has_pane(id) && p@ == self@.panes[self@.pane_at(id)],
                None => !self@.has_pane(id),
            },
    {
        let i: usize = self.pane_index(id);
        if i < self.panes.len() {
            Some(&self.panes[i])
        } else {
            None
        }
    }

    /// The tab in front.
    pub fn focused_tab(&self) -> (r: Option<u64>)
        ensures
            r == self@.front_tab(),
    {
        match self.focused_space {
            Some(id) => match self.space(id) {
                Some(s) => s.focused_tab,
                None => None,
            },
            None => None,
        }
    }

    /// The pane that keys go to.
    pub fn focused_pane(&self) -> (r: Option<u64>)
        ensures
            r == self@.front_pane(),
    {
        match self.focused_tab() {
            Some(id) => match self.tab(id) {
                Some(t) => t.focused_pane,
                None => None,
            },
            None => None,
        }
    }

    /// Panes in the currently visible tab, in stable visual order.
    pub fn visible_panes(&self) -> (r: Vec<u64>)
        ensures
            r@ == self@.in_front(),
    {
        match self.focused_tab() {
            Some(id) => match self.tab(id) {
                Some(t) => t.layout.panes(),
                None => Vec::new(),
            },
            None => Vec::new(),
        }
    }

    pub(crate) fn put_tab_in_front(&mut self, space: u64, tab: u64)
        ensures
            final(self)@ == old(self)@.with_tab_in_front(space, tab),
            old(self)@.wf() ==> final(self)@.wf(),
    {
        let i: usize = self.space_index(space);
        if i < self.spaces.len() {
            let ghost before = self@;
            self.spaces[i].focused_tab = Some(tab);
            proof {
                assert(self@.spaces =~= before.with_tab_in_front(space, tab).spaces);
            }
        }
    }

    fn put_pane_in_front(&mut self, tab: u64, pane: u64)
        ensures
            final(self)@ == old(self)@.with_pane_in_front(tab, pane),
            old(self)@.wf() ==> final(self)@.wf(),
    {
        let i: usize = self.tab_index(tab);
        if i < self.tabs.len() {
            let ghost before = self@;
            self.tabs[i].focused_pane = Some(pane);
            proof {
                assert(self@.tabs =~= before.with_pane_in_front(tab, pane).tabs);
            }
        }
    }
}

// -- names -------------------------------------------------------------------

/// Whether a space has this name.
pub open spec fn taken(ss: Seq<SpaceView>, name: Seq<char>) -> bool {
    exists|i: int| 0 <= i < ss.len() && (#[trigger] ss[i]).name == name
}

/// A name with a number behind it.
pub open spec fn numbered(base: Seq<char>, n: nat) -> Seq<char> {
    base + "-"@ + decimal(n)
}

/// Whether `n` is the first number, from two on, that makes a free name.
pub open spec fn first_free(ss: Seq<SpaceView>, base: Seq<char>, n: nat) -> bool {
    &&& 2 <= n
    &&& !taken(ss, numbered(base, n))
    &&& forall|m: nat| 2 <= m < n ==> taken(ss, #[trigger] numbered(base, m))
}

/// Whether `name` is what a space that asks for `base` is called: the base where it is free,
/// and otherwise the first numbered form of it that is.
pub open spec fn is_unique_name(ss: Seq<SpaceView>, base: Seq<char>, name: Seq<char>) -> bool {
    if !taken(ss, base) {
        name == base
    } else {
        exists|n: nat| #[trigger] first_free(ss, base, n) && name == numbered(base, n)
    }
}

/// What a space that asks for `base` is called.
pub open spec fn unique_name(ss: Seq<SpaceView>, base: Seq<char>) -> Seq<char> {
    choose|name: Seq<char>| is_unique_name(ss, base, name)
}

/// There is only one such name.
pub(crate) proof fn lemma_unique_name(ss: Seq<SpaceView>, base: Seq<char>, name: Seq<char>)
    requires
        is_unique_name(ss, base, name),
    ensures
        unique_name(ss, base) == name,
        !taken(ss, name),
{
    let u = unique_name(ss, base);
    assert(is_unique_name(ss, base, u));
    if taken(ss, base) {
        let a = choose|n: nat| #[trigger] first_free(ss, base, n) && name == numbered(base, n);
        let b = choose|n: nat| #[trigger] first_free(ss, base, n) && u == numbered(base, n);
        if a < b {
            assert(taken(ss, numbered(base, a)));
        }
        if b < a {
            assert(taken(ss, numbered(base, b)));
        }
    }
}

/// Where the space called this is.
spec fn holder(ss: Seq<SpaceView>, name: Seq<char>) -> int {
    choose|i: int| 0 <= i < ss.len() && (#[trigger] ss[i]).name == name
}

/// There are not more taken names than spaces.
pub(crate) proof fn lemma_taken_bound(ss: Seq<SpaceView>, base: Seq<char>, k: nat)
    requires
        forall|m: nat| 2 <= m < 2 + k ==> taken(ss, #[trigger] numbered(base, m)),
    ensures
        k <= ss.len(),
{
    let holders = Seq::new(k, |i: int| holder(ss, numbered(base, (i + 2) as nat)));
    assert forall|i: int| 0 <= i < k implies 0 <= #[trigger] holders[i] < ss.len()
        && ss[holders[i]].name == numbered(base, (i + 2) as nat) by {
        assert(taken(ss, numbered(base, (i + 2) as nat)));
    }
    assert(holders.no_duplicates()) by {
        assert forall|i: int, j: int|
            0 <= i < holders.len() && 0 <= j < holders.len() && i != j implies holders[i]
            != holders[j] by {
            if holders[i] == holders[j] {
                let a = numbered(base, (i + 2) as nat);
                let b = numbered(base, (j + 2) as nat);
                assert(a == b);
                let front = base + "-"@;
                let da = decimal((i + 2) as nat);
                let db = decimal((j + 2) as nat);
                assert(da =~= a.skip(front.len() as int));
                assert(db =~= b.skip(front.len() as int));
                lemma_decimal_is_injective((i + 2) as nat, (j + 2) as nat);
            }
        }
    }
    holders.unique_seq_to_set();
    let range = vstd::set_lib::set_int_range(0, ss.len() as int);
    vstd::set_lib::lemma_int_range(0, ss.len() as int);
    assert(holders.to_set().subset_of(range)) by {
        assert forall|x: int| holders.to_set().contains(x) implies range.contains(x) by {
            let i = choose|i: int| 0 <= i < holders.len() && holders[i] == x;
            assert(0 <= holders[i] < ss.len());
        }
    }
    vstd::set_lib::lemma_len_subset(holders.to_set(), range);
}

impl Session {
    /// The space called this.
    pub fn find_space_by_name(&self, name: &str) -> (r: Option<u64>)
        ensures
            match r {
                Some(id) => taken(self@.spaces, name@) && ({
                    let i = first_where(self@.spaces, named(name@));
                    i < self@.spaces.len() && self@.spaces[i].id == id
                }),
                None => !taken(self@.spaces, name@),
            },
    {
        let ghost p = named(name@);
        let mut i: usize = 0;
        while i < self.spaces.len()
            invariant
                i <= self.spaces@.len(),
                p == named(name@),
                forall|j: int| 0 <= j < i ==> (#[trigger] self@.spaces[j]).name != name@,
            decreases self.spaces@.len() - i,
        {
            if same(self.spaces[i].name.as_str(), name) {
                proof {
                    assert(self@.spaces[i as int].name == name@);
                    assert forall|j: int| 0 <= j < i implies !p(#[trigger] self@.spaces[j]) by {}
                    lemma_first_where_is(self@.spaces, p, i as int);
                }
                return Some(self.spaces[i].id);
            }
            i = i + 1;
        }
        None
    }

    /// A name for a space that no other has: names address spaces, so they must stay unique.
    pub fn unique_space_name(&self, base: &str) -> (r: String)
        requires
            self.spaces@.len() < u64::MAX - 2,
        ensures
            r@ == unique_name(self@.spaces, base@),
            !taken(self@.spaces, r@),
    {
        if self.find_space_by_name(base).is_none() {
            proof {
                lemma_unique_name(self@.spaces, base@, base@);
            }
            return owned(base);
        }
        let mut n: u64 = 2;
        loop
            invariant
                self.spaces@.len() < u64::MAX - 2,
                2 <= n <= self.spaces@.len() + 2,
                taken(self@.spaces, base@),
                forall|m: nat| 2 <= m < n ==> taken(self@.spaces, #[trigger] numbered(base@, m)),
            decreases self.spaces@.len() + 3 - n,
        {
            let mut cand = owned(base);
            cand.append("-");
            cand.append(number(n).as_str());
            if self.find_space_by_name(cand.as_str()).is_none() {
                proof {
                    assert(first_free(self@.spaces, base@, n as nat));
                    lemma_unique_name(self@.spaces, base@, cand@);
                }
                return cand;
            }
            proof {
                assert(taken(self@.spaces, numbered(base@, n as nat)));
                assert forall|m: nat| 2 <= m < 2 + (n - 1) as nat implies taken(
                    self@.spaces,
                    #[trigger] numbered(base@, m),
                ) by {
                    if m == n {
                        assert(taken(self@.spaces, numbered(base@, n as nat)));
                    }
                }
                lemma_taken_bound(self@.spaces, base@, (n - 1) as nat);
            }
            n = n + 1;
        }
    }
}

// -- geometry ----------------------------------------------------------------

/// The smaller of two widths.
pub open spec fn narrower(a: u16, b: u16) -> u16 {
    if a <= b {
        a
    } else {
        b
    }
}

/// Where the regions of a screen sit: a row at the top for the tabs and one at the bottom for
/// the status where there are rows to spare, the sidebar on the left, the bus on the right
/// where that leaves room for panes, and the panes in what is left.
pub open spec fn chrome_of(
    bars: Bars,
    cols: u16,
    rows: u16,
    has_tabs: bool,
    view: ViewState,
) -> Chrome {
    let tabbed = bars.tab_bar && has_tabs && rows > 4;
    let stated = bars.status_bar && rows > 4;
    let top = if tabbed {
        1u16
    } else {
        0u16
    };
    let bottom = if stated {
        (rows - 1) as u16
    } else {
        rows
    };
    let body = less(bottom, top as int);
    let side = narrower(view.sidebar_width, (cols / 3) as u16);
    let has_side = view.sidebar_open && side >= MIN_SIDEBAR;
    let left = if has_side {
        side
    } else {
        0u16
    };
    let bus = narrower(view.bus_width, (cols / 3) as u16);
    let has_bus = view.bus_open && less(cols, left as int) > bus + MIN_PANES;
    let right = if has_bus {
        (cols - bus) as u16
    } else {
        cols
    };
    Chrome {
        tabbar: if tabbed {
            Rect { x: 0, y: 0, w: cols, h: 1 }
        } else {
            no_rect()
        },
        status: if stated {
            Rect { x: 0, y: bottom, w: cols, h: 1 }
        } else {
            no_rect()
        },
        sidebar: if has_side {
            Rect { x: 0, y: top, w: side, h: body }
        } else {
            no_rect()
        },
        bus: if has_bus {
            Rect { x: right, y: top, w: bus, h: body }
        } else {
            no_rect()
        },
        panes: Rect { x: left, y: top, w: less(right, left as int), h: body },
    }
}

/// Where the regions of a screen sit.
pub fn chrome_for(bars: Bars, cols: u16, rows: u16, has_tabs: bool, view: ViewState) -> (r: Chrome)
    ensures
        r == chrome_of(bars, cols, rows, has_tabs, view),
{
    let none = Rect::new(0, 0, 0, 0);
    let mut c = Chrome { tabbar: none, sidebar: none, bus: none, status: none, panes: none };
    let mut top: u16 = 0;
    let mut bottom: u16 = rows;
    if bars.tab_bar && has_tabs && rows > 4 {
        c.tabbar = Rect::new(0, 0, cols, 1);
        top = 1;
    }
    if bars.status_bar && rows > 4 {
        bottom = bottom - 1;
        c.status = Rect::new(0, bottom, cols, 1);
    }
    let body_h: u16 = bottom.saturating_sub(top);
    let mut left: u16 = 0;
    let mut right: u16 = cols;
    // Panels only appear when there is room left for a usable pane area.
    if view.sidebar_open {
        let w: u16 = if view.sidebar_width <= cols / 3 {
            view.sidebar_width
        } else {
            cols / 3
        };
        if w >= MIN_SIDEBAR {
            c.sidebar = Rect::new(0, top, w, body_h);
            left = w;
        }
    }
    if view.bus_open {
        let w: u16 = if view.bus_width <= cols / 3 {
            view.bus_width
        } else {
            cols / 3
        };
        if right.saturating_sub(left) > w + MIN_PANES {
            right = right - w;
            c.bus = Rect::new(right, top, w, body_h);
        }
    }
    c.panes = Rect::new(left, top, right.saturating_sub(left), body_h);
    c
}

impl SessionView {
    /// Whether the space in front has tabs.
    pub open spec fn has_tabs(self) -> bool {
        match self.focused_space {
            Some(s) if self.has_space(s) => self.spaces[self.space_at(s)].tabs.len() > 0,
            _ => false,
        }
    }

    /// The same, with the regions of the screen worked out again.
    pub open spec fn laid_out(self, bars: Bars) -> SessionView {
        SessionView {
            chrome: chrome_of(
                bars,
                self.client_cols,
                self.client_rows,
                self.has_tabs(),
                self.view,
            ),
            ..self
        }
    }
}

impl Session {
    /// Recompute the regions of the screen. Every structural change funnels through here; the
    /// sizes of the panes follow with [`Session::place`].
    pub fn relayout(&mut self, bars: Bars)
        ensures
            final(self)@ == old(self)@.laid_out(bars),
            old(self)@.wf() ==> final(self)@.wf(),
    {
        // Only spend a row on the tab bar when the focused space actually has tabs.
        let has_tabs = match self.focused_space {
            Some(id) => match self.space(id) {
                Some(s) => s.tabs.len() > 0,
                None => false,
            },
            None => false,
        };
        self.chrome =
        chrome_for(bars, self.client_cols, self.client_rows, has_tabs, self.view);
    }

    /// The pane that has the whole room, where it is in front.
    fn zoomed(&self) -> (r: Option<u64>)
        ensures
            r == self@.zoomed_in_front(),
    {
        match self.view.zoom {
            Some(z) => match self.focused_tab() {
                Some(id) => match self.tab(id) {
                    Some(t) => if t.layout.contains(z) {
                        Some(z)
                    } else {
                        None
                    },
                    None => None,
                },
                None => None,
            },
            None => None,
        }
    }

    /// Cell and content rects for the panes currently on screen. `tiles` is what the layout of
    /// the tab in front comes to in the region for panes, and counts unless one pane has the
    /// whole of it.
    pub fn visible_rects(&self, bars: Bars, tiles: &Vec<(u64, Rect)>) -> (r: Vec<(u64, Rect, Rect)>)
        ensures
            r@ == rects_of(self@, bars, tiles@),
    {
        let mut out: Vec<(u64, Rect, Rect)> = Vec::new();
        if self.focused_tab().is_none() {
            proof {
                assert(out@ =~= rects_of(self@, bars, tiles@));
            }
            return out;
        }
        if let Some(z) = self.zoomed() {
            let cell = self.chrome.panes;
            let content = if bars.pane_titles {
                cell.inset()
            } else {
                cell
            };
            out.push((z, cell, content));
            proof {
                assert(out@ =~= rects_of(self@, bars, tiles@));
            }
            return out;
        }
        let mut i: usize = 0;
        while i < tiles.len()
            invariant
                i <= tiles@.len(),
                out@.len() == i,
                forall|j: int|
                    0 <= j < i ==> #[trigger] out@[j] == framed(bars, tiles@[j].0, tiles@[j].1),
            decreases tiles@.len() - i,
        {
            let (p, cell) = tiles[i];
            let content = if bars.pane_titles {
                cell.inset()
            } else {
                cell
            };
            out.push((p, cell, content));
            i = i + 1;
        }
        proof {
            assert(out@ =~= rects_of(self@, bars, tiles@));
        }
        out
    }

    /// Give the panes on screen the sizes that their rects come to, and have their programs
    /// told: a pane's size and its drawn rect can never drift apart.
    pub fn place(&mut self, bars: Bars, tiles: &Vec<(u64, Rect)>)
        ensures
            final(self)@ == placed(
                old(self)@,
                rects_of(old(self)@, bars, tiles@),
                rects_of(old(self)@, bars, tiles@).len() as int,
            ),
            old(self)@.wf() ==> final(self)@.wf(),
    {
        let rects = self.visible_rects(bars, tiles);
        let mut i: usize = 0;
        while i < rects.len()
            invariant
                i <= rects@.len(),
                self@ == placed(old(self)@, rects@, i as int),
                old(self)@.wf() ==> self@.wf(),
            decreases rects@.len() - i,
        {
            let (id, cell, content) = rects[i];
            self.resize(id, content.w, content.h);
            i = i + 1;
        }
    }

    /// Give a pane a size, never too small to draw in, and have its program told where that is
    /// a change.
    pub fn resize(&mut self, id: u64, cols: u16, rows: u16)
        ensures
            final(self)@ == resized(old(self)@, id, cols, rows),
            old(self)@.wf() ==> final(self)@.wf(),
    {
        let c: u16 = if cols < MIN_COLS {
            MIN_COLS
        } else {
            cols
        };
        let r: u16 = if rows < MIN_ROWS {
            MIN_ROWS
        } else {
            rows
        };
        let i: usize = self.pane_index(id);
        if i < self.panes.len() && !(self.panes[i].life.cols == c && self.panes[i].life.rows
            == r) {
            let ghost before = self@;
            self.panes[i].life.cols = c;
            self.panes[i].life.rows = r;
            self.effects.push(Effect::Resize { pane: id, cols: c, rows: r });
            proof {
                assert(self@.panes =~= resized(before, id, cols, rows).panes);
                assert(self@.effects =~= resized(before, id, cols, rows).effects);
                lemma_resized_wf(before, id, cols, rows);
            }
        }
    }
}

/// The narrowest and lowest a pane gets.
pub const MIN_COLS: u16 = 2;

pub const MIN_ROWS: u16 = 1;

/// A pane's cell, and what is left in it for the program.
pub open spec fn framed(bars: Bars, pane: u64, cell: Rect) -> (u64, Rect, Rect) {
    (
        pane,
        cell,
        if bars.pane_titles {
            cell.inside()
        } else {
            cell
        },
    )
}

impl SessionView {
    /// The pane that has the whole room, where it is in front.
    pub open spec fn zoomed_in_front(self) -> Option<u64> {
        match self.view.zoom {
            Some(z) if self.in_front().contains(z) => Some(z),
            _ => None,
        }
    }
}

/// Cell and content rects for the panes on screen.
pub open spec fn rects_of(s: SessionView, bars: Bars, tiles: Seq<(u64, Rect)>) -> Seq<
    (u64, Rect, Rect),
> {
    if s.front_tab() is None {
        Seq::empty()
    } else {
        match s.zoomed_in_front() {
            Some(z) => seq![framed(bars, z, s.chrome.panes)],
            None => Seq::new(tiles.len(), |i: int| framed(bars, tiles[i].0, tiles[i].1)),
        }
    }
}

/// The larger of two.
pub open spec fn at_least(a: u16, b: u16) -> u16 {
    if a < b {
        b
    } else {
        a
    }
}

/// A session with a pane given a size.
pub open spec fn resized(s: SessionView, id: u64, cols: u16, rows: u16) -> SessionView {
    let i = s.pane_at(id);
    let c = at_least(cols, MIN_COLS);
    let r = at_least(rows, MIN_ROWS);
    if i < s.panes.len() && !(s.panes[i].life.cols == c && s.panes[i].life.rows == r) {
        SessionView {
            panes: s.panes.update(
                i,
                PaneView {
                    life: PaneLifeView { cols: c, rows: r, ..s.panes[i].life },
                    ..s.panes[i]
                },
            ),
            effects: s.effects.push(EffectView::Resize { pane: id, cols: c, rows: r }),
            ..s
        }
    } else {
        s
    }
}

/// A session with the first `n` of these panes given the sizes of their rects.
pub open spec fn placed(s: SessionView, rects: Seq<(u64, Rect, Rect)>, n: int) -> SessionView
    decreases n,
{
    if n <= 0 {
        s
    } else {
        let (id, cell, content) = rects[n - 1];
        resized(placed(s, rects, n - 1), id, content.w, content.h)
    }
}

// -- well-formedness ---------------------------------------------------------

impl SessionView {
    /// Ids are in order and unique, the next ones are new, no two spaces share a name, and none
    /// has more tabs than there were ids for.
    pub open spec fn wf(self) -> bool {
        &&& forall|i: int, j: int|
            0 <= i < j < self.spaces.len() ==> (#[trigger] self.spaces[i]).id < (
            #[trigger] self.spaces[j]).id
        &&& forall|i: int, j: int|
            0 <= i < j < self.tabs.len() ==> (#[trigger] self.tabs[i]).id < (
            #[trigger] self.tabs[j]).id
        &&& forall|i: int, j: int|
            0 <= i < j < self.panes.len() ==> (#[trigger] self.panes[i]).id < (
            #[trigger] self.panes[j]).id
        &&& forall|i: int|
            0 <= i < self.spaces.len() ==> (#[trigger] self.spaces[i]).id < self.next_space
        &&& forall|i: int| 0 <= i < self.tabs.len() ==> (#[trigger] self.tabs[i]).id < self.next_tab
        &&& forall|i: int|
            0 <= i < self.panes.len() ==> (#[trigger] self.panes[i]).id < self.next_pane
        &&& forall|i: int, j: int|
            0 <= i < j < self.spaces.len() ==> (#[trigger] self.spaces[i]).name != (
            #[trigger] self.spaces[j]).name
        &&& forall|i: int|
            0 <= i < self.spaces.len() ==> (#[trigger] self.spaces[i]).tabs.len() < self.next_tab
        &&& self.next_tab > 0
    }

    /// There are ids left to give to a tab and a pane.
    pub open spec fn has_ids(self) -> bool {
        self.next_tab < u64::MAX && self.next_pane < u64::MAX
    }

    /// And one to give to a space.
    pub open spec fn has_space_ids(self) -> bool {
        self.next_space < u64::MAX - 2
    }
}

// -- creation ----------------------------------------------------------------

/// Why the session refused.
#[derive(Debug, Clone, PartialEq, Eq)]
pub enum SessionError {
    NoSuchSpace,
    /// No pane was named, and none is in front.
    NoPane,
    NoSuchPane,
    NoRoom,
    NoTab,
    /// No layout has that name.
    UnknownLayout(String),
    /// The layout wants panes that are not there.
    BadLayout(String),
}

/// The same, as text.
pub enum SessionErrorView {
    NoSuchSpace,
    NoPane,
    NoSuchPane,
    NoRoom,
    NoTab,
    UnknownLayout(Seq<char>),
    BadLayout(Seq<char>),
}

impl View for SessionError {
    type V = SessionErrorView;

    open spec fn view(&self) -> SessionErrorView {
        match *self {
            SessionError::NoSuchSpace => SessionErrorView::NoSuchSpace,
            SessionError::NoPane => SessionErrorView::NoPane,
            SessionError::NoSuchPane => SessionErrorView::NoSuchPane,
            SessionError::NoRoom => SessionErrorView::NoRoom,
            SessionError::NoTab => SessionErrorView::NoTab,
            SessionError::UnknownLayout(s) => SessionErrorView::UnknownLayout(s@),
            SessionError::BadLayout(s) => SessionErrorView::BadLayout(s@),
        }
    }
}

impl SessionErrorView {
    /// The sentence a person is shown.
    pub open spec fn message(self) -> Seq<char> {
        match self {
            SessionErrorView::NoSuchSpace => "no such space"@,
            SessionErrorView::NoPane => "no pane"@,
            SessionErrorView::NoSuchPane => "no such pane"@,
            SessionErrorView::NoRoom =>
                "not enough room to split — try zooming out or closing a pane"@,
            SessionErrorView::NoTab => "no tab"@,
            SessionErrorView::UnknownLayout(s) => "unknown layout "@ + quoted(s)
                + " (solo, duo, trio, dev, quad)"@,
            SessionErrorView::BadLayout(s) => "could not build layout "@ + quoted(s),
        }
    }
}

impl SessionError {
    /// The sentence a person is shown.
    pub fn message(&self) -> (r: String)
        ensures
            r@ == self@.message(),
    {
        match self {
            SessionError::NoSuchSpace => owned("no such space"),
            SessionError::NoPane => owned("no pane"),
            SessionError::NoSuchPane => owned("no such pane"),
            SessionError::NoRoom => owned(
                "not enough room to split — try zooming out or closing a pane",
            ),
            SessionError::NoTab => owned("no tab"),
            SessionError::UnknownLayout(s) => {
                let mut m = owned("unknown layout ");
                m.append(quote(s.as_str()).as_str());
                m.append(" (solo, duo, trio, dev, quad)");
                m
            },
            SessionError::BadLayout(s) => {
                let mut m = owned("could not build layout ");
                m.append(quote(s.as_str()).as_str());
                m
            },
        }
    }
}

/// A result, as values.
pub open spec fn outcome(r: Result<u64, SessionError>) -> Result<u64, SessionErrorView> {
    match r {
        Ok(x) => Ok(x),
        Err(e) => Err(e@),
    }
}

/// The pane in front of a tab.
pub open spec fn front_of(s: SessionView, tab: u64) -> Option<u64> {
    let k = s.tab_at(tab);
    if k < s.tabs.len() {
        s.tabs[k].focused_pane
    } else {
        None
    }
}

/// A session with a new pane, attached to no layout.
pub open spec fn spawned(
    s: SessionView,
    space: u64,
    tab: u64,
    cmd: Seq<char>,
    cwd: Seq<char>,
) -> SessionView {
    SessionView {
        panes: s.panes.push(
            PaneView { id: s.next_pane, tab, space, cmd, cwd, name: None, life: newborn() },
        ),
        next_pane: (s.next_pane + 1) as u64,
        effects: s.effects.push(
            EffectView::Spawn { pane: s.next_pane, cmd, cwd, front: front_of(s, tab) },
        ),
        ..s
    }
}

/// A session with a new tab in front of its space, with one pane in it.
pub open spec fn with_tab(
    s: SessionView,
    bars: Bars,
    shell: Seq<char>,
    space: u64,
    name: Option<Seq<char>>,
) -> (SessionView, Result<u64, SessionErrorView>) {
    let i = s.space_at(space);
    if i >= s.spaces.len() {
        (s, Err(SessionErrorView::NoSuchSpace))
    } else {
        let id = s.next_tab;
        let pane = s.next_pane;
        let sp = s.spaces[i];
        let t = spawned(s, space, id, shell, sp.cwd);
        let after = SessionView {
            tabs: s.tabs.push(
                TabView {
                    id,
                    space,
                    name: match name {
                        Some(n) => n,
                        None => decimal(sp.tabs.len() + 1),
                    },
                    layout: Layout { tree: Some(Node::Leaf(pane)) },
                    focused_pane: Some(pane),
                },
            ),
            spaces: s.spaces.update(
                i,
                SpaceView { tabs: sp.tabs.push(id), focused_tab: Some(id), ..sp },
            ),
            next_tab: (id + 1) as u64,
            ..t
        };
        (after.laid_out(bars), Ok(id))
    }
}

/// What a new space is to be called, before that is made unique: what was asked, or the name
/// of its directory, or its number.
pub open spec fn base_name(id: u64, name: Option<Seq<char>>, cwd: Seq<char>) -> Seq<char> {
    match name {
        Some(n) => n,
        None => match file_name(cwd) {
            Some(f) => f,
            None => "space"@ + decimal(id as nat),
        },
    }
}

/// A session with a new space in front, without tabs yet.
pub open spec fn with_empty_space(
    s: SessionView,
    name: Option<Seq<char>>,
    cwd: Seq<char>,
) -> SessionView {
    let id = s.next_space;
    SessionView {
        spaces: s.spaces.push(
            SpaceView {
                id,
                name: unique_name(s.spaces, base_name(id, name, cwd)),
                cwd,
                tabs: Seq::empty(),
                focused_tab: None,
            },
        ),
        focused_space: Some(id),
        next_space: (id + 1) as u64,
        ..s
    }
}

/// A session with a new space in front, with one tab in it.
pub open spec fn with_space(
    s: SessionView,
    bars: Bars,
    shell: Seq<char>,
    name: Option<Seq<char>>,
    cwd: Seq<char>,
) -> SessionView {
    with_tab(with_empty_space(s, name, cwd), bars, shell, s.next_space, None).0
}

/// What splitting a pane does: the new one starts where the one beside it is.
pub open spec fn splitting(
    s: SessionView,
    bars: Bars,
    shell: Seq<char>,
    target: Option<u64>,
    dir: Dir,
    cmd: Option<Seq<char>>,
    fits: bool,
) -> (SessionView, Result<u64, SessionErrorView>) {
    splitting_in(s, bars, shell, target, dir, cmd, None, fits)
}

/// What splitting a pane does, with a directory for the new one. Zoom hides siblings, so it is
/// dropped first: splitting while zoomed would put the new pane somewhere invisible.
pub open spec fn splitting_in(
    s: SessionView,
    bars: Bars,
    shell: Seq<char>,
    target: Option<u64>,
    dir: Dir,
    cmd: Option<Seq<char>>,
    cwd: Option<Seq<char>>,
    fits: bool,
) -> (SessionView, Result<u64, SessionErrorView>) {
    let t = if target is Some {
        target
    } else {
        s.front_pane()
    };
    match t {
        None => (s, Err(SessionErrorView::NoPane)),
        Some(t) => if !s.has_pane(t) {
            (s, Err(SessionErrorView::NoSuchPane))
        } else {
            let p = s.panes[s.pane_at(t)];
            let u = unzoomed(s, bars);
            let k = u.tab_at(p.tab);
            if !fits || k >= u.tabs.len() {
                (u, Err(SessionErrorView::NoRoom))
            } else {
                let new = s.next_pane;
                let c = match cmd {
                    Some(c) => c,
                    None => shell,
                };
                let at = match cwd {
                    Some(d) => d,
                    None => p.cwd,
                };
                let v = spawned(u, p.space, p.tab, c, at);
                let tab = u.tabs[k];
                let after = SessionView {
                    tabs: u.tabs.update(
                        k,
                        TabView {
                            layout: Layout {
                                tree: match tab.layout.tree {
                                    Some(n) => Some(n.divided(t, dir, new)),
                                    None => None,
                                },
                            },
                            focused_pane: Some(new),
                            ..tab
                        },
                    ),
                    ..v
                };
                (after.laid_out(bars), Ok(new))
            }
        },
    }
}

/// A session with no pane zoomed.
pub open spec fn unzoomed(s: SessionView, bars: Bars) -> SessionView {
    if s.view.zoom is Some {
        SessionView { view: ViewState { zoom: None, ..s.view }, ..s }.laid_out(bars)
    } else {
        s
    }
}

impl Session {
    /// A session with nothing in it.
    pub fn new(sidebar: bool, bus: bool, sidebar_width: u16, bus_width: u16) -> (r: Session)
        ensures
            r@.wf(),
            r@ == (SessionView {
                spaces: Seq::empty(),
                tabs: Seq::empty(),
                panes: Seq::empty(),
                focused_space: None,
                view: ViewState {
                    sidebar_open: sidebar,
                    bus_open: bus,
                    sidebar_width,
                    bus_width,
                    zoom: None,
                },
                chrome: Chrome {
                    tabbar: no_rect(),
                    sidebar: no_rect(),
                    bus: no_rect(),
                    status: no_rect(),
                    panes: no_rect(),
                },
                client_cols: DETACHED_COLS,
                client_rows: DETACHED_ROWS,
                next_space: 1,
                next_tab: 1,
                next_pane: 1,
                looks: Map::empty(),
                effects: Seq::empty(),
            }),
    {
        let none = Rect::new(0, 0, 0, 0);
        let s = Session {
            spaces: Vec::new(),
            tabs: Vec::new(),
            panes: Vec::new(),
            focused_space: None,
            view: ViewState {
                sidebar_open: sidebar,
                bus_open: bus,
                sidebar_width,
                bus_width,
                zoom: None,
            },
            chrome: Chrome { tabbar: none, sidebar: none, bus: none, status: none, panes: none },
            client_cols: DETACHED_COLS,
            client_rows: DETACHED_ROWS,
            next_space: 1,
            next_tab: 1,
            next_pane: 1,
            looks: HashMap::new(),
            effects: Vec::new(),
        };
        proof {
            assert(s@.spaces =~= Seq::<SpaceView>::empty());
            assert(s@.tabs =~= Seq::<TabView>::empty());
            assert(s@.panes =~= Seq::<PaneView>::empty());
            assert(s@.effects =~= Seq::<EffectView>::empty());
        }
        s
    }

    /// Start a pane without attaching it to a layout.
    pub fn spawn_pane(&mut self, space: u64, tab: u64, cmd: &str, cwd: &str) -> (r: u64)
        requires
            old(self)@.wf(),
            old(self)@.next_pane < u64::MAX,
        ensures
            r == old(self)@.next_pane,
            final(self)@ == spawned(old(self)@, space, tab, cmd@, cwd@),
            final(self)@.wf(),
    {
        let id: u64 = self.next_pane;
        let ghost before = self@;
        let k: usize = self.tab_index(tab);
        let front: Option<u64> = if k < self.tabs.len() {
            self.tabs[k].focused_pane
        } else {
            None
        };
        self.next_pane = id + 1;
        self.panes.push(
            Pane {
                id,
                tab,
                space,
                cmd: owned(cmd),
                cwd: owned(cwd),
                name: None,
                life: PaneLife::new(),
            },
        );
        self.effects.push(Effect::Spawn { pane: id, cmd: owned(cmd), cwd: owned(cwd), front });
        proof {
            let want = spawned(before, space, tab, cmd@, cwd@);
            assert(self@.panes =~= want.panes);
            assert(self@.effects =~= want.effects);
        }
        id
    }

    /// Make a tab in a space, in front of it.
    pub fn create_tab(&mut self, bars: Bars, shell: &str, space: u64, name: Option<&str>) -> (r:
        Result<u64, SessionError>)
        requires
            old(self)@.wf(),
            old(self)@.has_ids(),
        ensures
            (final(self)@, outcome(r)) == with_tab(
                old(self)@,
                bars,
                shell@,
                space,
                opt_str(name),
            ),
            final(self)@.wf(),
    {
        let i: usize = self.space_index(space);
        if i == self.spaces.len() {
            return Err(SessionError::NoSuchSpace);
        }
        let ghost before = self@;
        let cwd = self.spaces[i].cwd.clone();
        let id: u64 = self.next_tab;
        let n: usize = self.spaces[i].tabs.len();
        let name = match name {
            Some(n) => owned(n),
            None => {
                proof {
                    assert(before.spaces[i as int].tabs.len() == n);
                }
                number(n as u64 + 1)
            },
        };
        self.next_tab = id + 1;
        let pane: u64 = self.spawn_pane(space, id, shell, cwd.as_str());
        self.tabs.push(
            Tab { id, space, name, layout: Layout::single(pane), focused_pane: Some(pane) },
        );
        self.spaces[i].tabs.push(id);
        self.spaces[i].focused_tab = Some(id);
        proof {
            let t = spawned(before, space, id, shell@, before.spaces[i as int].cwd);
            assert(self@.tabs =~= before.tabs.push(self@.tabs.last()));
            assert(self@.spaces =~= before.spaces.update(
                i as int,
                SpaceView {
                    tabs: before.spaces[i as int].tabs.push(id),
                    focused_tab: Some(id),
                    ..before.spaces[i as int]
                },
            ));
        }
        self.relayout(bars);
        Ok(id)
    }
}

/// There are not more spaces than ids given.
pub(crate) proof fn lemma_ids_bound(s: SessionView, i: int)
    requires
        s.wf(),
        0 <= i < s.spaces.len(),
    ensures
        i <= s.spaces[i].id,
        i < s.next_space,
    decreases i,
{
    if i > 0 {
        lemma_ids_bound(s, i - 1);
        assert(s.spaces[i - 1].id < s.spaces[i].id);
    }
}

impl Session {
    /// Make a space and go there: otherwise the next split or spawned agent lands somewhere
    /// you did not ask for.
    pub fn create_space(&mut self, bars: Bars, shell: &str, name: Option<&str>, cwd: &str) -> (r:
        Result<u64, SessionError>)
        requires
            old(self)@.wf(),
            old(self)@.has_ids(),
            old(self)@.has_space_ids(),
        ensures
            r == Ok::<u64, SessionError>(old(self)@.next_space),
            final(self)@ == with_space(old(self)@, bars, shell@, opt_str(name), cwd@),
            final(self)@.wf(),
    {
        let ghost before = self@;
        let id: u64 = self.next_space;
        let base = match name {
            Some(n) => owned(n),
            None => match name_in(cwd) {
                Some(f) => f,
                None => {
                    let mut b = owned("space");
                    b.append(number(id).as_str());
                    b
                },
            },
        };
        proof {
            if before.spaces.len() > 0 {
                lemma_ids_bound(before, before.spaces.len() - 1);
            }
        }
        let unique = self.unique_space_name(base.as_str());
        self.next_space = id + 1;
        self.spaces.push(
            Space { id, name: unique, cwd: owned(cwd), tabs: Vec::new(), focused_tab: None },
        );
        self.focused_space = Some(id);
        proof {
            let want = with_empty_space(before, opt_str(name), cwd@);
            assert(self@.spaces.last().tabs =~= Seq::<u64>::empty());
            assert(self@.spaces =~= want.spaces);
            assert(self@ == want);
            assert forall|i: int, j: int| 0 <= i < j < self@.spaces.len() implies (
            #[trigger] self@.spaces[i]).name != (#[trigger] self@.spaces[j]).name by {
                if j == before.spaces.len() {
                    assert(self@.spaces[i] == before.spaces[i]);
                    assert(!taken(before.spaces, unique@));
                }
            }
            assert(self@.wf());
            lemma_first_where(self@.spaces, space_is(id));
            let k = before.spaces.len() as int;
            assert(space_is(id)(self@.spaces[k]));
            if self@.space_at(id) > k {
                assert(!space_is(id)(self@.spaces[k]));
            }
        }
        match self.create_tab(bars, shell, id, None) {
            Ok(tab) => Ok(id),
            Err(e) => Err(e),
        }
    }

    /// Give a tab another layout, with a pane in front.
    pub(crate) fn set_tab(&mut self, k: usize, layout: Layout, front: Option<u64>)
        requires
            k < old(self).tabs@.len(),
        ensures
            final(self)@ == (SessionView {
                tabs: old(self)@.tabs.update(
                    k as int,
                    TabView { layout, focused_pane: front, ..old(self)@.tabs[k as int] },
                ),
                ..old(self)@
            }),
            old(self)@.wf() ==> final(self)@.wf(),
    {
        let ghost before = self@;
        self.tabs[k].layout = layout;
        self.tabs[k].focused_pane = front;
        proof {
            assert(self@.tabs =~= before.tabs.update(
                k as int,
                TabView { layout, focused_pane: front, ..before.tabs[k as int] },
            ));
        }
    }

    /// Zoom no pane.
    fn drop_zoom(&mut self, bars: Bars)
        ensures
            final(self)@ == unzoomed(old(self)@, bars),
            old(self)@.wf() ==> final(self)@.wf(),
    {
        if self.view.zoom.is_some() {
            self.view.zoom = None;
            self.relayout(bars);
        }
    }

    /// Split the focused pane (or `target`) and put a new pane beside it. `fits` says whether
    /// the layout has room for that.
    ///
    /// New panes inherit the cwd of the pane they split from, which is what you want when
    /// fanning out work in one project.
    pub fn split(
        &mut self,
        bars: Bars,
        shell: &str,
        target: Option<u64>,
        dir: Dir,
        cmd: Option<&str>,
        fits: bool,
    ) -> (r: Result<u64, SessionError>)
        requires
            old(self)@.wf(),
            old(self)@.has_ids(),
        ensures
            (final(self)@, outcome(r)) == splitting(
                old(self)@,
                bars,
                shell@,
                target,
                dir,
                opt_str(cmd),
                fits,
            ),
            final(self)@.wf(),
    {
        self.split_in(bars, shell, target, dir, cmd, None, fits)
    }

    /// [`Session::split`], with a directory for the new pane.
    pub fn split_in(
        &mut self,
        bars: Bars,
        shell: &str,
        target: Option<u64>,
        dir: Dir,
        cmd: Option<&str>,
        cwd: Option<&str>,
        fits: bool,
    ) -> (r: Result<u64, SessionError>)
        requires
            old(self)@.wf(),
            old(self)@.has_ids(),
        ensures
            (final(self)@, outcome(r)) == splitting_in(
                old(self)@,
                bars,
                shell@,
                target,
                dir,
                opt_str(cmd),
                opt_str(cwd),
                fits,
            ),
            final(self)@.wf(),
    {
        let ghost before = self@;
        let target = match target {
            Some(t) => t,
            None => match self.focused_pane() {
                Some(t) => t,
                None => {
                    return Err(SessionError::NoPane);
                },
            },
        };
        let i: usize = self.pane_index(target);
        if i == self.panes.len() {
            return Err(SessionError::NoSuchPane);
        }
        let space: u64 = self.panes[i].space;
        let tab: u64 = self.panes[i].tab;
        let at = match cwd {
            Some(d) => owned(d),
            None => self.panes[i].cwd.clone(),
        };
        let cmd = match cmd {
            Some(c) => owned(c),
            None => owned(shell),
        };
        self.drop_zoom(bars);
        let k: usize = self.tab_index(tab);
        if !fits || k == self.tabs.len() {
            return Err(SessionError::NoRoom);
        }
        let new: u64 = self.spawn_pane(space, tab, cmd.as_str(), at.as_str());
        let mut layout = self.tabs[k].layout.copy();
        layout.split(target, dir, new);
        self.set_tab(k, layout, Some(new));
        self.relayout(bars);
        Ok(new)
    }
}

// -- destruction -------------------------------------------------------------

/// A session with what runs in a pane stopped, and the pane gone.
pub open spec fn killed(s: SessionView, pane: u64) -> SessionView {
    let i = s.pane_at(pane);
    if i < s.panes.len() {
        SessionView {
            panes: s.panes.remove(i),
            effects: s.effects.push(EffectView::Kill(pane)),
            ..s
        }
    } else {
        s
    }
}

/// The same for the first `n` of several panes.
pub open spec fn killed_all(s: SessionView, panes: Seq<u64>, n: int) -> SessionView
    decreases n,
{
    if n <= 0 {
        s
    } else {
        killed(killed_all(s, panes, n - 1), panes[n - 1])
    }
}

/// This id.
pub open spec fn id_is(x: u64) -> spec_fn(u64) -> bool {
    |t: u64| t == x
}

/// What follows something that was at `i`: what took its place, or else what stood before it.
pub open spec fn heir(s: Seq<u64>, i: int) -> Option<u64> {
    if i < s.len() {
        Some(s[i])
    } else if 0 <= i - 1 < s.len() {
        Some(s[i - 1])
    } else {
        None
    }
}

/// A session without a tab and its panes.
pub open spec fn tab_dropped(s: SessionView, tab: u64) -> SessionView {
    let k = s.tab_at(tab);
    if k < s.tabs.len() {
        let order = s.tabs[k].layout.order();
        let t = killed_all(s, order, order.len() as int);
        SessionView { tabs: s.tabs.remove(k), ..t }
    } else {
        s
    }
}

/// A session without the first `n` of several tabs and their panes.
pub open spec fn tabs_dropped(s: SessionView, tabs: Seq<u64>, n: int) -> SessionView
    decreases n,
{
    if n <= 0 {
        s
    } else {
        tab_dropped(tabs_dropped(s, tabs, n - 1), tabs[n - 1])
    }
}

/// The ids of spaces.
pub open spec fn space_ids(ss: Seq<SpaceView>) -> Seq<u64> {
    Seq::new(ss.len(), |i: int| ss[i].id)
}

/// A session without a space: everything in it is gone, and where it was in front the space
/// that took its place is, or else the one before it.
pub open spec fn space_closed(s: SessionView, bars: Bars, space: u64) -> SessionView {
    let i = s.space_at(space);
    if i < s.spaces.len() {
        let tabs = s.spaces[i].tabs;
        let t = tabs_dropped(s, tabs, tabs.len() as int);
        let left = s.spaces.remove(i);
        SessionView {
            spaces: left,
            focused_space: if s.focused_space == Some(space) {
                heir(space_ids(left), i)
            } else {
                s.focused_space
            },
            ..t
        }.laid_out(bars)
    } else if s.focused_space == Some(space) {
        SessionView { focused_space: None, ..s }.laid_out(bars)
    } else {
        s.laid_out(bars)
    }
}

/// A space without a tab: where it was in front, the tab that took its place is, or else the
/// one before it.
pub open spec fn space_without_tab(sp: SpaceView, tab: u64) -> SpaceView {
    let at = first_where(sp.tabs, id_is(tab));
    let left = leaving_out(sp.tabs, tab);
    SpaceView {
        tabs: left,
        focused_tab: if sp.focused_tab == Some(tab) {
            if at < sp.tabs.len() {
                heir(left, at)
            } else {
                None
            }
        } else {
            sp.focused_tab
        },
        ..sp
    }
}

/// A session without a tab. A space whose last tab goes, goes too.
pub open spec fn tab_closed(s: SessionView, bars: Bars, tab: u64) -> SessionView {
    let k = s.tab_at(tab);
    if k >= s.tabs.len() {
        s
    } else {
        let space = s.tabs[k].space;
        let t = tab_dropped(s, tab);
        let i = t.space_at(space);
        if i < t.spaces.len() {
            let sp = space_without_tab(t.spaces[i], tab);
            let u = SessionView { spaces: t.spaces.update(i, sp), ..t };
            if sp.tabs.len() == 0 {
                space_closed(u, bars, space)
            } else {
                u.laid_out(bars)
            }
        } else {
            t.laid_out(bars)
        }
    }
}

/// A session without a pane: its neighbours get its room, and a tab whose last pane goes, goes
/// too.
pub open spec fn pane_closed(s: SessionView, bars: Bars, pane: u64) -> SessionView {
    let i = s.pane_at(pane);
    if i >= s.panes.len() {
        s
    } else {
        let tab = s.panes[i].tab;
        let t = SessionView {
            view: if s.view.zoom == Some(pane) {
                ViewState { zoom: None, ..s.view }
            } else {
                s.view
            },
            ..killed(s, pane)
        };
        let k = t.tab_at(tab);
        if k < t.tabs.len() {
            let old_tab = t.tabs[k];
            let layout = Layout {
                tree: match old_tab.layout.tree {
                    Some(n) => n.without(pane),
                    None => None,
                },
            };
            let front = if old_tab.focused_pane == Some(pane) {
                if layout.order().len() > 0 {
                    Some(layout.order()[0])
                } else {
                    None
                }
            } else {
                old_tab.focused_pane
            };
            let u = SessionView {
                tabs: t.tabs.update(k, TabView { layout, focused_pane: front, ..old_tab }),
                ..t
            };
            if layout.tree is None {
                tab_closed(u, bars, tab).laid_out(bars)
            } else {
                u.laid_out(bars)
            }
        } else {
            t.laid_out(bars)
        }
    }
}

/// A session without the first `n` of several panes.
pub open spec fn panes_closed(s: SessionView, bars: Bars, panes: Seq<u64>, n: int) -> SessionView
    decreases n,
{
    if n <= 0 {
        s
    } else {
        pane_closed(panes_closed(s, bars, panes, n - 1), bars, panes[n - 1])
    }
}

/// The panes whose programs have ended.
pub open spec fn dead(ps: Seq<PaneView>) -> Seq<u64> {
    pick(ps, |p: PaneView| p.life.exited, |p: PaneView| p.id)
}

/// Taking one out of a list that is in order leaves it in order.
pub(crate) proof fn lemma_wf_without_pane(s: SessionView, i: int, effects: Seq<EffectView>)
    requires
        s.wf(),
        0 <= i < s.panes.len(),
    ensures
        (SessionView { panes: s.panes.remove(i), effects, ..s }).wf(),
{
    let u = s.panes.remove(i);
    s.panes.remove_ensures(i);
    assert forall|a: int, b: int| 0 <= a < b < u.len() implies (#[trigger] u[a]).id < (
    #[trigger] u[b]).id by {
        let x = if a < i { a } else { a + 1 };
        let y = if b < i { b } else { b + 1 };
        assert(u[a] == s.panes[x] && u[b] == s.panes[y]);
    }
    assert forall|a: int| 0 <= a < u.len() implies (#[trigger] u[a]).id < s.next_pane by {
        let x = if a < i { a } else { a + 1 };
        assert(u[a] == s.panes[x]);
    }
}

/// A pane of another size keeps its id.
proof fn lemma_resized_wf(s: SessionView, id: u64, cols: u16, rows: u16)
    ensures
        s.wf() ==> resized(s, id, cols, rows).wf(),
{
    let t = resized(s, id, cols, rows);
    lemma_first_where(s.panes, pane_is(id));
    assert forall|k: int| 0 <= k < t.panes.len() implies (#[trigger] t.panes[k]).id
        == s.panes[k].id by {}
}

pub(crate) proof fn lemma_wf_without_tab(s: SessionView, k: int)
    requires
        s.wf(),
        0 <= k < s.tabs.len(),
    ensures
        (SessionView { tabs: s.tabs.remove(k), ..s }).wf(),
{
    let u = s.tabs.remove(k);
    s.tabs.remove_ensures(k);
    assert forall|a: int, b: int| 0 <= a < b < u.len() implies (#[trigger] u[a]).id < (
    #[trigger] u[b]).id by {
        let x = if a < k { a } else { a + 1 };
        let y = if b < k { b } else { b + 1 };
        assert(u[a] == s.tabs[x] && u[b] == s.tabs[y]);
    }
    assert forall|a: int| 0 <= a < u.len() implies (#[trigger] u[a]).id < s.next_tab by {
        let x = if a < k { a } else { a + 1 };
        assert(u[a] == s.tabs[x]);
    }
}

pub(crate) proof fn lemma_wf_without_space(s: SessionView, i: int, front: Option<u64>)
    requires
        s.wf(),
        0 <= i < s.spaces.len(),
    ensures
        (SessionView { spaces: s.spaces.remove(i), focused_space: front, ..s }).wf(),
{
    let u = s.spaces.remove(i);
    s.spaces.remove_ensures(i);
    assert forall|a: int, b: int| 0 <= a < b < u.len() implies (#[trigger] u[a]).id < (
    #[trigger] u[b]).id && u[a].name != u[b].name by {
        let x = if a < i { a } else { a + 1 };
        let y = if b < i { b } else { b + 1 };
        assert(u[a] == s.spaces[x] && u[b] == s.spaces[y]);
    }
    assert forall|a: int| 0 <= a < u.len() implies (#[trigger] u[a]).id < s.next_space
        && u[a].tabs.len() < s.next_tab by {
        let x = if a < i { a } else { a + 1 };
        assert(u[a] == s.spaces[x]);
    }
}

pub(crate) proof fn lemma_leaving_out_shorter(s: Seq<u64>, x: u64)
    ensures
        leaving_out(s, x).len() <= s.len(),
    decreases s.len(),
{
    if s.len() > 0 {
        lemma_leaving_out_shorter(s.drop_last(), x);
    }
}

pub(crate) proof fn lemma_killed_all_keeps(s: SessionView, panes: Seq<u64>, n: int)
    ensures
        ({
            let t = killed_all(s, panes, n);
            &&& t.spaces == s.spaces
            &&& t.tabs == s.tabs
            &&& t.focused_space == s.focused_space
            &&& t.view == s.view
            &&& t.chrome == s.chrome
            &&& t.client_cols == s.client_cols
            &&& t.client_rows == s.client_rows
            &&& t.next_space == s.next_space
            &&& t.next_tab == s.next_tab
            &&& t.next_pane == s.next_pane
        }),
    decreases n,
{
    if n > 0 {
        lemma_killed_all_keeps(s, panes, n - 1);
    }
}

pub(crate) proof fn lemma_tabs_dropped_keeps(s: SessionView, tabs: Seq<u64>, n: int)
    ensures
        ({
            let t = tabs_dropped(s, tabs, n);
            &&& t.spaces == s.spaces
            &&& t.focused_space == s.focused_space
            &&& t.view == s.view
            &&& t.client_cols == s.client_cols
            &&& t.client_rows == s.client_rows
            &&& t.next_space == s.next_space
            &&& t.next_tab == s.next_tab
            &&& t.next_pane == s.next_pane
        }),
    decreases n,
{
    if n > 0 {
        lemma_tabs_dropped_keeps(s, tabs, n - 1);
        let u = tabs_dropped(s, tabs, n - 1);
        let k = u.tab_at(tabs[n - 1]);
        if k < u.tabs.len() {
            let order = u.tabs[k].layout.order();
            lemma_killed_all_keeps(u, order, order.len() as int);
        }
    }
}

/// A list without one of its items.
fn without_id(v: &Vec<u64>, x: u64) -> (r: Vec<u64>)
    ensures
        r@ == leaving_out(v@, x),
{
    let mut out: Vec<u64> = Vec::new();
    let mut i: usize = 0;
    proof {
        assert(out@ =~= leaving_out(v@.take(0), x));
    }
    while i < v.len()
        invariant
            i <= v@.len(),
            out@ == leaving_out(v@.take(i as int), x),
        decreases v@.len() - i,
    {
        proof {
            assert(v@.take(i as int + 1).drop_last() =~= v@.take(i as int));
            assert(v@.take(i as int + 1).last() == v@[i as int]);
        }
        if v[i] != x {
            out.push(v[i]);
        }
        i = i + 1;
    }
    proof {
        assert(v@.take(v@.len() as int) =~= v@);
    }
    out
}

/// Where an item of a list is.
fn index_of(v: &Vec<u64>, x: u64) -> (r: usize)
    ensures
        r <= v@.len(),
        r == first_where(v@, id_is(x)),
{
    let mut i: usize = 0;
    while i < v.len() && v[i] != x
        invariant
            i <= v@.len(),
            forall|j: int| 0 <= j < i ==> !id_is(x)(#[trigger] v@[j]),
        decreases v@.len() - i,
    {
        i = i + 1;
    }
    proof {
        lemma_first_where_is(v@, id_is(x), i as int);
    }
    i
}

/// What follows something that was at `i`.
fn heir_of(v: &Vec<u64>, i: usize) -> (r: Option<u64>)
    ensures
        r == heir(v@, i as int),
{
    if i < v.len() {
        Some(v[i])
    } else if i > 0 && i - 1 < v.len() {
        Some(v[i - 1])
    } else {
        None
    }
}

impl Session {
    /// Stop what runs in a pane, and forget the pane.
    pub(crate) fn kill_pane(&mut self, pane: u64)
        requires
            old(self)@.wf(),
        ensures
            final(self)@ == killed(old(self)@, pane),
            final(self)@.wf(),
    {
        let i: usize = self.pane_index(pane);
        if i < self.panes.len() {
            let ghost before = self@;
            self.effects.push(Effect::Kill(pane));
            let gone = self.panes.remove(i);
            proof {
                assert(self@.panes =~= before.panes.remove(i as int));
                assert(self@.effects =~= before.effects.push(EffectView::Kill(pane)));
                lemma_wf_without_pane(before, i as int, self@.effects);
            }
        }
    }

    /// Take a tab and its panes out. The space still lists it.
    fn drop_tab(&mut self, tab: u64)
        requires
            old(self)@.wf(),
        ensures
            final(self)@ == tab_dropped(old(self)@, tab),
            final(self)@.wf(),
    {
        let k: usize = self.tab_index(tab);
        if k == self.tabs.len() {
            return;
        }
        let ghost before = self@;
        let panes = self.tabs[k].layout.panes();
        let mut i: usize = 0;
        while i < panes.len()
            invariant
                i <= panes@.len(),
                self@.wf(),
                self@ == killed_all(before, panes@, i as int),
            decreases panes@.len() - i,
        {
            self.kill_pane(panes[i]);
            i = i + 1;
        }
        proof {
            lemma_killed_all_keeps(before, panes@, i as int);
            lemma_wf_without_tab(self@, k as int);
        }
        let ghost mid = self@;
        let gone = self.tabs.remove(k);
        proof {
            assert(self@.tabs =~= mid.tabs.remove(k as int));
        }
    }

    /// Close a space and everything in it.
    pub fn close_space(&mut self, bars: Bars, space: u64)
        requires
            old(self)@.wf(),
        ensures
            final(self)@ == space_closed(old(self)@, bars, space),
            final(self)@.wf(),
    {
        let i: usize = self.space_index(space);
        let ghost before = self@;
        if i == self.spaces.len() {
            if self.focused_space == Some(space) {
                self.focused_space = None;
            }
            self.relayout(bars);
            return;
        }
        let mut tabs: Vec<u64> = Vec::new();
        let mut t: usize = 0;
        while t < self.spaces[i].tabs.len()
            invariant
                i < self.spaces@.len(),
                t <= self.spaces@[i as int].tabs@.len(),
                self@ == before,
                tabs@ == self.spaces@[i as int].tabs@.take(t as int),
            decreases self.spaces@[i as int].tabs@.len() - t,
        {
            tabs.push(self.spaces[i].tabs[t]);
            proof {
                self.spaces@[i as int].tabs@.lemma_take_succ_push(t as int);
            }
            t = t + 1;
        }
        proof {
            assert(tabs@ =~= before.spaces[i as int].tabs);
        }
        let mut t: usize = 0;
        while t < tabs.len()
            invariant
                t <= tabs@.len(),
                self@.wf(),
                self@ == tabs_dropped(before, tabs@, t as int),
            decreases tabs@.len() - t,
        {
            self.drop_tab(tabs[t]);
            t = t + 1;
        }
        proof {
            lemma_tabs_dropped_keeps(before, tabs@, t as int);
            assert(self.spaces@.len() == self@.spaces.len());
        }
        let ghost mid = self@;
        let gone = self.spaces.remove(i);
        proof {
            assert(self@.spaces =~= mid.spaces.remove(i as int));
        }
        if self.focused_space == Some(space) {
            let mut ids: Vec<u64> = Vec::new();
            let mut j: usize = 0;
            while j < self.spaces.len()
                invariant
                    j <= self.spaces@.len(),
                    ids@.len() == j,
                    forall|x: int| 0 <= x < j ==> #[trigger] ids@[x] == self@.spaces[x].id,
                decreases self.spaces@.len() - j,
            {
                ids.push(self.spaces[j].id);
                j = j + 1;
            }
            proof {
                assert(ids@ =~= space_ids(self@.spaces));
            }
            self.focused_space = heir_of(&ids, i);
        }
        proof {
            lemma_wf_without_space(mid, i as int, self@.focused_space);
        }
        self.relayout(bars);
    }

    /// Close a tab. A space whose last tab goes, goes too.
    pub fn close_tab(&mut self, bars: Bars, tab: u64)
        requires
            old(self)@.wf(),
        ensures
            final(self)@ == tab_closed(old(self)@, bars, tab),
            final(self)@.wf(),
    {
        let k: usize = self.tab_index(tab);
        if k == self.tabs.len() {
            return;
        }
        let space: u64 = self.tabs[k].space;
        self.drop_tab(tab);
        let ghost mid = self@;
        let i: usize = self.space_index(space);
        if i == self.spaces.len() {
            self.relayout(bars);
            return;
        }
        let at: usize = index_of(&self.spaces[i].tabs, tab);
        let left = without_id(&self.spaces[i].tabs, tab);
        let front: Option<u64> = if self.spaces[i].focused_tab == Some(tab) {
            if at < self.spaces[i].tabs.len() {
                heir_of(&left, at)
            } else {
                None
            }
        } else {
            self.spaces[i].focused_tab
        };
        let empty = left.len() == 0;
        self.spaces[i].tabs = left;
        self.spaces[i].focused_tab = front;
        proof {
            let sp = space_without_tab(mid.spaces[i as int], tab);
            assert(self@.spaces[i as int].tabs == sp.tabs);
            assert(self@.spaces[i as int].focused_tab == sp.focused_tab);
            assert(self@.spaces =~= mid.spaces.update(i as int, sp));
            lemma_leaving_out_shorter(mid.spaces[i as int].tabs, tab);
            assert(self@.wf());
        }
        if empty {
            self.close_space(bars, space);
        } else {
            self.relayout(bars);
        }
    }

    /// Close a pane. Its neighbours reclaim its room, and a tab whose last pane goes, goes too.
    pub fn close_pane(&mut self, bars: Bars, pane: u64)
        requires
            old(self)@.wf(),
        ensures
            final(self)@ == pane_closed(old(self)@, bars, pane),
            final(self)@.wf(),
    {
        let i: usize = self.pane_index(pane);
        if i == self.panes.len() {
            return;
        }
        let tab: u64 = self.panes[i].tab;
        self.kill_pane(pane);
        if self.view.zoom == Some(pane) {
            self.view.zoom = None;
        }
        let k: usize = self.tab_index(tab);
        if k == self.tabs.len() {
            self.relayout(bars);
            return;
        }
        let mut layout = self.tabs[k].layout.copy();
        layout.close(pane);
        let front: Option<u64> = if self.tabs[k].focused_pane == Some(pane) {
            // Focus the first survivor rather than leaving the tab focus dangling.
            let left = layout.panes();
            if left.len() > 0 {
                Some(left[0])
            } else {
                None
            }
        } else {
            self.tabs[k].focused_pane
        };
        let empty = layout.is_empty();
        self.set_tab(k, layout, front);
        if empty {
            self.close_tab(bars, tab);
        }
        self.relayout(bars);
    }

    /// Close the panes whose programs have ended. Gives their ids.
    pub fn reap_exited(&mut self, bars: Bars) -> (r: Vec<u64>)
        requires
            old(self)@.wf(),
        ensures
            r@ == dead(old(self)@.panes),
            final(self)@ == panes_closed(old(self)@, bars, r@, r@.len() as int),
            final(self)@.wf(),
    {
        let ghost before = self@;
        let ghost p = |p: PaneView| p.life.exited;
        let ghost f = |p: PaneView| p.id;
        let mut gone: Vec<u64> = Vec::new();
        let mut i: usize = 0;
        proof {
            assert(gone@ =~= pick(before.panes.take(0), p, f));
        }
        while i < self.panes.len()
            invariant
                i <= self.panes@.len(),
                self@ == before,
                self@.wf(),
                p == (|p: PaneView| p.life.exited),
                f == (|p: PaneView| p.id),
                gone@ == pick(before.panes.take(i as int), p, f),
            decreases self.panes@.len() - i,
        {
            proof {
                lemma_pick_take(before.panes, p, f, i as int);
                assert(before.panes[i as int] == self.panes@[i as int]@);
            }
            if self.panes[i].life.exited {
                gone.push(self.panes[i].id);
            }
            i = i + 1;
        }
        proof {
            assert(before.panes.take(i as int) =~= before.panes);
        }
        let mut i: usize = 0;
        while i < gone.len()
            invariant
                i <= gone@.len(),
                self@.wf(),
                self@ == panes_closed(before, bars, gone@, i as int),
            decreases gone@.len() - i,
        {
            self.close_pane(bars, gone[i]);
            i = i + 1;
        }
        gone
    }
}

// -- focus and navigation ----------------------------------------------------

/// What focusing a pane does: its space, its tab and itself in front.
pub open spec fn pane_focused(s: SessionView, pane: u64) -> (SessionView, bool) {
    let i = s.pane_at(pane);
    if i < s.panes.len() {
        let p = s.panes[i];
        (
            s.with_space_in_front(p.space).with_tab_in_front(p.space, p.tab).with_pane_in_front(
                p.tab,
                pane,
            ),
            true,
        )
    } else {
        (s, false)
    }
}

/// What moving to a neighbour does. While zoomed there are none.
pub open spec fn moved_to(s: SessionView, next: Option<u64>) -> (SessionView, bool) {
    match (s.view.zoom, s.front_tab(), s.front_pane(), next) {
        (None, Some(tab), Some(_), Some(n)) => (s.with_pane_in_front(tab, n), true),
        _ => (s, false),
    }
}

/// What renaming a space does: nothing for an empty name or no space, and otherwise it gets
/// the name, made unique where another space has it.
pub open spec fn space_renamed(s: SessionView, space: u64, name: Seq<char>) -> (SessionView, bool) {
    let i = s.space_at(space);
    let k = first_where(s.spaces, named(name));
    let unique = if k < s.spaces.len() && s.spaces[k].id != space {
        unique_name(s.spaces, name)
    } else {
        name
    };
    if trimmed(name).len() == 0 || i >= s.spaces.len() {
        (s, false)
    } else {
        (
            SessionView {
                spaces: s.spaces.update(i, SpaceView { name: unique, ..s.spaces[i] }),
                ..s
            },
            true,
        )
    }
}

/// A space with this name.
pub open spec fn named(name: Seq<char>) -> spec_fn(SpaceView) -> bool {
    |s: SpaceView| s.name == name
}

/// What renaming a tab does.
pub open spec fn tab_renamed(s: SessionView, tab: u64, name: Seq<char>) -> (SessionView, bool) {
    let k = s.tab_at(tab);
    if trimmed(name).len() == 0 || k >= s.tabs.len() {
        (s, false)
    } else {
        (
            SessionView { tabs: s.tabs.update(k, TabView { name, ..s.tabs[k] }), ..s },
            true,
        )
    }
}

/// What focusing a tab does: its space in front too.
pub open spec fn tab_focused(s: SessionView, tab: u64) -> (SessionView, bool) {
    let k = s.tab_at(tab);
    if k < s.tabs.len() {
        let space = s.tabs[k].space;
        (s.with_space_in_front(space).with_tab_in_front(space, tab), true)
    } else {
        (s, false)
    }
}

/// What focusing a space does.
pub open spec fn space_focused(s: SessionView, space: u64) -> (SessionView, bool) {
    if s.has_space(space) {
        (s.with_space_in_front(space), true)
    } else {
        (s, false)
    }
}

/// What stepping through the spaces does: round at either end.
pub open spec fn space_cycled(s: SessionView, delta: int) -> (SessionView, bool) {
    let n = s.spaces.len() as int;
    let cur = match s.focused_space {
        Some(id) if s.has_space(id) => s.space_at(id),
        _ => 0,
    };
    if n == 0 {
        (s, false)
    } else {
        (s.with_space_in_front(s.spaces[(cur + delta) % n].id), true)
    }
}

/// What stepping through the tabs of the space in front does.
pub open spec fn tab_cycled(s: SessionView, delta: int) -> (SessionView, bool) {
    match s.focused_space {
        Some(id) if s.has_space(id) => {
            let sp = s.spaces[s.space_at(id)];
            let n = sp.tabs.len() as int;
            let at = match sp.focused_tab {
                Some(t) => first_where(sp.tabs, id_is(t)),
                None => n,
            };
            let cur = if at < n {
                at
            } else {
                0
            };
            if n == 0 {
                (s, false)
            } else {
                (s.with_tab_in_front(id, sp.tabs[(cur + delta) % n]), true)
            }
        },
        _ => (s, false),
    }
}

/// What going to a tab by its number does.
pub open spec fn tab_gone_to(s: SessionView, index: int) -> (SessionView, bool) {
    match s.focused_space {
        Some(id) if s.has_space(id) => {
            let sp = s.spaces[s.space_at(id)];
            if index < sp.tabs.len() {
                (s.with_tab_in_front(id, sp.tabs[index]), true)
            } else {
                (s, false)
            }
        },
        _ => (s, false),
    }
}

/// Whether the agent in a pane wants a person to look.
pub open spec fn wants_you(s: SessionView, pane: u64) -> bool {
    s.has_pane(pane) && s.panes[s.pane_at(pane)].life.agent is Some
        && s.panes[s.pane_at(pane)].life.agent->Some_0.state.wants_you()
}

/// The panes of the first `n` tabs of a list, in order.
pub open spec fn panes_of_tabs(s: SessionView, tabs: Seq<u64>, n: int) -> Seq<u64>
    decreases n,
{
    if n <= 0 {
        Seq::empty()
    } else {
        panes_of_tabs(s, tabs, n - 1) + (if s.has_tab(tabs[n - 1]) {
            s.tabs[s.tab_at(tabs[n - 1])].layout.order()
        } else {
            Seq::empty()
        })
    }
}

/// The panes of the first `n` spaces: by space, then by tab, then in tree order.
pub open spec fn panes_in_order(s: SessionView, n: int) -> Seq<u64>
    decreases n,
{
    if n <= 0 {
        Seq::empty()
    } else {
        panes_in_order(s, n - 1) + panes_of_tabs(
            s,
            s.spaces[n - 1].tabs,
            s.spaces[n - 1].tabs.len() as int,
        )
    }
}

/// The panes whose agents want a person to look, in the order of the sidebar.
pub open spec fn attention(s: SessionView) -> Seq<u64> {
    pick(
        panes_in_order(s, s.spaces.len() as int),
        |p: u64| wants_you(s, p),
        |p: u64| p,
    )
}

/// The first of a list, from `start` on and round its end, that is not `cur`; the first of
/// all where every one is.
pub open spec fn next_after(order: Seq<u64>, start: int, cur: Option<u64>, k: int) -> Option<u64>
    decreases order.len() - k,
{
    if order.len() == 0 {
        None
    } else if k >= order.len() {
        Some(order[0])
    } else if Some(order[(start + k) % (order.len() as int)]) != cur {
        Some(order[(start + k) % (order.len() as int)])
    } else {
        next_after(order, start, cur, k + 1)
    }
}

/// The pane to look at next: the search starts after the one in front, so asking repeatedly
/// walks the queue instead of sticking on one agent.
pub open spec fn next_to_look_at(s: SessionView) -> Option<u64> {
    let order = attention(s);
    let at = match s.front_pane() {
        Some(c) => first_where(order, id_is(c)),
        None => order.len() as int,
    };
    next_after(
        order,
        if at < order.len() {
            at + 1
        } else {
            0
        },
        s.front_pane(),
        0,
    )
}

/// A step of `delta` from `cur`, round the ends of a list.
fn step_round(cur: usize, delta: i32, n: usize) -> (r: usize)
    requires
        cur < n,
    ensures
        r < n,
        r == (cur + delta) % (n as int),
{
    let c: u128 = cur as u128;
    let m: u128 = n as u128;
    if delta >= 0 {
        ((c + delta as u128) % m) as usize
    } else {
        let back: u128 = (-(delta as i64)) as u128;
        let b: u128 = back % m;
        let r: u128 = (c + m - b) % m;
        proof {
            let q = back as int / n as int;
            vstd::arithmetic::div_mod::lemma_fundamental_div_mod(back as int, n as int);
            assert(back as int == n as int * q + b);
            vstd::arithmetic::div_mod::lemma_mod_multiples_vanish(q + 1, cur + delta, n as int);
            assert(n as int * (q + 1) + (cur + delta) == c + m - b) by (nonlinear_arith)
                requires
                    back as int == n as int * q + b,
                    delta == -(back as int),
                    c == cur,
                    m == n,
            ;
        }
        r as usize
    }
}

impl Session {
    /// Go to a pane, wherever it is.
    pub fn focus_pane(&mut self, pane: u64) -> (r: bool)
        ensures
            (final(self)@, r) == pane_focused(old(self)@, pane),
            old(self)@.wf() ==> final(self)@.wf(),
    {
        let i: usize = self.pane_index(pane);
        if i == self.panes.len() {
            return false;
        }
        let space: u64 = self.panes[i].space;
        let tab: u64 = self.panes[i].tab;
        self.focused_space = Some(space);
        self.put_tab_in_front(space, tab);
        self.put_pane_in_front(tab, pane);
        true
    }

    /// Go to a neighbour. `next` is the pane that the layout has in that direction.
    pub fn focus_dir(&mut self, next: Option<u64>) -> (r: bool)
        ensures
            (final(self)@, r) == moved_to(old(self)@, next),
            old(self)@.wf() ==> final(self)@.wf(),
    {
        // While zoomed there are no visible neighbours to move to.
        if self.view.zoom.is_some() {
            return false;
        }
        let tab = match self.focused_tab() {
            Some(t) => t,
            None => {
                return false;
            },
        };
        if self.focused_pane().is_none() {
            return false;
        }
        match next {
            Some(n) => {
                self.put_pane_in_front(tab, n);
                true
            },
            None => false,
        }
    }

    /// Rename a space. Names address spaces, so they stay unique.
    pub fn rename_space(&mut self, space: u64, name: &str) -> (r: bool)
        requires
            old(self)@.wf(),
            old(self)@.has_space_ids(),
        ensures
            (final(self)@, r) == space_renamed(old(self)@, space, name@),
            final(self)@.wf(),
    {
        if trim(name).as_str().is_empty() {
            return false;
        }
        let ghost before = self@;
        proof {
            if before.spaces.len() > 0 {
                lemma_ids_bound(before, before.spaces.len() - 1);
            }
            lemma_first_where(before.spaces, named(name@));
        }
        let clash = match self.find_space_by_name(name) {
            Some(id) => id != space,
            None => false,
        };
        proof {
            let k = first_where(before.spaces, named(name@));
            if !taken(before.spaces, name@) && k < before.spaces.len() {
                assert(before.spaces[k].name == name@);
            }
        }
        let unique = if clash {
            self.unique_space_name(name)
        } else {
            owned(name)
        };
        let i: usize = self.space_index(space);
        if i == self.spaces.len() {
            return false;
        }
        self.spaces[i].name = unique;
        proof {
            let want = space_renamed(before, space, name@).0;
            assert(self@.spaces =~= want.spaces);
            assert forall|a: int, b: int| 0 <= a < b < self@.spaces.len() implies (
            #[trigger] self@.spaces[a]).name != (#[trigger] self@.spaces[b]).name by {
                assert(before.spaces[a].name != before.spaces[b].name);
                assert(before.spaces[a].id < before.spaces[b].id);
                if a == i || b == i {
                    let o = if a == i { b } else { a };
                    if clash {
                        assert(!taken(before.spaces, unique@));
                        assert(before.spaces[o].name != unique@);
                    } else if before.spaces[o].name == name@ {
                        let k = first_where(before.spaces, named(name@));
                        assert(named(name@)(before.spaces[o]));
                        assert(k <= o);
                        assert(before.spaces[k].name == name@);
                        if k < o {
                            assert(before.spaces[k].name != before.spaces[o].name);
                        }
                        assert(before.spaces[k].id == space);
                    }
                }
            }
        }
        true
    }

    /// Rename a tab.
    pub fn rename_tab(&mut self, tab: u64, name: &str) -> (r: bool)
        ensures
            (final(self)@, r) == tab_renamed(old(self)@, tab, name@),
            old(self)@.wf() ==> final(self)@.wf(),
    {
        if trim(name).as_str().is_empty() {
            return false;
        }
        let k: usize = self.tab_index(tab);
        if k == self.tabs.len() {
            return false;
        }
        let ghost before = self@;
        self.tabs[k].name = owned(name);
        proof {
            assert(self@.tabs =~= tab_renamed(before, tab, name@).0.tabs);
        }
        true
    }

    /// Focus a tab, switching space if it lives in another one.
    pub fn focus_tab(&mut self, tab: u64) -> (r: bool)
        ensures
            (final(self)@, r) == tab_focused(old(self)@, tab),
            old(self)@.wf() ==> final(self)@.wf(),
    {
        let k: usize = self.tab_index(tab);
        if k == self.tabs.len() {
            return false;
        }
        let space: u64 = self.tabs[k].space;
        self.focused_space = Some(space);
        self.put_tab_in_front(space, tab);
        true
    }

    /// Focus a space.
    pub fn focus_space(&mut self, space: u64) -> (r: bool)
        ensures
            (final(self)@, r) == space_focused(old(self)@, space),
            old(self)@.wf() ==> final(self)@.wf(),
    {
        if self.space(space).is_none() {
            return false;
        }
        self.focused_space = Some(space);
        true
    }

    /// Step through the spaces, round at either end.
    pub fn cycle_space(&mut self, delta: i32) -> (r: bool)
        ensures
            (final(self)@, r) == space_cycled(old(self)@, delta as int),
            old(self)@.wf() ==> final(self)@.wf(),
    {
        let n: usize = self.spaces.len();
        if n == 0 {
            return false;
        }
        let cur: usize = match self.focused_space {
            Some(id) => {
                let i: usize = self.space_index(id);
                if i < n {
                    i
                } else {
                    0
                }
            },
            None => 0,
        };
        let next: usize = step_round(cur, delta, n);
        proof {
            assert(self@.spaces[next as int] == self.spaces@[next as int]@);
        }
        self.focused_space = Some(self.spaces[next].id);
        true
    }

    /// Step through the tabs of the space in front, round at either end.
    pub fn cycle_tab(&mut self, delta: i32) -> (r: bool)
        ensures
            (final(self)@, r) == tab_cycled(old(self)@, delta as int),
            old(self)@.wf() ==> final(self)@.wf(),
    {
        let space = match self.focused_space {
            Some(s) => s,
            None => {
                return false;
            },
        };
        let i: usize = self.space_index(space);
        if i == self.spaces.len() {
            return false;
        }
        let n: usize = self.spaces[i].tabs.len();
        if n == 0 {
            return false;
        }
        let cur: usize = match self.spaces[i].focused_tab {
            Some(t) => {
                let at: usize = index_of(&self.spaces[i].tabs, t);
                if at < n {
                    at
                } else {
                    0
                }
            },
            None => 0,
        };
        let next: usize = step_round(cur, delta, n);
        let tab: u64 = self.spaces[i].tabs[next];
        self.put_tab_in_front(space, tab);
        true
    }

    /// Go to a tab of the space in front, by its number.
    pub fn goto_tab(&mut self, index: usize) -> (r: bool)
        ensures
            (final(self)@, r) == tab_gone_to(old(self)@, index as int),
            old(self)@.wf() ==> final(self)@.wf(),
    {
        let space = match self.focused_space {
            Some(s) => s,
            None => {
                return false;
            },
        };
        let i: usize = self.space_index(space);
        if i == self.spaces.len() || index >= self.spaces[i].tabs.len() {
            return false;
        }
        let tab: u64 = self.spaces[i].tabs[index];
        self.put_tab_in_front(space, tab);
        true
    }

    /// Panes in a stable order: space, then tab, then tree order.
    pub fn ordered_panes(&self) -> (r: Vec<u64>)
        ensures
            r@ == panes_in_order(self@, self@.spaces.len() as int),
    {
        let mut out: Vec<u64> = Vec::new();
        let mut i: usize = 0;
        while i < self.spaces.len()
            invariant
                i <= self.spaces@.len(),
                out@ == panes_in_order(self@, i as int),
            decreases self.spaces@.len() - i,
        {
            let ghost start = out@;
            let ghost tabs = self@.spaces[i as int].tabs;
            let mut t: usize = 0;
            proof {
                assert(start + panes_of_tabs(self@, tabs, 0) =~= start);
            }
            while t < self.spaces[i].tabs.len()
                invariant
                    i < self.spaces@.len(),
                    tabs == self.spaces@[i as int].tabs@,
                    t <= tabs.len(),
                    out@ == start + panes_of_tabs(self@, tabs, t as int),
                decreases tabs.len() - t,
            {
                let ghost had = out@;
                match self.tab(self.spaces[i].tabs[t]) {
                    Some(tab) => {
                        let mut panes = tab.layout.panes();
                        out.append(&mut panes);
                    },
                    None => {},
                }
                t = t + 1;
                proof {
                    assert(out@ =~= start + panes_of_tabs(self@, tabs, t as int));
                }
            }
            i = i + 1;
        }
        out
    }

    /// The panes whose agents want a person to look, in the order of the sidebar.
    pub fn attention_order(&self) -> (r: Vec<u64>)
        ensures
            r@ == attention(self@),
    {
        let all = self.ordered_panes();
        let ghost p = |p: u64| wants_you(self@, p);
        let ghost f = |p: u64| p;
        let mut out: Vec<u64> = Vec::new();
        let mut i: usize = 0;
        proof {
            assert(out@ =~= pick(all@.take(0), p, f));
        }
        while i < all.len()
            invariant
                i <= all@.len(),
                p == (|p: u64| wants_you(self@, p)),
                f == (|p: u64| p),
                out@ == pick(all@.take(i as int), p, f),
            decreases all@.len() - i,
        {
            proof {
                lemma_pick_take(all@, p, f, i as int);
            }
            let wants = match self.pane(all[i]) {
                Some(pane) => match &pane.life.agent {
                    Some(a) => a.state.needs_attention(),
                    None => false,
                },
                None => false,
            };
            if wants {
                out.push(all[i]);
            }
            i = i + 1;
        }
        proof {
            assert(all@.take(i as int) =~= all@);
        }
        out
    }

    /// Next pane anywhere in the session whose agent wants attention.
    pub fn next_attention(&self) -> (r: Option<u64>)
        ensures
            r == next_to_look_at(self@),
    {
        let ordered = self.attention_order();
        let n: usize = ordered.len();
        if n == 0 {
            return None;
        }
        let cur = self.focused_pane();
        let start: usize = match cur {
            Some(c) => {
                let at: usize = index_of(&ordered, c);
                if at < n {
                    at + 1
                } else {
                    0
                }
            },
            None => 0,
        };
        let mut k: usize = 0;
        while k < n
            invariant
                n == ordered@.len(),
                n > 0,
                start <= n,
                k <= n,
                next_to_look_at(self@) == next_after(ordered@, start as int, cur, k as int),
            decreases n - k,
        {
            let at: usize = if n - start > k {
                start + k
            } else {
                k - (n - start)
            };
            proof {
                if n - start > k {
                    vstd::arithmetic::div_mod::lemma_small_mod((start + k) as nat, n as nat);
                } else {
                    vstd::arithmetic::div_mod::lemma_mod_add_multiples_vanish(
                        (start + k) - n,
                        n as int,
                    );
                    vstd::arithmetic::div_mod::lemma_small_mod((start + k - n) as nat, n as nat);
                    assert((start + k) % (n as int) == start + k - n);
                }
            }
            let p: u64 = ordered[at];
            if cur != Some(p) {
                return Some(p);
            }
            k = k + 1;
        }
        Some(ordered[0])
    }

    /// Give the focused pane another share of its split. `changed` is the layout of the tab in
    /// front with that done, where it can be.
    pub fn resize_pane(&mut self, bars: Bars, changed: Option<Layout>) -> (r: bool)
        ensures
            (final(self)@, r) == pane_resized(old(self)@, bars, changed),
            old(self)@.wf() ==> final(self)@.wf(),
    {
        let tab = match self.focused_tab() {
            Some(t) => t,
            None => {
                return false;
            },
        };
        if self.focused_pane().is_none() {
            return false;
        }
        let layout = match changed {
            Some(l) => l,
            None => {
                return false;
            },
        };
        let k: usize = self.tab_index(tab);
        if k == self.tabs.len() {
            return false;
        }
        let front = self.tabs[k].focused_pane;
        let ghost before = self@;
        self.set_tab(k, layout, front);
        proof {
            assert(self@.tabs =~= before.tabs.update(
                k as int,
                TabView { layout, ..before.tabs[k as int] },
            ));
        }
        self.relayout(bars);
        true
    }

    /// Exchange the focused pane with a neighbour. `other` is the pane that the layout has in
    /// that direction.
    pub fn swap_dir(&mut self, bars: Bars, other: Option<u64>) -> (r: bool)
        ensures
            (final(self)@, r) == pane_swapped(old(self)@, bars, other),
            old(self)@.wf() ==> final(self)@.wf(),
    {
        let tab = match self.focused_tab() {
            Some(t) => t,
            None => {
                return false;
            },
        };
        let from = match self.focused_pane() {
            Some(p) => p,
            None => {
                return false;
            },
        };
        let other = match other {
            Some(p) => p,
            None => {
                return false;
            },
        };
        let k: usize = self.tab_index(tab);
        if k == self.tabs.len() {
            return false;
        }
        let mut layout = self.tabs[k].layout.copy();
        if !layout.swap(from, other) {
            return false;
        }
        let front = self.tabs[k].focused_pane;
        let ghost before = self@;
        self.set_tab(k, layout, front);
        proof {
            assert(self@.tabs =~= before.tabs.update(
                k as int,
                TabView { layout, ..before.tabs[k as int] },
            ));
        }
        self.relayout(bars);
        true
    }

    /// Give the focused pane the whole room, or give it up again.
    pub fn toggle_zoom(&mut self, bars: Bars) -> (r: bool)
        ensures
            (final(self)@, r) == (match old(self)@.front_pane() {
                None => (old(self)@, false),
                Some(p) => (
                    (SessionView {
                        view: ViewState {
                            zoom: if old(self)@.view.zoom == Some(p) {
                                None
                            } else {
                                Some(p)
                            },
                            ..old(self)@.view
                        },
                        ..old(self)@
                    }).laid_out(bars),
                    true,
                ),
            }),
            old(self)@.wf() ==> final(self)@.wf(),
    {
        let pane = match self.focused_pane() {
            Some(p) => p,
            None => {
                return false;
            },
        };
        self.view.zoom =
        if self.view.zoom == Some(pane) {
            None
        } else {
            Some(pane)
        };
        self.relayout(bars);
        true
    }

    pub fn toggle_sidebar(&mut self, bars: Bars)
        ensures
            final(self)@ == (SessionView {
                view: ViewState {
                    sidebar_open: !old(self)@.view.sidebar_open,
                    ..old(self)@.view
                },
                ..old(self)@
            }).laid_out(bars),
            old(self)@.wf() ==> final(self)@.wf(),
    {
        self.view.sidebar_open = !self.view.sidebar_open;
        self.relayout(bars);
    }

    pub fn toggle_bus(&mut self, bars: Bars)
        ensures
            final(self)@ == (SessionView {
                view: ViewState { bus_open: !old(self)@.view.bus_open, ..old(self)@.view },
                ..old(self)@
            }).laid_out(bars),
            old(self)@.wf() ==> final(self)@.wf(),
    {
        self.view.bus_open = !self.view.bus_open;
        self.relayout(bars);
    }

    /// Take the size of a client, never too small to draw in.
    pub fn set_client_size(&mut self, bars: Bars, cols: u16, rows: u16)
        ensures
            final(self)@ == (SessionView {
                client_cols: at_least(cols, 20),
                client_rows: at_least(rows, 6),
                ..old(self)@
            }).laid_out(bars),
            old(self)@.wf() ==> final(self)@.wf(),
    {
        self.client_cols = if cols < 20 {
            20
        } else {
            cols
        };
        self.client_rows = if rows < 6 {
            6
        } else {
            rows
        };
        self.relayout(bars);
    }
}

/// What another share of a split does.
pub open spec fn pane_resized(s: SessionView, bars: Bars, changed: Option<Layout>) -> (
    SessionView,
    bool,
) {
    match (s.front_tab(), s.front_pane(), changed) {
        (Some(t), Some(_), Some(l)) if s.has_tab(t) => {
            let k = s.tab_at(t);
            (
                (SessionView {
                    tabs: s.tabs.update(k, TabView { layout: l, ..s.tabs[k] }),
                    ..s
                }).laid_out(bars),
                true,
            )
        },
        _ => (s, false),
    }
}

/// What exchanging the focused pane with another does.
pub open spec fn pane_swapped(s: SessionView, bars: Bars, other: Option<u64>) -> (
    SessionView,
    bool,
) {
    match (s.front_tab(), s.front_pane(), other) {
        (Some(t), Some(from), Some(o)) if s.has_tab(t) => {
            let k = s.tab_at(t);
            let order = s.tabs[k].layout.order();
            if order.contains(from) && order.contains(o) {
                let l = Layout { tree: Some(s.tabs[k].layout.tree->Some_0.swapped(from, o)) };
                (
                    (SessionView {
                        tabs: s.tabs.update(k, TabView { layout: l, ..s.tabs[k] }),
                        ..s
                    }).laid_out(bars),
                    true,
                )
            } else {
                (s, false)
            }
        },
        _ => (s, false),
    }
}

// -- redrawing ---------------------------------------------------------------

/// A size that a program cannot mistake for the one it has: a row less, or a column more.
pub open spec fn wobbled(cols: u16, rows: u16) -> (u16, u16) {
    if rows > MIN_ROWS {
        (cols, (rows - 1) as u16)
    } else if cols < u16::MAX {
        ((cols + 1) as u16, rows)
    } else {
        ((cols - 1) as u16, rows)
    }
}

/// What making a program draw itself again does: another size, and then its own.
pub open spec fn redrawn(s: SessionView, pane: u64) -> SessionView {
    let i = s.pane_at(pane);
    if i < s.panes.len() {
        let l = s.panes[i].life;
        let (c, r) = wobbled(l.cols, l.rows);
        resized(resized(s, pane, c, r), pane, l.cols, l.rows)
    } else {
        s
    }
}

impl Session {
    /// Make the program in a pane draw itself again, without its size having changed.
    pub fn force_redraw(&mut self, pane: u64)
        ensures
            final(self)@ == redrawn(old(self)@, pane),
            old(self)@.wf() ==> final(self)@.wf(),
    {
        let i: usize = self.pane_index(pane);
        if i == self.panes.len() {
            return;
        }
        let cols: u16 = self.panes[i].life.cols;
        let rows: u16 = self.panes[i].life.rows;
        if rows > MIN_ROWS {
            self.resize(pane, cols, rows - 1);
        } else if cols < u16::MAX {
            self.resize(pane, cols + 1, rows);
        } else {
            self.resize(pane, cols - 1, rows);
        }
        self.resize(pane, cols, rows);
    }
}

// -- laws --------------------------------------------------------------------

/// The whole screen.
pub open spec fn screen(cols: u16, rows: u16) -> Rect {
    Rect { x: 0, y: 0, w: cols, h: rows }
}

/// Whatever is open, the regions lie on the screen and no two of them overlap.
pub proof fn law_regions_tile_the_screen(
    bars: Bars,
    cols: u16,
    rows: u16,
    has_tabs: bool,
    view: ViewState,
)
    ensures
        ({
            let c = chrome_of(bars, cols, rows, has_tabs, view);
            let all = screen(cols, rows);
            &&& all.covers(c.tabbar)
            &&& all.covers(c.sidebar)
            &&& all.covers(c.bus)
            &&& all.covers(c.status)
            &&& all.covers(c.panes)
            &&& c.tabbar.apart(c.sidebar)
            &&& c.tabbar.apart(c.bus)
            &&& c.tabbar.apart(c.status)
            &&& c.tabbar.apart(c.panes)
            &&& c.sidebar.apart(c.bus)
            &&& c.sidebar.apart(c.status)
            &&& c.sidebar.apart(c.panes)
            &&& c.bus.apart(c.status)
            &&& c.bus.apart(c.panes)
            &&& c.status.apart(c.panes)
        }),
{
}

/// A pane that is on the smallest screen a client may have still has room.
pub proof fn law_panes_always_have_room(
    bars: Bars,
    cols: u16,
    rows: u16,
    has_tabs: bool,
    view: ViewState,
)
    requires
        cols >= 20,
        rows >= 6,
    ensures
        chrome_of(bars, cols, rows, has_tabs, view).panes.w > 0,
        chrome_of(bars, cols, rows, has_tabs, view).panes.h > 0,
{
}

/// Making a program draw itself again leaves every pane's size exactly as it was.
pub proof fn law_redrawing_keeps_the_size(s: SessionView, pane: u64)
    requires
        s.wf(),
        s.has_pane(pane),
        s.panes[s.pane_at(pane)].life.cols >= MIN_COLS,
        s.panes[s.pane_at(pane)].life.rows >= MIN_ROWS,
    ensures
        redrawn(s, pane).panes == s.panes,
        redrawn(s, pane).effects.len() == s.effects.len() + 2,
{
    let i = s.pane_at(pane);
    lemma_first_where(s.panes, pane_is(pane));
    let l = s.panes[i].life;
    let (c, r) = wobbled(l.cols, l.rows);
    let t = resized(s, pane, c, r);
    assert(c >= MIN_COLS && r >= MIN_ROWS);
    assert forall|j: int| 0 <= j < i implies !pane_is(pane)(#[trigger] t.panes[j]) by {
        assert(t.panes[j] == s.panes[j]);
    }
    assert(pane_is(pane)(t.panes[i]));
    lemma_first_where_is(t.panes, pane_is(pane), i);
    let u = resized(t, pane, l.cols, l.rows);
    assert(u.panes =~= s.panes);
}

/// Zooming and zooming again leaves the view as it was.
pub proof fn law_zooming_twice_is_nothing(view: ViewState, p: u64)
    requires
        view.zoom is None,
    ensures
        ({
            let once = ViewState {
                zoom: if view.zoom == Some(p) {
                    None
                } else {
                    Some(p)
                },
                ..view
            };
            ViewState {
                zoom: if once.zoom == Some(p) {
                    None
                } else {
                    Some(p)
                },
                ..once
            } == view
        }),
{
}

/// Creating a space takes you there, and to its first tab and pane.
pub proof fn law_creating_a_space_goes_there(
    s: SessionView,
    bars: Bars,
    shell: Seq<char>,
    name: Option<Seq<char>>,
    cwd: Seq<char>,
)
    requires
        s.wf(),
        s.has_ids(),
        s.has_space_ids(),
    ensures
        ({
            let t = with_space(s, bars, shell, name, cwd);
            &&& t.focused_space == Some(s.next_space)
            &&& t.front_tab() == Some(s.next_tab)
            &&& t.front_pane() == Some(s.next_pane)
        }),
{
    let e = with_empty_space(s, name, cwd);
    let id = s.next_space;
    let k = s.spaces.len() as int;
    assert forall|j: int| 0 <= j < k implies !space_is(id)(#[trigger] e.spaces[j]) by {
        assert(e.spaces[j] == s.spaces[j]);
    }
    assert(space_is(id)(e.spaces[k]));
    lemma_first_where_is(e.spaces, space_is(id), k);
    let t = with_space(s, bars, shell, name, cwd);
    assert forall|j: int| 0 <= j < k implies !space_is(id)(#[trigger] t.spaces[j]) by {
        assert(t.spaces[j] == s.spaces[j]);
    }
    assert(space_is(id)(t.spaces[k]));
    lemma_first_where_is(t.spaces, space_is(id), k);
    let m = s.tabs.len() as int;
    assert forall|j: int| 0 <= j < m implies !tab_is(s.next_tab)(#[trigger] t.tabs[j]) by {
        assert(t.tabs[j] == s.tabs[j]);
    }
    assert(tab_is(s.next_tab)(t.tabs[m]));
    lemma_first_where_is(t.tabs, tab_is(s.next_tab), m);
}

/// Going to a pane puts it in front, as long as its tab and space are there.
pub proof fn law_going_to_a_pane_puts_it_in_front(s: SessionView, pane: u64)
    requires
        s.has_pane(pane),
        s.has_tab(s.panes[s.pane_at(pane)].tab),
        s.has_space(s.panes[s.pane_at(pane)].space),
    ensures
        pane_focused(s, pane).1,
        pane_focused(s, pane).0.front_pane() == Some(pane),
{
    let p = s.panes[s.pane_at(pane)];
    let a = s.with_space_in_front(p.space);
    let b = a.with_tab_in_front(p.space, p.tab);
    let c = b.with_pane_in_front(p.tab, pane);
    let i = s.space_at(p.space);
    let k = s.tab_at(p.tab);
    lemma_first_where(s.spaces, space_is(p.space));
    lemma_first_where(s.tabs, tab_is(p.tab));
    assert forall|j: int| 0 <= j < i implies !space_is(p.space)(#[trigger] c.spaces[j]) by {
        assert(c.spaces[j] == s.spaces[j]);
    }
    assert(space_is(p.space)(c.spaces[i]));
    lemma_first_where_is(c.spaces, space_is(p.space), i);
    assert forall|j: int| 0 <= j < k implies !tab_is(p.tab)(#[trigger] c.tabs[j]) by {
        assert(c.tabs[j] == s.tabs[j]);
    }
    assert(tab_is(p.tab)(c.tabs[k]));
    lemma_first_where_is(c.tabs, tab_is(p.tab), k);
}

/// Something is always in front while anything is left: what follows the thing that went is
/// one of those that stayed.
pub proof fn law_an_heir_is_among_those_left(left: Seq<u64>, i: int)
    requires
        0 <= i <= left.len(),
    ensures
        left.len() > 0 ==> heir(left, i) is Some && left.contains(heir(left, i)->Some_0),
        left.len() == 0 ==> heir(left, i) is None,
{
    if i < left.len() {
        assert(left[i] == heir(left, i)->Some_0);
    } else if left.len() > 0 {
        assert(left[i - 1] == heir(left, i)->Some_0);
    }
}

/// Stepping to the next space and back ends where it began.
pub proof fn law_stepping_there_and_back(s: SessionView, id: u64)
    requires
        s.wf(),
        s.focused_space == Some(id),
        s.has_space(id),
    ensures
        space_cycled(space_cycled(s, 1).0, -1).0.focused_space == Some(id),
{
    let n = s.spaces.len() as int;
    let cur = s.space_at(id);
    lemma_first_where(s.spaces, space_is(id));
    let next = (cur + 1) % n;
    let t = space_cycled(s, 1).0;
    let nid = s.spaces[next].id;
    assert(0 <= next < n) by {
        vstd::arithmetic::div_mod::lemma_mod_bound(cur + 1, n);
    }
    assert forall|j: int| 0 <= j < next implies !space_is(nid)(#[trigger] s.spaces[j]) by {
        assert(s.spaces[j].id < s.spaces[next].id);
    }
    lemma_first_where_is(s.spaces, space_is(nid), next);
    if cur + 1 < n {
        vstd::arithmetic::div_mod::lemma_small_mod((cur + 1) as nat, n as nat);
        vstd::arithmetic::div_mod::lemma_small_mod(cur as nat, n as nat);
    } else {
        vstd::arithmetic::div_mod::lemma_mod_self_0(n);
        vstd::arithmetic::div_mod::lemma_mod_add_multiples_vanish(-1, n);
        vstd::arithmetic::div_mod::lemma_small_mod((n - 1) as nat, n as nat);
    }
}

proof fn lemma_placed_other(
    s: SessionView,
    rects: Seq<(u64, Rect, Rect)>,
    n: int,
    i: int,
)
    requires
        s.wf(),
        0 <= n <= rects.len(),
        0 <= i < s.panes.len(),
    ensures
        placed(s, rects, n).panes.len() == s.panes.len(),
        forall|j: int|
            0 <= j < s.panes.len() ==> (#[trigger] placed(s, rects, n).panes[j]).id
                == s.panes[j].id,
        (forall|k: int| 0 <= k < n ==> (#[trigger] rects[k]).0 != s.panes[i].id) ==> placed(
            s,
            rects,
            n,
        ).panes[i] == s.panes[i],
    decreases n,
{
    if n > 0 {
        lemma_placed_other(s, rects, n - 1, i);
        let t = placed(s, rects, n - 1);
        lemma_first_where(t.panes, pane_is(rects[n - 1].0));
        let u = placed(s, rects, n);
        assert forall|j: int| 0 <= j < s.panes.len() implies (#[trigger] u.panes[j]).id
            == s.panes[j].id by {
            assert(t.panes[j].id == s.panes[j].id);
        }
        if forall|k: int| 0 <= k < n ==> (#[trigger] rects[k]).0 != s.panes[i].id {
            assert(rects[n - 1].0 != s.panes[i].id);
            assert(t.panes[i].id == s.panes[i].id);
        }
    }
}

/// Every pane on screen ends up the size of the rect it is drawn in, or the smallest a pane
/// may be where that is larger.
pub proof fn law_a_pane_has_the_size_of_its_rect(
    s: SessionView,
    rects: Seq<(u64, Rect, Rect)>,
    n: int,
    k: int,
    i: int,
)
    requires
        s.wf(),
        0 <= k < n <= rects.len(),
        0 <= i < s.panes.len(),
        rects[k].0 == s.panes[i].id,
        forall|a: int, b: int|
            0 <= a < b < rects.len() ==> (#[trigger] rects[a]).0 != (#[trigger] rects[b]).0,
    ensures
        placed(s, rects, n).panes[i].life.cols == at_least(rects[k].2.w, MIN_COLS),
        placed(s, rects, n).panes[i].life.rows == at_least(rects[k].2.h, MIN_ROWS),
    decreases n,
{
    let t = placed(s, rects, n - 1);
    lemma_placed_other(s, rects, n - 1, i);
    lemma_first_where(t.panes, pane_is(rects[n - 1].0));
    let at = t.pane_at(rects[n - 1].0);
    if k == n - 1 {
        assert(t.panes[i].id == s.panes[i].id);
        assert(pane_is(rects[k].0)(t.panes[i]));
        if at < i {
            assert(t.panes[at].id == s.panes[at].id);
            assert(s.panes[at].id < s.panes[i].id);
        }
        if at > i {
            assert(!pane_is(rects[k].0)(t.panes[i]));
        }
    } else {
        law_a_pane_has_the_size_of_its_rect(s, rects, n - 1, k, i);
        assert(rects[k].0 != rects[n - 1].0);
        assert(t.panes[i].id == s.panes[i].id);
    }
}

} // verus!
