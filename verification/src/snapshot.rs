//! What a client is told about the whole session.

use crate::agent::{AgentInfo, AgentInfoView};
use crate::commands::look_of;
use crate::pane::{display_name, display_of};
use crate::proto::{no_rect, Rect, ViewState};
use crate::recents::{project_views, RecentProject, RecentProjectView};
use crate::seqs::{count_where, first_where, lemma_count_take, lemma_first_where_is};
use crate::servers::{info_views, LspInfo, LspInfoView};
use crate::state::{
    panes_of_tabs, rects_of, wants_you, Bars, Look, Pane, PaneView, Session, SessionView, SpaceView,
    TabView,
};
use crate::text::as_opt;
use vstd::prelude::*;
use vstd::string::*;

verus! {

/// What a client is told about a pane.
#[derive(Debug, Clone, PartialEq, Eq)]
pub struct PaneInfo {
    pub id: u64,
    pub tab: u64,
    pub space: u64,
    pub title: String,
    pub cwd: String,
    /// Where it is drawn, and what of that is the program's.
    pub cell: Rect,
    pub content: Rect,
    pub cols: u16,
    pub rows: u16,
    pub agent: Option<AgentInfo>,
    pub spawned_by: Option<u64>,
    pub exited: bool,
    pub scroll_offset: usize,
    pub wants_mouse: bool,
    pub bracketed_paste: bool,
}

/// The same, as values.
pub struct PaneInfoView {
    pub id: u64,
    pub tab: u64,
    pub space: u64,
    pub title: Seq<char>,
    pub cwd: Seq<char>,
    pub cell: Rect,
    pub content: Rect,
    pub cols: u16,
    pub rows: u16,
    pub agent: Option<AgentInfoView>,
    pub spawned_by: Option<u64>,
    pub exited: bool,
    pub scroll_offset: usize,
    pub wants_mouse: bool,
    pub bracketed_paste: bool,
}

impl View for PaneInfo {
    type V = PaneInfoView;

    open spec fn view(&self) -> PaneInfoView {
        PaneInfoView {
            id: self.id,
            tab: self.tab,
            space: self.space,
            title: self.title@,
            cwd: self.cwd@,
            cell: self.cell,
            content: self.content,
            cols: self.cols,
            rows: self.rows,
            agent: match self.agent {
                Some(a) => Some(a@),
                None => None,
            },
            spawned_by: self.spawned_by,
            exited: self.exited,
            scroll_offset: self.scroll_offset,
            wants_mouse: self.wants_mouse,
            bracketed_paste: self.bracketed_paste,
        }
    }
}

/// What a client is told about a tab.
#[derive(Debug, Clone, PartialEq, Eq)]
pub struct TabInfo {
    pub id: u64,
    pub space: u64,
    pub name: String,
    pub panes: Vec<u64>,
    pub focused_pane: Option<u64>,
}

/// The same, as values.
pub struct TabInfoView {
    pub id: u64,
    pub space: u64,
    pub name: Seq<char>,
    pub panes: Seq<u64>,
    pub focused_pane: Option<u64>,
}

impl View for TabInfo {
    type V = TabInfoView;

    open spec fn view(&self) -> TabInfoView {
        TabInfoView {
            id: self.id,
            space: self.space,
            name: self.name@,
            panes: self.panes@,
            focused_pane: self.focused_pane,
        }
    }
}

/// What a client is told about a space.
#[derive(Debug, Clone, PartialEq, Eq)]
pub struct SpaceInfo {
    pub id: u64,
    pub name: String,
    pub cwd: String,
    pub tabs: Vec<u64>,
    pub focused_tab: Option<u64>,
    pub agent_count: usize,
    pub attention_count: usize,
    pub look: Look,
    /// How many notes its vault has, where it reads one.
    pub notes: Option<usize>,
    pub lsp: Vec<LspInfo>,
}

/// The same, as values.
pub struct SpaceInfoView {
    pub id: u64,
    pub name: Seq<char>,
    pub cwd: Seq<char>,
    pub tabs: Seq<u64>,
    pub focused_tab: Option<u64>,
    pub agent_count: nat,
    pub attention_count: nat,
    pub look: Look,
    pub notes: Option<usize>,
    pub lsp: Seq<LspInfoView>,
}

impl View for SpaceInfo {
    type V = SpaceInfoView;

    open spec fn view(&self) -> SpaceInfoView {
        SpaceInfoView {
            id: self.id,
            name: self.name@,
            cwd: self.cwd@,
            tabs: self.tabs@,
            focused_tab: self.focused_tab,
            agent_count: self.agent_count as nat,
            attention_count: self.attention_count as nat,
            look: self.look,
            notes: self.notes,
            lsp: info_views(self.lsp@),
        }
    }
}

/// What a client is told about the whole session.
#[derive(Debug, Clone, PartialEq, Eq)]
pub struct Snapshot {
    pub spaces: Vec<SpaceInfo>,
    pub tabs: Vec<TabInfo>,
    pub panes: Vec<PaneInfo>,
    pub focused_space: Option<u64>,
    pub focused_tab: Option<u64>,
    pub focused_pane: Option<u64>,
    pub view: ViewState,
    pub sidebar: Rect,
    pub bus: Rect,
    pub status: Rect,
    pub tabbar: Rect,
    pub tasks_open: usize,
    pub tasks_claimed: usize,
    pub triggers_armed: usize,
    pub cards_due: usize,
    pub recents: Vec<RecentProject>,
}

/// The same, as values.
pub struct SnapshotView {
    pub spaces: Seq<SpaceInfoView>,
    pub tabs: Seq<TabInfoView>,
    pub panes: Seq<PaneInfoView>,
    pub focused_space: Option<u64>,
    pub focused_tab: Option<u64>,
    pub focused_pane: Option<u64>,
    pub view: ViewState,
    pub sidebar: Rect,
    pub bus: Rect,
    pub status: Rect,
    pub tabbar: Rect,
    pub tasks_open: nat,
    pub tasks_claimed: nat,
    pub triggers_armed: nat,
    pub cards_due: nat,
    pub recents: Seq<RecentProjectView>,
}

impl View for Snapshot {
    type V = SnapshotView;

    open spec fn view(&self) -> SnapshotView {
        SnapshotView {
            spaces: Seq::new(self.spaces@.len(), |i: int| self.spaces@[i]@),
            tabs: Seq::new(self.tabs@.len(), |i: int| self.tabs@[i]@),
            panes: Seq::new(self.panes@.len(), |i: int| self.panes@[i]@),
            focused_space: self.focused_space,
            focused_tab: self.focused_tab,
            focused_pane: self.focused_pane,
            view: self.view,
            sidebar: self.sidebar,
            bus: self.bus,
            status: self.status,
            tabbar: self.tabbar,
            tasks_open: self.tasks_open as nat,
            tasks_claimed: self.tasks_claimed as nat,
            triggers_armed: self.triggers_armed as nat,
            cards_due: self.cards_due as nat,
            recents: project_views(self.recents@),
        }
    }
}

/// The rects of this pane.
pub open spec fn rects_for(id: u64) -> spec_fn((u64, Rect, Rect)) -> bool {
    |r: (u64, Rect, Rect)| r.0 == id
}

/// Where a pane is drawn: nowhere, for one that is not on screen.
pub open spec fn rects_at(rects: Seq<(u64, Rect, Rect)>, id: u64) -> (Rect, Rect) {
    let k = first_where(rects, rects_for(id));
    if k < rects.len() {
        (rects[k].1, rects[k].2)
    } else {
        (no_rect(), no_rect())
    }
}

/// What a client is told about a pane.
pub open spec fn pane_told(p: PaneView, rects: Seq<(u64, Rect, Rect)>, now: u64) -> PaneInfoView {
    PaneInfoView {
        id: p.id,
        tab: p.tab,
        space: p.space,
        title: display_of(p.name, p.life.title, p.cmd),
        cwd: p.cwd,
        cell: rects_at(rects, p.id).0,
        content: rects_at(rects, p.id).1,
        cols: p.life.cols,
        rows: p.life.rows,
        agent: match p.life.agent {
            Some(a) => Some(a.info_at(now)),
            None => None,
        },
        spawned_by: p.life.spawned_by,
        exited: p.life.exited,
        scroll_offset: p.life.scroll_offset,
        wants_mouse: p.life.wants_mouse,
        bracketed_paste: p.life.bracketed_paste,
    }
}

/// What a client is told about a tab.
pub open spec fn tab_told(t: TabView) -> TabInfoView {
    TabInfoView {
        id: t.id,
        space: t.space,
        name: t.name,
        panes: t.layout.order(),
        focused_pane: t.focused_pane,
    }
}

/// A pane with an agent in it.
pub open spec fn has_agent(s: SessionView) -> spec_fn(u64) -> bool {
    |p: u64| s.has_pane(p) && s.panes[s.pane_at(p)].life.agent is Some
}

/// A pane whose agent wants a person to look.
pub open spec fn calls_you(s: SessionView) -> spec_fn(u64) -> bool {
    |p: u64| wants_you(s, p)
}

/// What a client is told about a space.
pub open spec fn space_told(s: SessionView, sp: SpaceView) -> SpaceInfoView {
    let ps = panes_of_tabs(s, sp.tabs, sp.tabs.len() as int);
    SpaceInfoView {
        id: sp.id,
        name: sp.name,
        cwd: sp.cwd,
        tabs: sp.tabs,
        focused_tab: sp.focused_tab,
        agent_count: count_where(ps, has_agent(s)),
        attention_count: count_where(ps, calls_you(s)),
        look: look_of(s, sp.id),
        notes: None,
        lsp: Seq::empty(),
    }
}

/// What a client is told about the whole session, as far as that is the session's to say.
pub open spec fn told(
    s: SessionView,
    rects: Seq<(u64, Rect, Rect)>,
    now: u64,
    tasks_open: nat,
    tasks_claimed: nat,
    triggers_armed: nat,
) -> SnapshotView {
    SnapshotView {
        spaces: Seq::new(s.spaces.len(), |i: int| space_told(s, s.spaces[i])),
        tabs: Seq::new(s.tabs.len(), |i: int| tab_told(s.tabs[i])),
        panes: Seq::new(s.panes.len(), |i: int| pane_told(s.panes[i], rects, now)),
        focused_space: s.focused_space,
        focused_tab: s.front_tab(),
        focused_pane: s.front_pane(),
        view: s.view,
        sidebar: s.chrome.sidebar,
        bus: s.chrome.bus,
        status: s.chrome.status,
        tabbar: s.chrome.tabbar,
        tasks_open,
        tasks_claimed,
        triggers_armed,
        cards_due: 0,
        recents: Seq::empty(),
    }
}

/// Where a pane is drawn.
fn find_rects(rects: &Vec<(u64, Rect, Rect)>, id: u64) -> (r: (Rect, Rect))
    ensures
        r == rects_at(rects@, id),
{
    let mut i: usize = 0;
    while i < rects.len()
        invariant
            i <= rects@.len(),
            forall|j: int| 0 <= j < i ==> !rects_for(id)(#[trigger] rects@[j]),
        decreases rects@.len() - i,
    {
        if rects[i].0 == id {
            proof {
                lemma_first_where_is(rects@, rects_for(id), i as int);
            }
            return (rects[i].1, rects[i].2);
        }
        i = i + 1;
    }
    proof {
        lemma_first_where_is(rects@, rects_for(id), i as int);
    }
    (Rect::new(0, 0, 0, 0), Rect::new(0, 0, 0, 0))
}

/// What a client is told about a pane.
fn tell_pane(p: &Pane, rects: &Vec<(u64, Rect, Rect)>, now: u64) -> (r: PaneInfo)
    ensures
        r@ == pane_told(p@, rects@, now),
{
    let (cell, content) = find_rects(rects, p.id);
    PaneInfo {
        id: p.id,
        tab: p.tab,
        space: p.space,
        title: display_name(as_opt(&p.name), as_opt(&p.life.title), p.cmd.as_str()),
        cwd: p.cwd.clone(),
        cell,
        content,
        cols: p.life.cols,
        rows: p.life.rows,
        agent: match &p.life.agent {
            Some(a) => Some(a.info(now)),
            None => None,
        },
        spawned_by: p.life.spawned_by,
        exited: p.life.exited,
        scroll_offset: p.life.scroll_offset,
        wants_mouse: p.life.wants_mouse,
        bracketed_paste: p.life.bracketed_paste,
    }
}

impl Session {
    /// How many agents some panes hold, and how many of them want a person to look.
    fn count_agents(&self, panes: &Vec<u64>) -> (r: (usize, usize))
        ensures
            r.0 as nat == count_where(panes@, has_agent(self@)),
            r.1 as nat == count_where(panes@, calls_you(self@)),
    {
        let mut agents: usize = 0;
        let mut calling: usize = 0;
        let mut i: usize = 0;
        proof {
            assert(panes@.take(0) =~= Seq::<u64>::empty());
        }
        while i < panes.len()
            invariant
                i <= panes@.len(),
                agents <= i,
                calling <= i,
                agents as nat == count_where(panes@.take(i as int), has_agent(self@)),
                calling as nat == count_where(panes@.take(i as int), calls_you(self@)),
            decreases panes@.len() - i,
        {
            proof {
                lemma_count_take(panes@, has_agent(self@), i as int);
                lemma_count_take(panes@, calls_you(self@), i as int);
            }
            match self.pane(panes[i]) {
                Some(p) => match &p.life.agent {
                    Some(a) => {
                        agents = agents + 1;
                        if a.state.needs_attention() {
                            calling = calling + 1;
                        }
                    },
                    None => {},
                },
                None => {},
            }
            i = i + 1;
        }
        proof {
            assert(panes@.take(i as int) =~= panes@);
        }
        (agents, calling)
    }

    /// The panes of some tabs, in order.
    fn panes_in_tabs(&self, tabs: &Vec<u64>) -> (r: Vec<u64>)
        ensures
            r@ == panes_of_tabs(self@, tabs@, tabs@.len() as int),
    {
        let mut out: Vec<u64> = Vec::new();
        let mut t: usize = 0;
        while t < tabs.len()
            invariant
                t <= tabs@.len(),
                out@ == panes_of_tabs(self@, tabs@, t as int),
            decreases tabs@.len() - t,
        {
            match self.tab(tabs[t]) {
                Some(tab) => {
                    let mut panes = tab.layout.panes();
                    out.append(&mut panes);
                },
                None => {},
            }
            t = t + 1;
            proof {
                assert(out@ =~= panes_of_tabs(self@, tabs@, t as int));
            }
        }
        out
    }

    /// What a client is told about the whole session. `tiles` is what the layout of the tab in
    /// front comes to, and the counts are the board's and the trigger store's.
    pub fn snapshot(
        &self,
        bars: Bars,
        tiles: &Vec<(u64, Rect)>,
        now: u64,
        tasks_open: usize,
        tasks_claimed: usize,
        triggers_armed: usize,
    ) -> (r: Snapshot)
        ensures
            r@ == told(
                self@,
                rects_of(self@, bars, tiles@),
                now,
                tasks_open as nat,
                tasks_claimed as nat,
                triggers_armed as nat,
            ),
    {
        let rects = self.visible_rects(bars, tiles);
        let ghost want = told(
            self@,
            rects@,
            now,
            tasks_open as nat,
            tasks_claimed as nat,
            triggers_armed as nat,
        );
        let mut panes: Vec<PaneInfo> = Vec::new();
        let mut i: usize = 0;
        while i < self.panes.len()
            invariant
                i <= self.panes@.len(),
                panes@.len() == i,
                forall|j: int|
                    0 <= j < i ==> (#[trigger] panes@[j])@ == pane_told(
                        self@.panes[j],
                        rects@,
                        now,
                    ),
            decreases self.panes@.len() - i,
        {
            panes.push(tell_pane(&self.panes[i], &rects, now));
            i = i + 1;
        }
        let mut tabs: Vec<TabInfo> = Vec::new();
        let mut i: usize = 0;
        while i < self.tabs.len()
            invariant
                i <= self.tabs@.len(),
                tabs@.len() == i,
                forall|j: int| 0 <= j < i ==> (#[trigger] tabs@[j])@ == tab_told(self@.tabs[j]),
            decreases self.tabs@.len() - i,
        {
            let t = &self.tabs[i];
            tabs.push(
                TabInfo {
                    id: t.id,
                    space: t.space,
                    name: t.name.clone(),
                    panes: t.layout.panes(),
                    focused_pane: t.focused_pane,
                },
            );
            i = i + 1;
        }
        let mut spaces: Vec<SpaceInfo> = Vec::new();
        let mut i: usize = 0;
        while i < self.spaces.len()
            invariant
                i <= self.spaces@.len(),
                spaces@.len() == i,
                forall|j: int|
                    0 <= j < i ==> (#[trigger] spaces@[j])@ == space_told(self@, self@.spaces[j]),
            decreases self.spaces@.len() - i,
        {
            let s = &self.spaces[i];
            let ps = self.panes_in_tabs(&s.tabs);
            let (agent_count, attention_count) = self.count_agents(&ps);
            let ids: Vec<u64> = s.tabs.clone();
            let lsp: Vec<LspInfo> = Vec::new();
            proof {
                assert(ids@ =~= s.tabs@);
                assert(info_views(lsp@) =~= Seq::<LspInfoView>::empty());
            }
            spaces.push(
                SpaceInfo {
                    id: s.id,
                    name: s.name.clone(),
                    cwd: s.cwd.clone(),
                    tabs: ids,
                    focused_tab: s.focused_tab,
                    agent_count,
                    attention_count,
                    look: self.look(s.id),
                    notes: None,
                    lsp,
                },
            );
            i = i + 1;
        }
        let snap = Snapshot {
            spaces,
            tabs,
            panes,
            focused_space: self.focused_space,
            focused_tab: self.focused_tab(),
            focused_pane: self.focused_pane(),
            view: self.view,
            sidebar: self.chrome.sidebar,
            bus: self.chrome.bus,
            status: self.chrome.status,
            tabbar: self.chrome.tabbar,
            tasks_open,
            tasks_claimed,
            triggers_armed,
            cards_due: 0,
            recents: Vec::new(),
        };
        proof {
            assert(snap@.spaces =~= want.spaces);
            assert(snap@.tabs =~= want.tabs);
            assert(snap@.panes =~= want.panes);
            assert(snap@.recents =~= want.recents);
        }
        snap
    }
}

} // verus!
