//! Taking a session over from another daemon, and shaping a tab after a preset.
//!
//! Panes are adopted rather than started: their processes never learn the daemon changed.

use crate::handoff::{
    adopt, adopted, collect_hleaves, id_at, rebuild_hnode, rebuilt, HPane, HSpace, HTab, Manifest,
};
use crate::layout::{Layout, Node};
use crate::state::{
    lemma_ids_bound, taken, unique_name, Bars, Effect, EffectView, Pane, PaneView, Session,
    SessionView, Space, SpaceView, Tab, TabView,
};
use crate::text::{as_opt, decimal, number, opt_text, own_opt, owned};
use vstd::prelude::*;
use vstd::string::*;

verus! {

/// Why a session could not be taken over.
#[derive(Debug, Clone, Copy, PartialEq, Eq, Structural)]
pub enum ImportError {
    /// A tree speaks of a pane that was not handed over.
    NotInManifest(usize),
    /// A pane came without its terminal, or is spoken of twice.
    NoDescriptor(usize),
    /// A tree speaks of a pane that was not adopted.
    NotAdopted(usize),
    /// There are no ids left to give.
    Exhausted,
}

/// What comes of taking a session over, once it is known whether every program in it could be: as
/// many panes as there are, or why not.
pub fn taken_over(r: Result<usize, ImportError>, failed: Option<&str>) -> (after: Result<
    usize,
    String,
>)
    ensures
        match (r, failed) {
            (Err(e), _) => after is Err && after->Err_0@ == e.text(),
            (Ok(_), Some(why)) => after is Err && after->Err_0@ == why@,
            (Ok(n), None) => after == Ok::<usize, String>(n),
        },
{
    match (r, failed) {
        (Err(e), _) => Err(e.message()),
        (Ok(_), Some(why)) => Err(owned(why)),
        (Ok(n), None) => Ok(n),
    }
}

impl ImportError {
    /// The sentence a person is shown.
    pub open spec fn text(self) -> Seq<char> {
        match self {
            ImportError::NotInManifest(i) => "tree references pane "@ + decimal(i as nat)
                + " which is not in the manifest"@,
            ImportError::NoDescriptor(i) => "no descriptor for pane "@ + decimal(i as nat),
            ImportError::NotAdopted(i) => "pane "@ + decimal(i as nat) + " was not adopted"@,
            ImportError::Exhausted => "out of ids"@,
        }
    }

    /// The sentence a person is shown.
    pub fn message(&self) -> (r: String)
        ensures
            r@ == self.text(),
    {
        match self {
            ImportError::NotInManifest(i) => {
                let mut m = owned("tree references pane ");
                m.append(number(*i as u64).as_str());
                m.append(" which is not in the manifest");
                m
            },
            ImportError::NoDescriptor(i) => {
                let mut m = owned("no descriptor for pane ");
                m.append(number(*i as u64).as_str());
                m
            },
            ImportError::NotAdopted(i) => {
                let mut m = owned("pane ");
                m.append(number(*i as u64).as_str());
                m.append(" was not adopted");
                m
            },
            ImportError::Exhausted => owned("out of ids"),
        }
    }
}

/// How far a takeover has got.
pub struct ImportView {
    pub s: SessionView,
    /// The pane that each number of the manifest stands for here.
    pub ids: Seq<Option<u64>>,
    /// Which terminals have not been taken.
    pub free: Seq<bool>,
    pub err: Option<ImportError>,
}

/// One pane adopted, into a tab.
pub open spec fn leaf_in(
    st: ImportView,
    panes: Seq<HPane>,
    space: u64,
    tab: u64,
    mi: usize,
    now: u64,
) -> ImportView {
    if st.err is Some {
        st
    } else if mi >= panes.len() {
        ImportView { err: Some(ImportError::NotInManifest(mi)), ..st }
    } else if mi >= st.free.len() || !st.free[mi as int] {
        ImportView { err: Some(ImportError::NoDescriptor(mi)), ..st }
    } else if st.s.next_pane == u64::MAX {
        ImportView { err: Some(ImportError::Exhausted), ..st }
    } else {
        let h = panes[mi as int];
        let id = st.s.next_pane;
        ImportView {
            s: SessionView {
                panes: st.s.panes.push(
                    PaneView {
                        id,
                        tab,
                        space,
                        cmd: h.cmd@,
                        cwd: h.cwd@,
                        name: opt_text(h.name),
                        life: adopted(h, now),
                    },
                ),
                next_pane: (id + 1) as u64,
                effects: st.s.effects.push(EffectView::Adopt { pane: id, index: mi }),
                ..st.s
            },
            ids: st.ids.update(mi as int, Some(id)),
            free: st.free.update(mi as int, false),
            err: None,
        }
    }
}

/// The first `n` panes of a tree adopted, in order, until one cannot be.
pub open spec fn leaves_in(
    st: ImportView,
    panes: Seq<HPane>,
    space: u64,
    tab: u64,
    leaves: Seq<usize>,
    n: int,
    now: u64,
) -> ImportView
    decreases n,
{
    if n <= 0 {
        st
    } else {
        leaf_in(
            leaves_in(st, panes, space, tab, leaves, n - 1, now),
            panes,
            space,
            tab,
            leaves[n - 1],
            now,
        )
    }
}

/// A session with a tab that has no panes yet, listed by its space.
pub open spec fn with_empty_tab(s: SessionView, space: u64, name: Seq<char>) -> SessionView {
    let id = s.next_tab;
    let i = s.space_at(space);
    SessionView {
        tabs: s.tabs.push(
            TabView { id, space, name, layout: Layout { tree: None }, focused_pane: None },
        ),
        spaces: if i < s.spaces.len() {
            s.spaces.update(i, SpaceView { tabs: s.spaces[i].tabs.push(id), ..s.spaces[i] })
        } else {
            s.spaces
        },
        next_tab: (id + 1) as u64,
        ..s
    }
}

/// A session with a tab given its panes.
pub open spec fn with_tree(s: SessionView, tab: u64, n: Node, front: Option<u64>) -> SessionView {
    let k = s.tab_at(tab);
    if k < s.tabs.len() {
        SessionView {
            tabs: s.tabs.update(
                k,
                TabView { layout: Layout { tree: Some(n) }, focused_pane: front, ..s.tabs[k] },
            ),
            ..s
        }
    } else {
        s
    }
}

/// One tab taken over: its panes adopted, and its tree built again.
pub open spec fn tab_in(st: ImportView, panes: Seq<HPane>, space: u64, h: HTab, now: u64) -> ImportView {
    if st.err is Some {
        st
    } else if st.s.next_tab == u64::MAX {
        ImportView { err: Some(ImportError::Exhausted), ..st }
    } else {
        let id = st.s.next_tab;
        let opened = ImportView { s: with_empty_tab(st.s, space, h.name@), ..st };
        let ls = h.tree.leaves();
        let t = leaves_in(opened, panes, space, id, ls, ls.len() as int, now);
        if t.err is Some {
            t
        } else {
            match rebuilt(h.tree, t.ids) {
                Err(i) => ImportView { err: Some(ImportError::NotAdopted(i)), ..t },
                Ok(n) => ImportView {
                    s: with_tree(
                        t.s,
                        id,
                        n,
                        match h.focused_pane {
                            Some(i) => id_at(t.ids, i as int),
                            None => None,
                        },
                    ),
                    ..t
                },
            }
        }
    }
}

/// The first `n` tabs of a space taken over.
pub open spec fn tabs_in(
    st: ImportView,
    panes: Seq<HPane>,
    space: u64,
    tabs: Seq<HTab>,
    n: int,
    now: u64,
) -> ImportView
    decreases n,
{
    if n <= 0 {
        st
    } else {
        tab_in(tabs_in(st, panes, space, tabs, n - 1, now), panes, space, tabs[n - 1], now)
    }
}

/// A session with a space that has no tabs yet. It is not put in front.
pub open spec fn with_bare_space(s: SessionView, name: Seq<char>, cwd: Seq<char>) -> SessionView {
    SessionView {
        spaces: s.spaces.push(
            SpaceView {
                id: s.next_space,
                name: unique_name(s.spaces, name),
                cwd,
                tabs: Seq::empty(),
                focused_tab: None,
            },
        ),
        next_space: (s.next_space + 1) as u64,
        ..s
    }
}

/// A session with a tab of a space in front, by its number: the first where there is no such.
pub open spec fn with_front_tab(s: SessionView, space: u64, at: Option<usize>) -> SessionView {
    let i = s.space_at(space);
    if i < s.spaces.len() {
        let tabs = s.spaces[i].tabs;
        let front = match at {
            Some(k) if (k as int) < tabs.len() => Some(tabs[k as int]),
            _ => if tabs.len() > 0 {
                Some(tabs[0])
            } else {
                None
            },
        };
        SessionView {
            spaces: s.spaces.update(i, SpaceView { focused_tab: front, ..s.spaces[i] }),
            ..s
        }
    } else {
        s
    }
}

/// One space taken over.
pub open spec fn space_in(st: ImportView, panes: Seq<HPane>, h: HSpace, now: u64) -> ImportView {
    if st.err is Some {
        st
    } else if !st.s.has_space_ids() {
        ImportView { err: Some(ImportError::Exhausted), ..st }
    } else {
        let id = st.s.next_space;
        let opened = ImportView { s: with_bare_space(st.s, h.name@, h.cwd@), ..st };
        let t = tabs_in(opened, panes, id, h.tabs@, h.tabs@.len() as int, now);
        if t.err is Some {
            t
        } else {
            ImportView { s: with_front_tab(t.s, id, h.focused_tab), ..t }
        }
    }
}

/// The first `n` spaces taken over.
pub open spec fn spaces_in(
    st: ImportView,
    panes: Seq<HPane>,
    spaces: Seq<HSpace>,
    n: int,
    now: u64,
) -> ImportView
    decreases n,
{
    if n <= 0 {
        st
    } else {
        space_in(spaces_in(st, panes, spaces, n - 1, now), panes, spaces[n - 1], now)
    }
}

/// How a takeover starts: the view and the size are the predecessor's, and no pane is adopted.
pub open spec fn import_start(s: SessionView, m: Manifest, fds: nat) -> ImportView {
    ImportView {
        s: SessionView {
            view: m.view,
            client_cols: m.client_cols,
            client_rows: m.client_rows,
            ..s
        },
        ids: Seq::new(m.panes@.len(), |i: int| None),
        free: Seq::new(fds, |i: int| true),
        err: None,
    }
}

/// A session taken over, and how many panes it has; or how far that got and why no further.
pub open spec fn imported(s: SessionView, bars: Bars, m: Manifest, fds: nat, now: u64) -> (
    SessionView,
    Result<nat, ImportError>,
) {
    let first = s.next_space;
    let n = m.spaces@.len() as int;
    let t = spaces_in(import_start(s, m, fds), m.panes@, m.spaces@, n, now);
    match t.err {
        Some(e) => (t.s, Err(e)),
        None => {
            let front = match m.focused_space {
                Some(i) if i < n => Some((first + i) as u64),
                _ => if n > 0 {
                    Some(first)
                } else {
                    None
                },
            };
            let u = (SessionView { focused_space: front, ..t.s }).laid_out(bars);
            (u, Ok(u.panes.len()))
        },
    }
}

/// How far a takeover has got.
struct Progress {
    ids: Vec<Option<u64>>,
    free: Vec<bool>,
    err: Option<ImportError>,
}

spec fn view_of(s: SessionView, p: Progress) -> ImportView {
    ImportView { s, ids: p.ids@, free: p.free@, err: p.err }
}

impl Session {
    /// One pane adopted, into a tab.
    fn import_leaf(&mut self, p: &mut Progress, panes: &Vec<HPane>, space: u64, tab: u64, mi: usize, now: u64)
        requires
            old(self)@.wf(),
            old(p).ids@.len() == panes@.len(),
        ensures
            final(self)@.wf(),
            final(p).ids@.len() == panes@.len(),
            view_of(final(self)@, *final(p)) == leaf_in(
                view_of(old(self)@, *old(p)),
                panes@,
                space,
                tab,
                mi,
                now,
            ),
    {
        if p.err.is_some() {
            return;
        }
        if mi >= panes.len() {
            p.err = Some(ImportError::NotInManifest(mi));
            return;
        }
        if mi >= p.free.len() || !p.free[mi] {
            p.err = Some(ImportError::NoDescriptor(mi));
            return;
        }
        if self.next_pane == u64::MAX {
            p.err = Some(ImportError::Exhausted);
            return;
        }
        let ghost before = self@;
        let h = &panes[mi];
        let id: u64 = self.next_pane;
        self.next_pane = id + 1;
        let pane = Pane {
            id,
            tab,
            space,
            cmd: h.cmd.clone(),
            cwd: h.cwd.clone(),
            name: own_opt(as_opt(&h.name)),
            life: adopt(h, now),
        };
        self.panes.push(pane);
        self.effects.push(Effect::Adopt { pane: id, index: mi });
        p.ids.set(mi, Some(id));
        p.free.set(mi, false);
        proof {
            assert(self@.panes =~= before.panes.push(pane@));
            assert(self@.effects =~= before.effects.push(
                EffectView::Adopt { pane: id, index: mi },
            ));
        }
    }

    /// One tab taken over.
    fn import_tab(&mut self, p: &mut Progress, panes: &Vec<HPane>, space: u64, h: &HTab, now: u64)
        requires
            old(self)@.wf(),
            old(p).ids@.len() == panes@.len(),
        ensures
            final(self)@.wf(),
            final(p).ids@.len() == panes@.len(),
            view_of(final(self)@, *final(p)) == tab_in(
                view_of(old(self)@, *old(p)),
                panes@,
                space,
                *h,
                now,
            ),
    {
        if p.err.is_some() {
            return;
        }
        if self.next_tab == u64::MAX {
            p.err = Some(ImportError::Exhausted);
            return;
        }
        let id: u64 = self.next_tab;
        self.open_tab(space, h.name.as_str());
        let ghost opened = view_of(self@, *p);
        let mut leaves: Vec<usize> = Vec::new();
        collect_hleaves(&h.tree, &mut leaves);
        proof {
            assert(leaves@ =~= h.tree.leaves());
        }
        let mut i: usize = 0;
        while i < leaves.len()
            invariant
                i <= leaves@.len(),
                self@.wf(),
                p.ids@.len() == panes@.len(),
                view_of(self@, *p) == leaves_in(
                    opened,
                    panes@,
                    space,
                    id,
                    leaves@,
                    i as int,
                    now,
                ),
            decreases leaves@.len() - i,
        {
            self.import_leaf(p, panes, space, id, leaves[i], now);
            i = i + 1;
        }
        if p.err.is_some() {
            return;
        }
        match rebuild_hnode(&h.tree, &p.ids) {
            Err(i) => {
                p.err = Some(ImportError::NotAdopted(i));
            },
            Ok(n) => {
                let front: Option<u64> = match h.focused_pane {
                    Some(i) => if i < p.ids.len() {
                        p.ids[i]
                    } else {
                        None
                    },
                    None => None,
                };
                let k: usize = self.tab_index(id);
                if k < self.tabs.len() {
                    self.set_tab(k, Layout::from_root(n), front);
                }
            },
        }
    }

    /// A tab without panes, listed by its space.
    fn open_tab(&mut self, space: u64, name: &str)
        requires
            old(self)@.wf(),
            old(self)@.next_tab < u64::MAX,
        ensures
            final(self)@.wf(),
            final(self)@ == with_empty_tab(old(self)@, space, name@),
    {
        let ghost before = self@;
        let id: u64 = self.next_tab;
        self.next_tab = id + 1;
        self.tabs.push(
            Tab { id, space, name: owned(name), layout: Layout::new(), focused_pane: None },
        );
        let i: usize = self.space_index(space);
        if i < self.spaces.len() {
            self.spaces[i].tabs.push(id);
        }
        proof {
            let want = with_empty_tab(before, space, name@);
            assert(self@.tabs.last().layout == (Layout { tree: None }));
            assert(self@.tabs =~= want.tabs);
            assert(self@.spaces =~= want.spaces);
        }
    }

    /// One space taken over.
    fn import_space(&mut self, p: &mut Progress, panes: &Vec<HPane>, h: &HSpace, now: u64)
        requires
            old(self)@.wf(),
            old(p).ids@.len() == panes@.len(),
        ensures
            final(self)@.wf(),
            final(p).ids@.len() == panes@.len(),
            view_of(final(self)@, *final(p)) == space_in(
                view_of(old(self)@, *old(p)),
                panes@,
                *h,
                now,
            ),
    {
        if p.err.is_some() {
            return;
        }
        if self.next_space >= u64::MAX - 2 {
            p.err = Some(ImportError::Exhausted);
            return;
        }
        let id: u64 = self.next_space;
        self.open_space(h.name.as_str(), h.cwd.as_str());
        let ghost opened = view_of(self@, *p);
        let mut i: usize = 0;
        while i < h.tabs.len()
            invariant
                i <= h.tabs@.len(),
                self@.wf(),
                p.ids@.len() == panes@.len(),
                view_of(self@, *p) == tabs_in(opened, panes@, id, h.tabs@, i as int, now),
            decreases h.tabs@.len() - i,
        {
            self.import_tab(p, panes, id, &h.tabs[i], now);
            i = i + 1;
        }
        if p.err.is_some() {
            return;
        }
        let ghost before = self@;
        let k: usize = self.space_index(id);
        if k < self.spaces.len() {
            let n: usize = self.spaces[k].tabs.len();
            let front: Option<u64> = match h.focused_tab {
                Some(at) => if at < n {
                    Some(self.spaces[k].tabs[at])
                } else if n > 0 {
                    Some(self.spaces[k].tabs[0])
                } else {
                    None
                },
                None => if n > 0 {
                    Some(self.spaces[k].tabs[0])
                } else {
                    None
                },
            };
            self.spaces[k].focused_tab = front;
            proof {
                assert(self@.spaces =~= with_front_tab(before, id, h.focused_tab).spaces);
            }
        }
    }

    /// A space without tabs.
    fn open_space(&mut self, name: &str, cwd: &str)
        requires
            old(self)@.wf(),
            old(self)@.has_space_ids(),
        ensures
            final(self)@.wf(),
            final(self)@ == with_bare_space(old(self)@, name@, cwd@),
    {
        let ghost before = self@;
        proof {
            if before.spaces.len() > 0 {
                lemma_ids_bound(before, before.spaces.len() - 1);
            }
        }
        let unique = self.unique_space_name(name);
        let id: u64 = self.next_space;
        self.next_space = id + 1;
        self.spaces.push(
            Space { id, name: unique, cwd: owned(cwd), tabs: Vec::new(), focused_tab: None },
        );
        proof {
            assert(self@.spaces.last().tabs =~= Seq::<u64>::empty());
            assert(self@.spaces =~= with_bare_space(before, name@, cwd@).spaces);
            assert forall|i: int, j: int| 0 <= i < j < self@.spaces.len() implies (
            #[trigger] self@.spaces[i]).name != (#[trigger] self@.spaces[j]).name by {
                if j == before.spaces.len() {
                    assert(self@.spaces[i] == before.spaces[i]);
                    assert(!taken(before.spaces, unique@));
                }
            }
        }
    }

    /// Rebuild this session from a predecessor's manifest, of whose panes `fds` terminals came
    /// along. Gives how many panes there are.
    pub fn import(&mut self, bars: Bars, m: &Manifest, fds: usize, now: u64) -> (r: Result<
        usize,
        ImportError,
    >)
        requires
            old(self)@.wf(),
        ensures
            (
                final(self)@,
                match r {
                    Ok(n) => Ok::<nat, ImportError>(n as nat),
                    Err(e) => Err(e),
                },
            ) == imported(old(self)@, bars, *m, fds as nat, now),
            final(self)@.wf(),
    {
        let ghost s0 = self@;
        let first: u64 = self.next_space;
        let mut p = Progress { ids: Vec::new(), free: Vec::new(), err: None };
        let mut i: usize = 0;
        while i < m.panes.len()
            invariant
                i <= m.panes@.len(),
                p.ids@ == Seq::new(i as nat, |j: int| None::<u64>),
                p.free@.len() == 0,
                p.err is None,
            decreases m.panes@.len() - i,
        {
            p.ids.push(None);
            i = i + 1;
            proof {
                assert(p.ids@ =~= Seq::new(i as nat, |j: int| None::<u64>));
            }
        }
        let mut i: usize = 0;
        while i < fds
            invariant
                i <= fds,
                p.ids@ == Seq::new(m.panes@.len(), |j: int| None::<u64>),
                p.free@ == Seq::new(i as nat, |j: int| true),
                p.err is None,
            decreases fds - i,
        {
            p.free.push(true);
            i = i + 1;
            proof {
                assert(p.free@ =~= Seq::new(i as nat, |j: int| true));
            }
        }
        self.view = m.view;
        self.client_cols = m.client_cols;
        self.client_rows = m.client_rows;
        let ghost start = view_of(self@, p);
        proof {
            assert(start.ids =~= import_start(s0, *m, fds as nat).ids);
            assert(start.free =~= import_start(s0, *m, fds as nat).free);
            assert(start == import_start(s0, *m, fds as nat));
        }
        let mut i: usize = 0;
        while i < m.spaces.len()
            invariant
                i <= m.spaces@.len(),
                self@.wf(),
                p.ids@.len() == m.panes@.len(),
                view_of(self@, p) == spaces_in(start, m.panes@, m.spaces@, i as int, now),
            decreases m.spaces@.len() - i,
        {
            self.import_space(&mut p, &m.panes, &m.spaces[i], now);
            i = i + 1;
        }
        if let Some(e) = p.err {
            return Err(e);
        }
        let n: usize = m.spaces.len();
        proof {
            lemma_spaces_number(start, m.panes@, m.spaces@, n as int, now);
        }
        self.focused_space =
        match m.focused_space {
            Some(at) => if at < n {
                Some(first + at as u64)
            } else if n > 0 {
                Some(first)
            } else {
                None
            },
            None => if n > 0 {
                Some(first)
            } else {
                None
            },
        };
        self.relayout(bars);
        Ok(self.panes.len())
    }
}

/// Taking panes over gives out no ids of spaces.
proof fn lemma_leaves_number(
    st: ImportView,
    panes: Seq<HPane>,
    space: u64,
    tab: u64,
    leaves: Seq<usize>,
    n: int,
    now: u64,
)
    ensures
        leaves_in(st, panes, space, tab, leaves, n, now).s.next_space == st.s.next_space,
    decreases n,
{
    if n > 0 {
        lemma_leaves_number(st, panes, space, tab, leaves, n - 1, now);
    }
}

proof fn lemma_tabs_number(
    st: ImportView,
    panes: Seq<HPane>,
    space: u64,
    tabs: Seq<HTab>,
    n: int,
    now: u64,
)
    ensures
        tabs_in(st, panes, space, tabs, n, now).s.next_space == st.s.next_space,
    decreases n,
{
    if n > 0 {
        lemma_tabs_number(st, panes, space, tabs, n - 1, now);
        let t = tabs_in(st, panes, space, tabs, n - 1, now);
        let h = tabs[n - 1];
        let opened = ImportView { s: with_empty_tab(t.s, space, h.name@), ..t };
        let ls = h.tree.leaves();
        lemma_leaves_number(opened, panes, space, t.s.next_tab, ls, ls.len() as int, now);
    }
}

/// The spaces taken over are numbered on from the first free id.
proof fn lemma_spaces_number(
    st: ImportView,
    panes: Seq<HPane>,
    spaces: Seq<HSpace>,
    n: int,
    now: u64,
)
    requires
        0 <= n,
        spaces_in(st, panes, spaces, n, now).err is None,
    ensures
        spaces_in(st, panes, spaces, n, now).s.next_space == st.s.next_space + n,
    decreases n,
{
    if n > 0 {
        lemma_spaces_number(st, panes, spaces, n - 1, now);
        let t = spaces_in(st, panes, spaces, n - 1, now);
        let h = spaces[n - 1];
        let opened = ImportView { s: with_bare_space(t.s, h.name@, h.cwd@), ..t };
        lemma_tabs_number(opened, panes, t.s.next_space, h.tabs@, h.tabs@.len() as int, now);
    }
}

} // verus!
