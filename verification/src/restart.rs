//! What a restart brings back: the shape that was saved.

use crate::layout::{leaving_out, Layout};
use crate::persist::{
    command_back, dir_or, ids_given, law_rebuilding_assigns_in_order, leaves_back,
    lemma_saved_leaves_len, node_saved,
    pane_saved, regrown, restored, saved, saved_leaves, space_back, spaces_back, tab_back,
    tabs_back, tabs_closed, tabs_saved, with_panes, SavedNodeView, SavedPaneView, SavedSpaceView,
    SavedStateView, SavedTabView, WishesView,
};
use crate::seqs::{lemma_first_where, lemma_first_where_is};
use crate::state::{
    id_is, killed, killed_all, newborn, pane_is, space_is, space_without_tab, tab_closed,
    tab_dropped, tab_is, taken, with_empty_space, with_space, with_tab, Bars, PaneView,
    SessionView, SpaceView, TabView,
};
use crate::survival::{
    front_of, front_space, lemma_free_name, lemma_run, run_of, space_whole, tab_whole, whole,
};
use vstd::prelude::*;

verus! {

// -- panes -------------------------------------------------------------------

/// A pane that was brought back: a fresh program in the saved directory.
pub open spec fn pane_back(
    id: int,
    space: u64,
    tab: u64,
    leaf: SavedPaneView,
    w: WishesView,
    cwd: Seq<char>,
) -> PaneView {
    PaneView {
        id: id as u64,
        tab,
        space,
        cmd: command_back(w.restore_agents, w.usual, w.shell, leaf),
        cwd: dir_or(w.dirs, leaf.cwd, cwd),
        name: leaf.name,
        life: newborn(),
    }
}

/// The panes of a tab that was brought back, with ids from `first` on.
pub open spec fn panes_back(
    first: int,
    space: u64,
    tab: u64,
    leaves: Seq<SavedPaneView>,
    w: WishesView,
    cwd: Seq<char>,
) -> Seq<PaneView> {
    Seq::new(leaves.len(), |j: int| pane_back(first + j, space, tab, leaves[j], w, cwd))
}

proof fn lemma_leaves_back(
    s: SessionView,
    w: WishesView,
    space: u64,
    tab: u64,
    leaves: Seq<SavedPaneView>,
    cwd: Seq<char>,
    n: int,
)
    requires
        0 <= n <= leaves.len(),
        s.next_pane + leaves.len() < u64::MAX,
    ensures
        ({
            let r = leaves_back(s, w, space, tab, leaves, cwd, n);
            &&& r.panes == s.panes + panes_back(
                s.next_pane as int,
                space,
                tab,
                leaves,
                w,
                cwd,
            ).take(n)
            &&& r.next_pane == s.next_pane + n
            &&& r.tabs == s.tabs
            &&& r.spaces == s.spaces
            &&& r.next_tab == s.next_tab
            &&& r.next_space == s.next_space
            &&& r.focused_space == s.focused_space
        }),
    decreases n,
{
    let all = panes_back(s.next_pane as int, space, tab, leaves, w, cwd);
    let r = leaves_back(s, w, space, tab, leaves, cwd, n);
    if n <= 0 {
        assert(r.panes =~= s.panes + all.take(0));
    } else {
        lemma_leaves_back(s, w, space, tab, leaves, cwd, n - 1);
        assert(r.panes =~= s.panes + all.take(n));
    }
}

// -- one tab -----------------------------------------------------------------

/// Ids go up, and the next ones are above them all.
pub open spec fn rising(s: SessionView) -> bool {
    &&& forall|i: int, j: int|
        0 <= i < j < s.spaces.len() ==> (#[trigger] s.spaces[i]).id < (#[trigger] s.spaces[j]).id
    &&& forall|i: int, j: int|
        0 <= i < j < s.tabs.len() ==> (#[trigger] s.tabs[i]).id < (#[trigger] s.tabs[j]).id
    &&& forall|i: int, j: int|
        0 <= i < j < s.panes.len() ==> (#[trigger] s.panes[i]).id < (#[trigger] s.panes[j]).id
    &&& forall|i: int| 0 <= i < s.spaces.len() ==> (#[trigger] s.spaces[i]).id < s.next_space
    &&& forall|i: int| 0 <= i < s.tabs.len() ==> (#[trigger] s.tabs[i]).id < s.next_tab
    &&& forall|i: int| 0 <= i < s.panes.len() ==> (#[trigger] s.panes[i]).id < s.next_pane
}

/// A tab that was brought back.
pub open spec fn tab_made(id: int, space: u64, first: int, t: SavedTabView) -> TabView {
    let n = saved_leaves(t.tree).len();
    TabView {
        id: id as u64,
        space,
        name: t.name,
        layout: Layout { tree: Some(regrown(t.tree, run_of(first as u64, n), 0)) },
        focused_pane: match t.focused_pane {
            Some(i) if (i as int) < n => Some((first + i) as u64),
            _ => None,
        },
    }
}

proof fn lemma_last_space(s: SessionView, space: u64)
    requires
        rising(s),
        s.spaces.len() > 0,
        s.spaces.last().id == space,
    ensures
        s.space_at(space) == s.spaces.len() - 1,
{
    let k = s.spaces.len() - 1;
    assert forall|i: int| 0 <= i < k implies !space_is(space)(#[trigger] s.spaces[i]) by {
        assert(s.spaces[i].id < s.spaces[k].id);
    }
    lemma_first_where_is(s.spaces, space_is(space), k);
}

pub(crate) proof fn lemma_tab_back(
    s: SessionView,
    w: WishesView,
    bars: Bars,
    space: u64,
    cwd: Seq<char>,
    t: SavedTabView,
    in_front: bool,
)
    requires
        rising(s),
        s.spaces.len() > 0,
        s.spaces.last().id == space,
        s.next_tab < u64::MAX,
        s.next_pane + 1 + saved_leaves(t.tree).len() < u64::MAX,
    ensures
        ({
            let r = tab_back(s, w, bars, space, cwd, t, in_front);
            let leaves = saved_leaves(t.tree);
            let sp = s.spaces.last();
            &&& r.panes == s.panes + panes_back(
                s.next_pane + 1,
                space,
                s.next_tab,
                leaves,
                w,
                cwd,
            )
            &&& r.tabs == s.tabs.push(
                tab_made(s.next_tab as int, space, s.next_pane + 1, t),
            )
            &&& r.spaces == s.spaces.update(
                s.spaces.len() - 1,
                SpaceView {
                    tabs: sp.tabs.push(s.next_tab),
                    focused_tab: Some(s.next_tab),
                    ..sp
                },
            )
            &&& r.next_tab == s.next_tab + 1
            &&& r.next_pane == s.next_pane + 1 + leaves.len()
            &&& r.next_space == s.next_space
            &&& r.focused_space == (if in_front {
                Some(space)
            } else {
                s.focused_space
            })
            &&& rising(r)
        }),
{
    lemma_last_space(s, space);
    let id = s.next_tab;
    let seed = s.next_pane;
    let leaves = saved_leaves(t.tree);
    let n = leaves.len() as int;
    let k = s.spaces.len() - 1;
    let m = s.tabs.len() as int;
    let a = with_tab(s, bars, w.shell, space, Some(t.name)).0;
    assert(a.panes.drop_last() =~= s.panes);
    assert forall|i: int| 0 <= i < m implies !tab_is(id)(#[trigger] a.tabs[i]) by {
        assert(a.tabs[i] == s.tabs[i]);
    }
    assert(tab_is(id)(a.tabs[m]));
    lemma_first_where_is(a.tabs, tab_is(id), m);
    let seeded = a.tabs[m].layout.order();
    assert(seeded =~= seq![seed]);
    let made = panes_back(seed + 1, space, id, leaves, w, cwd);
    lemma_leaves_back(a, w, space, id, leaves, cwd, n);
    let b = leaves_back(a, w, space, id, leaves, cwd, n);
    assert(made.take(n) =~= made);
    let ids = ids_given(a, n);
    assert(ids =~= run_of((seed + 1) as u64, n as nat));
    let front = match t.focused_pane {
        Some(i) if (i as int) < ids.len() => Some(ids[i as int]),
        _ => None,
    };
    let layout = Layout { tree: Some(regrown(t.tree, ids, 0)) };
    let c = with_panes(b, id, layout, front);
    // The pane that came with the tab is where the panes there were end.
    let p = s.panes.len() as int;
    assert forall|i: int| 0 <= i < p implies !pane_is(seed)(#[trigger] c.panes[i]) by {
        assert(c.panes[i] == s.panes[i]);
    }
    assert(c.panes[p] == a.panes[p]);
    assert(pane_is(seed)(c.panes[p]));
    lemma_first_where_is(c.panes, pane_is(seed), p);
    reveal_with_fuel(killed_all, 2);
    let d = killed_all(c, seeded, 1);
    assert(d == killed(c, seed));
    assert(d.panes =~= s.panes + made);
    assert(d.tabs =~= s.tabs.push(tab_made(id as int, space, seed + 1, t)));
    let r = tab_back(s, w, bars, space, cwd, t, in_front);
    let sp = SpaceView {
        tabs: s.spaces.last().tabs.push(id),
        focused_tab: Some(id),
        ..s.spaces.last()
    };
    assert(d.spaces =~= s.spaces.update(k, sp));
    assert forall|i: int, j: int| 0 <= i < j < d.spaces.len() implies (#[trigger] d.spaces[i]).id
        < (#[trigger] d.spaces[j]).id by {
        assert(s.spaces[i].id < s.spaces[j].id);
    }
    assert(rising(d));
    if in_front {
        lemma_last_space(d, space);
        assert(r.spaces =~= d.spaces);
    }
    assert(r.panes == d.panes && r.tabs == d.tabs && r.spaces == d.spaces);
}

// -- the tabs of a space -----------------------------------------------------

/// How many ids of panes the first `n` tabs use up: one for the pane that each comes with, and one
/// for each of its own.
pub open spec fn panes_used(tabs: Seq<SavedTabView>, n: int) -> nat
    decreases n,
{
    if n <= 0 {
        0
    } else {
        panes_used(tabs, n - 1) + 1 + saved_leaves(tabs[n - 1].tree).len()
    }
}

/// The panes of the first `n` tabs of a space that was brought back.
pub open spec fn panes_made(
    pb: int,
    tb: int,
    space: u64,
    tabs: Seq<SavedTabView>,
    n: int,
    w: WishesView,
    cwd: Seq<char>,
) -> Seq<PaneView>
    decreases n,
{
    if n <= 0 {
        Seq::empty()
    } else {
        panes_made(pb, tb, space, tabs, n - 1, w, cwd) + panes_back(
            pb + panes_used(tabs, n - 1) + 1,
            space,
            (tb + n - 1) as u64,
            saved_leaves(tabs[n - 1].tree),
            w,
            cwd,
        )
    }
}

/// The first `n` tabs of a space that was brought back.
pub open spec fn tabs_made(pb: int, tb: int, space: u64, tabs: Seq<SavedTabView>, n: nat) -> Seq<
    TabView,
> {
    Seq::new(n, |t: int| tab_made(tb + t, space, pb + panes_used(tabs, t) + 1, tabs[t]))
}

pub(crate) proof fn lemma_panes_used(tabs: Seq<SavedTabView>, n: int, k: int)
    requires
        0 <= k <= n <= tabs.len(),
    ensures
        panes_used(tabs, k) <= panes_used(tabs, n),
    decreases n - k,
{
    if k < n {
        lemma_panes_used(tabs, n - 1, k);
    }
}

pub(crate) proof fn lemma_tabs_back(
    s: SessionView,
    w: WishesView,
    bars: Bars,
    space: u64,
    cwd: Seq<char>,
    tabs: Seq<SavedTabView>,
    front: Option<usize>,
    n: int,
)
    requires
        rising(s),
        s.spaces.len() > 0,
        s.spaces.last().id == space,
        0 <= n <= tabs.len(),
        s.next_tab + tabs.len() < u64::MAX,
        s.next_pane + panes_used(tabs, tabs.len() as int) < u64::MAX,
    ensures
        ({
            let r = tabs_back(s, w, bars, space, cwd, tabs, front, n);
            let sp = s.spaces.last();
            let pb = s.next_pane as int;
            let tb = s.next_tab as int;
            &&& r.panes == s.panes + panes_made(pb, tb, space, tabs, n, w, cwd)
            &&& r.tabs == s.tabs + tabs_made(pb, tb, space, tabs, n as nat)
            &&& r.spaces == s.spaces.update(
                s.spaces.len() - 1,
                SpaceView {
                    tabs: sp.tabs + run_of(s.next_tab, n as nat),
                    focused_tab: if n == 0 {
                        sp.focused_tab
                    } else {
                        Some((s.next_tab + n - 1) as u64)
                    },
                    ..sp
                },
            )
            &&& r.next_tab == s.next_tab + n
            &&& r.next_pane == s.next_pane + panes_used(tabs, n)
            &&& r.next_space == s.next_space
            &&& rising(r)
        }),
    decreases n,
{
    let sp = s.spaces.last();
    let pb = s.next_pane as int;
    let tb = s.next_tab as int;
    let r = tabs_back(s, w, bars, space, cwd, tabs, front, n);
    if n <= 0 {
        assert(r.panes =~= s.panes + panes_made(pb, tb, space, tabs, 0, w, cwd));
        assert(r.tabs =~= s.tabs + tabs_made(pb, tb, space, tabs, 0));
        assert(sp.tabs + run_of(s.next_tab, 0) =~= sp.tabs);
        assert(r.spaces =~= s.spaces.update(s.spaces.len() - 1, sp));
    } else {
        lemma_tabs_back(s, w, bars, space, cwd, tabs, front, n - 1);
        let b = tabs_back(s, w, bars, space, cwd, tabs, front, n - 1);
        lemma_panes_used(tabs, tabs.len() as int, n);
        lemma_tab_back(
            b,
            w,
            bars,
            space,
            cwd,
            tabs[n - 1],
            front == Some((n - 1) as usize),
        );
        assert(r.panes =~= s.panes + panes_made(pb, tb, space, tabs, n, w, cwd));
        assert(r.tabs =~= s.tabs + tabs_made(pb, tb, space, tabs, n as nat));
        assert(sp.tabs + run_of(s.next_tab, n as nat) =~= (sp.tabs + run_of(
            s.next_tab,
            (n - 1) as nat,
        )).push(b.next_tab));
        assert(r.spaces =~= s.spaces.update(
            s.spaces.len() - 1,
            SpaceView {
                tabs: sp.tabs + run_of(s.next_tab, n as nat),
                focused_tab: Some((s.next_tab + n - 1) as u64),
                ..sp
            },
        ));
    }
}

// -- one space ---------------------------------------------------------------

proof fn lemma_leaving_first_out(x: u64, t: Seq<u64>)
    requires
        forall|i: int| 0 <= i < t.len() ==> #[trigger] t[i] != x,
    ensures
        leaving_out(seq![x] + t, x) == t,
    decreases t.len(),
{
    if t.len() == 0 {
        assert(seq![x] + t =~= seq![x]);
        assert(seq![x].drop_last() =~= Seq::<u64>::empty());
        reveal_with_fuel(leaving_out, 2);
        assert(leaving_out(seq![x], x) =~= t);
    } else {
        lemma_leaving_first_out(x, t.drop_last());
        assert((seq![x] + t).drop_last() =~= seq![x] + t.drop_last());
        assert((seq![x] + t).last() == t.last());
        assert(t.drop_last().push(t.last()) =~= t);
    }
}

proof fn lemma_space_back(
    s: SessionView,
    w: WishesView,
    bars: Bars,
    h: SavedSpaceView,
    is_front: bool,
)
    requires
        rising(s),
        !taken(s.spaces, h.name),
        h.tabs.len() > 0,
        s.next_space < u64::MAX - 2,
        s.next_tab + 1 + h.tabs.len() < u64::MAX,
        s.next_pane + 1 + panes_used(h.tabs, h.tabs.len() as int) < u64::MAX,
    ensures
        ({
            let r = space_back(s, w, bars, h, is_front);
            let id = s.next_space;
            let cwd = dir_or(w.dirs, h.cwd, w.here);
            let n = h.tabs.len();
            let pb = s.next_pane + 1;
            let tb = s.next_tab + 1;
            &&& r.panes == s.panes + panes_made(pb, tb, id, h.tabs, n as int, w, cwd)
            &&& r.tabs == s.tabs + tabs_made(pb, tb, id, h.tabs, n)
            &&& r.spaces == s.spaces.push(
                SpaceView {
                    id,
                    name: h.name,
                    cwd,
                    tabs: run_of(tb as u64, n),
                    focused_tab: Some((s.next_tab + n) as u64),
                },
            )
            &&& r.next_space == s.next_space + 1
            &&& r.next_tab == s.next_tab + 1 + n
            &&& r.next_pane == s.next_pane + 1 + panes_used(h.tabs, n as int)
            &&& rising(r)
        }),
{
    let cwd = dir_or(w.dirs, h.cwd, w.here);
    let id = s.next_space;
    let n = h.tabs.len();
    let auto_tab = s.next_tab;
    let auto_pane = s.next_pane;
    lemma_free_name(s.spaces, h.name);
    let e = with_empty_space(s, Some(h.name), cwd);
    assert(rising(e));
    lemma_last_space(e, id);
    let a = with_space(s, bars, w.shell, Some(h.name), cwd);
    let k = s.spaces.len() as int;
    let first = SpaceView {
        id,
        name: h.name,
        cwd,
        tabs: seq![auto_tab],
        focused_tab: Some(auto_tab),
    };
    assert(e.spaces[k].tabs.push(auto_tab) =~= seq![auto_tab]);
    assert(a.spaces =~= s.spaces.push(first));
    assert(rising(a));
    lemma_last_space(a, id);
    let front = if is_front {
        h.focused_tab
    } else {
        None
    };
    lemma_tabs_back(a, w, bars, id, cwd, h.tabs, front, n as int);
    let b = tabs_back(a, w, bars, id, cwd, h.tabs, front, n as int);
    let pb = s.next_pane + 1;
    let tb = s.next_tab + 1;
    let made = panes_made(pb, tb, id, h.tabs, n as int, w, cwd);
    let made_tabs = tabs_made(pb, tb, id, h.tabs, n);
    // The tab that came with the space stands where the tabs there were end.
    let m = s.tabs.len() as int;
    assert forall|i: int| 0 <= i < m implies !tab_is(auto_tab)(#[trigger] b.tabs[i]) by {
        assert(b.tabs[i] == s.tabs[i]);
    }
    assert(b.tabs[m] == a.tabs[m]);
    assert(tab_is(auto_tab)(b.tabs[m]));
    lemma_first_where_is(b.tabs, tab_is(auto_tab), m);
    let order = b.tabs[m].layout.order();
    assert(order =~= seq![auto_pane]);
    let p = s.panes.len() as int;
    assert forall|i: int| 0 <= i < p implies !pane_is(auto_pane)(#[trigger] b.panes[i]) by {
        assert(b.panes[i] == s.panes[i]);
    }
    assert(b.panes[p] == a.panes[p]);
    assert(pane_is(auto_pane)(b.panes[p]));
    lemma_first_where_is(b.panes, pane_is(auto_pane), p);
    reveal_with_fuel(killed_all, 2);
    let d = tab_dropped(b, auto_tab);
    assert(killed_all(b, order, 1) == killed(b, auto_pane));
    assert(d.panes =~= s.panes + made);
    assert(d.tabs =~= s.tabs + made_tabs);
    lemma_last_space(b, id);
    assert(d.spaces == b.spaces);
    assert(d.space_at(id) == k);
    let run = run_of(tb as u64, n);
    assert(a.spaces.last().tabs + run_of(a.next_tab, n) =~= seq![auto_tab] + run);
    lemma_leaving_first_out(auto_tab, run);
    let without = space_without_tab(d.spaces[k], auto_tab);
    assert(without.tabs == run);
    assert(without.focused_tab == Some((s.next_tab + n) as u64));
    reveal_with_fuel(tabs_closed, 2);
    assert(a.space_at(id) == k);
    let auto = a.spaces[k].tabs;
    assert(auto =~= seq![auto_tab]);
    let r = space_back(s, w, bars, h, is_front);
    assert(r == tab_closed(b, bars, auto_tab));
    assert(r.spaces =~= s.spaces.push(without));
    assert(r.tabs == d.tabs && r.panes == d.panes);
    assert forall|i: int, j: int| 0 <= i < j < r.tabs.len() implies (#[trigger] r.tabs[i]).id < (
    #[trigger] r.tabs[j]).id by {
        let x = if i < m { i } else { i + 1 };
        let y = if j < m { j } else { j + 1 };
        assert(r.tabs[i] == b.tabs[x] && r.tabs[j] == b.tabs[y]);
    }
    assert forall|i: int, j: int| 0 <= i < j < r.panes.len() implies (#[trigger] r.panes[i]).id
        < (#[trigger] r.panes[j]).id by {
        let x = if i < p { i } else { i + 1 };
        let y = if j < p { j } else { j + 1 };
        assert(r.panes[i] == b.panes[x] && r.panes[j] == b.panes[y]);
    }
    assert forall|i: int| 0 <= i < r.tabs.len() implies (#[trigger] r.tabs[i]).id < r.next_tab by {
        let x = if i < m { i } else { i + 1 };
        assert(r.tabs[i] == b.tabs[x]);
    }
    assert forall|i: int| 0 <= i < r.panes.len() implies (#[trigger] r.panes[i]).id
        < r.next_pane by {
        let x = if i < p { i } else { i + 1 };
        assert(r.panes[i] == b.panes[x]);
    }
    assert(rising(r));
}

// -- all spaces --------------------------------------------------------------

/// How many ids of tabs the first `n` spaces use up.
pub open spec fn all_tabs_used(spaces: Seq<SavedSpaceView>, n: int) -> nat
    decreases n,
{
    if n <= 0 {
        0
    } else {
        all_tabs_used(spaces, n - 1) + 1 + spaces[n - 1].tabs.len()
    }
}

/// How many ids of panes the first `n` spaces use up.
pub open spec fn all_panes_used(spaces: Seq<SavedSpaceView>, n: int) -> nat
    decreases n,
{
    if n <= 0 {
        0
    } else {
        all_panes_used(spaces, n - 1) + 1 + panes_used(
            spaces[n - 1].tabs,
            spaces[n - 1].tabs.len() as int,
        )
    }
}

pub(crate) proof fn lemma_all_used(spaces: Seq<SavedSpaceView>, n: int, k: int)
    requires
        0 <= k <= n <= spaces.len(),
    ensures
        all_tabs_used(spaces, k) <= all_tabs_used(spaces, n),
        all_panes_used(spaces, k) <= all_panes_used(spaces, n),
    decreases n - k,
{
    if k < n {
        lemma_all_used(spaces, n - 1, k);
    }
}

/// A part of a sequence.
pub(crate) open spec fn holds_at<A>(s: Seq<A>, at: int, part: Seq<A>) -> bool {
    &&& 0 <= at
    &&& at + part.len() <= s.len()
    &&& forall|i: int| 0 <= i < part.len() ==> #[trigger] s[at + i] == part[i]
}

/// A space that was brought back, and all that is in it.
pub(crate) open spec fn space_is_back(
    s: SessionView,
    sp: SpaceView,
    h: SavedSpaceView,
    w: WishesView,
    pb: int,
    tb: int,
) -> bool {
    let cwd = dir_or(w.dirs, h.cwd, w.here);
    let n = h.tabs.len();
    &&& sp.name == h.name
    &&& sp.cwd == cwd
    &&& sp.tabs == run_of(tb as u64, n)
    &&& exists|at: int|
        #[trigger]
        holds_at(s.tabs, at, tabs_made(pb, tb, sp.id, h.tabs, n))
    &&& exists|at: int|
        #[trigger]
        holds_at(s.panes, at, panes_made(pb, tb, sp.id, h.tabs, n as int, w, cwd))
}

proof fn lemma_still_back(
    s: SessionView,
    t: SessionView,
    sp: SpaceView,
    h: SavedSpaceView,
    w: WishesView,
    pb: int,
    tb: int,
    more_tabs: Seq<TabView>,
    more_panes: Seq<PaneView>,
)
    requires
        space_is_back(s, sp, h, w, pb, tb),
        t.tabs == s.tabs + more_tabs,
        t.panes == s.panes + more_panes,
    ensures
        space_is_back(t, sp, h, w, pb, tb),
{
    let cwd = dir_or(w.dirs, h.cwd, w.here);
    let n = h.tabs.len();
    let ts = tabs_made(pb, tb, sp.id, h.tabs, n);
    let ps = panes_made(pb, tb, sp.id, h.tabs, n as int, w, cwd);
    let x = choose|at: int| #[trigger] holds_at(s.tabs, at, ts);
    let y = choose|at: int| #[trigger] holds_at(s.panes, at, ps);
    assert(holds_at(t.tabs, x, ts)) by {
        assert forall|i: int| 0 <= i < ts.len() implies #[trigger] t.tabs[x + i] == ts[i] by {
            assert(s.tabs[x + i] == ts[i]);
        }
    }
    assert(holds_at(t.panes, y, ps)) by {
        assert forall|i: int| 0 <= i < ps.len() implies #[trigger] t.panes[y + i] == ps[i] by {
            assert(s.panes[y + i] == ps[i]);
        }
    }
}

pub(crate) proof fn lemma_spaces_back(
    s: SessionView,
    w: WishesView,
    bars: Bars,
    st: SavedStateView,
    n: int,
)
    requires
        s.spaces.len() == 0,
        s.tabs.len() == 0,
        s.panes.len() == 0,
        forall|i: int, j: int|
            0 <= i < j < st.spaces.len() ==> (#[trigger] st.spaces[i]).name != (
            #[trigger] st.spaces[j]).name,
        forall|i: int| 0 <= i < st.spaces.len() ==> (#[trigger] st.spaces[i]).tabs.len() > 0,
        0 <= n <= st.spaces.len(),
        s.next_space + st.spaces.len() < u64::MAX - 2,
        s.next_tab + all_tabs_used(st.spaces, st.spaces.len() as int) < u64::MAX,
        s.next_pane + all_panes_used(st.spaces, st.spaces.len() as int) < u64::MAX,
    ensures
        ({
            let r = spaces_back(s, w, bars, st, n);
            &&& rising(r)
            &&& r.spaces.len() == n
            &&& r.next_space == s.next_space + n
            &&& r.next_tab == s.next_tab + all_tabs_used(st.spaces, n)
            &&& r.next_pane == s.next_pane + all_panes_used(st.spaces, n)
            &&& forall|i: int|
                0 <= i < n ==> space_is_back(
                    r,
                    #[trigger] r.spaces[i],
                    st.spaces[i],
                    w,
                    s.next_pane + all_panes_used(st.spaces, i) + 1,
                    s.next_tab + all_tabs_used(st.spaces, i) + 1,
                )
        }),
    decreases n,
{
    let r = spaces_back(s, w, bars, st, n);
    if n > 0 {
        lemma_spaces_back(s, w, bars, st, n - 1);
        let b = spaces_back(s, w, bars, st, n - 1);
        let h = st.spaces[n - 1];
        let front = st.focused_space == Some((n - 1) as usize);
        lemma_all_used(st.spaces, st.spaces.len() as int, n);
        assert(!taken(b.spaces, h.name)) by {
            if taken(b.spaces, h.name) {
                let i = choose|i: int|
                    0 <= i < b.spaces.len() && (#[trigger] b.spaces[i]).name == h.name;
                assert(b.spaces[i].name == st.spaces[i].name);
            }
        }
        lemma_space_back(b, w, bars, h, front);
        let cwd = dir_or(w.dirs, h.cwd, w.here);
        let len = h.tabs.len();
        let pb = b.next_pane + 1;
        let tb = b.next_tab + 1;
        let id = b.next_space;
        let ts = tabs_made(pb, tb, id, h.tabs, len);
        let ps = panes_made(pb, tb, id, h.tabs, len as int, w, cwd);
        assert forall|i: int| 0 <= i < n implies space_is_back(
            r,
            #[trigger] r.spaces[i],
            st.spaces[i],
            w,
            s.next_pane + all_panes_used(st.spaces, i) + 1,
            s.next_tab + all_tabs_used(st.spaces, i) + 1,
        ) by {
            if i < n - 1 {
                assert(r.spaces[i] == b.spaces[i]);
                lemma_still_back(
                    b,
                    r,
                    b.spaces[i],
                    st.spaces[i],
                    w,
                    s.next_pane + all_panes_used(st.spaces, i) + 1,
                    s.next_tab + all_tabs_used(st.spaces, i) + 1,
                    ts,
                    ps,
                );
            } else {
                let x = b.tabs.len() as int;
                let y = b.panes.len() as int;
                assert(holds_at(r.tabs, x, ts));
                assert(holds_at(r.panes, y, ps));
            }
        }
    }
}

// -- saved again -------------------------------------------------------------

/// What is saved of a pane that was brought back.
pub open spec fn leaf_again(leaf: SavedPaneView, w: WishesView, cwd: Seq<char>) -> SavedPaneView {
    SavedPaneView {
        cmd: command_back(w.restore_agents, w.usual, w.shell, leaf),
        cwd: dir_or(w.dirs, leaf.cwd, cwd),
        name: leaf.name,
        agent_kind: None,
        agent_session: None,
    }
}

/// What is saved of a tree that was brought back: divided as it was.
pub open spec fn node_again(n: SavedNodeView, w: WishesView, cwd: Seq<char>) -> SavedNodeView
    decreases n,
{
    match n {
        SavedNodeView::Leaf(p) => SavedNodeView::Leaf(leaf_again(p, w, cwd)),
        SavedNodeView::Split { horizontal, ratio, a, b } => SavedNodeView::Split {
            horizontal,
            ratio,
            a: Box::new(node_again(*a, w, cwd)),
            b: Box::new(node_again(*b, w, cwd)),
        },
    }
}

/// What is saved of a tab that was brought back: under its name, with the same pane in front.
pub open spec fn tab_again(t: SavedTabView, w: WishesView, cwd: Seq<char>) -> SavedTabView {
    SavedTabView {
        name: t.name,
        tree: node_again(t.tree, w, cwd),
        focused_pane: t.focused_pane,
    }
}

/// What is saved of the tabs of a space that was brought back.
pub open spec fn tabs_again(h: SavedSpaceView, w: WishesView) -> Seq<SavedTabView> {
    Seq::new(h.tabs.len(), |t: int| tab_again(h.tabs[t], w, dir_or(w.dirs, h.cwd, w.here)))
}

proof fn lemma_node_again(
    s: SessionView,
    shell: Seq<char>,
    n: SavedNodeView,
    ids: Seq<u64>,
    all: Seq<SavedPaneView>,
    cursor: int,
    w: WishesView,
    cwd: Seq<char>,
)
    requires
        0 <= cursor,
        ids.len() == all.len(),
        cursor + saved_leaves(n).len() <= all.len(),
        all.subrange(cursor, cursor + saved_leaves(n).len()) == saved_leaves(n),
        forall|j: int|
            0 <= j < all.len() ==> pane_saved(s, shell, #[trigger] ids[j]) == leaf_again(
                all[j],
                w,
                cwd,
            ),
    ensures
        node_saved(s, shell, regrown(n, ids, cursor)) == node_again(n, w, cwd),
    decreases n,
{
    match n {
        SavedNodeView::Leaf(p) => {
            assert(all.subrange(cursor, cursor + 1)[0] == all[cursor]);
            assert(saved_leaves(n)[0] == p);
        },
        SavedNodeView::Split { horizontal, ratio, a, b } => {
            let l = saved_leaves(*a);
            let r = saved_leaves(*b);
            let mine = all.subrange(cursor, cursor + saved_leaves(n).len());
            assert(all.subrange(cursor, cursor + l.len()) =~= l) by {
                assert forall|i: int| 0 <= i < l.len() implies all[cursor + i] == l[i] by {
                    assert(mine[i] == (l + r)[i]);
                }
            }
            assert(all.subrange(cursor + l.len(), cursor + l.len() + r.len()) =~= r) by {
                assert forall|i: int| 0 <= i < r.len() implies all[cursor + l.len() + i]
                    == r[i] by {
                    assert(mine[l.len() + i] == (l + r)[l.len() + i]);
                }
            }
            lemma_node_again(s, shell, *a, ids, all, cursor, w, cwd);
            lemma_node_again(s, shell, *b, ids, all, cursor + l.len(), w, cwd);
        },
    }
}

/// Where the panes of a tab are among those of its space.
proof fn lemma_panes_made(
    pb: int,
    tb: int,
    space: u64,
    tabs: Seq<SavedTabView>,
    n: int,
    k: int,
    w: WishesView,
    cwd: Seq<char>,
)
    requires
        0 <= k < n <= tabs.len(),
    ensures
        holds_at(
            panes_made(pb, tb, space, tabs, n, w, cwd),
            panes_made(pb, tb, space, tabs, k, w, cwd).len() as int,
            panes_back(
                pb + panes_used(tabs, k) + 1,
                space,
                (tb + k) as u64,
                saved_leaves(tabs[k].tree),
                w,
                cwd,
            ),
        ),
    decreases n - k,
{
    if k < n - 1 {
        lemma_panes_made(pb, tb, space, tabs, n - 1, k, w, cwd);
    }
}

proof fn lemma_found_pane(s: SessionView, i: int)
    requires
        rising(s),
        0 <= i < s.panes.len(),
    ensures
        s.pane_at(s.panes[i].id) == i,
{
    let p = pane_is(s.panes[i].id);
    assert forall|j: int| 0 <= j < i implies !p(#[trigger] s.panes[j]) by {
        assert(s.panes[j].id < s.panes[i].id);
    }
    lemma_first_where_is(s.panes, p, i);
}

proof fn lemma_found_tab(s: SessionView, i: int)
    requires
        rising(s),
        0 <= i < s.tabs.len(),
    ensures
        s.tab_at(s.tabs[i].id) == i,
{
    let p = tab_is(s.tabs[i].id);
    assert forall|j: int| 0 <= j < i implies !p(#[trigger] s.tabs[j]) by {
        assert(s.tabs[j].id < s.tabs[i].id);
    }
    lemma_first_where_is(s.tabs, p, i);
}

/// A saved tab whose pane in front is one of its own.
pub open spec fn front_pane_sound(t: SavedTabView) -> bool {
    t.focused_pane matches Some(i) ==> i < saved_leaves(t.tree).len()
}

proof fn lemma_tabs_again(
    s: SessionView,
    shell: Seq<char>,
    sp: SpaceView,
    h: SavedSpaceView,
    w: WishesView,
    pb: int,
    tb: int,
    n: int,
)
    requires
        rising(s),
        space_is_back(s, sp, h, w, pb, tb),
        0 <= pb,
        0 <= tb,
        pb + panes_used(h.tabs, h.tabs.len() as int) < u64::MAX,
        tb + h.tabs.len() < u64::MAX,
        forall|t: int| 0 <= t < h.tabs.len() ==> front_pane_sound(#[trigger] h.tabs[t]),
        0 <= n <= h.tabs.len(),
    ensures
        tabs_saved(s, shell, sp.tabs, n) == tabs_again(h, w).take(n),
    decreases n,
{
    let cwd = dir_or(w.dirs, h.cwd, w.here);
    let len = h.tabs.len();
    let again = tabs_again(h, w);
    if n > 0 {
        lemma_tabs_again(s, shell, sp, h, w, pb, tb, n - 1);
        let k = n - 1;
        let t = h.tabs[k];
        let ts = tabs_made(pb, tb, sp.id, h.tabs, len);
        let ps = panes_made(pb, tb, sp.id, h.tabs, len as int, w, cwd);
        let x = choose|at: int| #[trigger] holds_at(s.tabs, at, ts);
        let y = choose|at: int| #[trigger] holds_at(s.panes, at, ps);
        assert(s.tabs[x + k] == ts[k]);
        lemma_found_tab(s, x + k);
        let first = pb + panes_used(h.tabs, k) + 1;
        let leaves = saved_leaves(t.tree);
        lemma_panes_used(h.tabs, len as int, n);
        lemma_panes_made(pb, tb, sp.id, h.tabs, len as int, k, w, cwd);
        let off = panes_made(pb, tb, sp.id, h.tabs, k, w, cwd).len() as int;
        let mine = panes_back(first, sp.id, (tb + k) as u64, leaves, w, cwd);
        let ids = run_of(first as u64, leaves.len());
        assert forall|j: int| 0 <= j < leaves.len() implies pane_saved(
            s,
            shell,
            #[trigger] ids[j],
        ) == leaf_again(leaves[j], w, cwd) by {
            assert(ps[off + j] == mine[j]);
            assert(s.panes[y + (off + j)] == ps[off + j]);
            lemma_found_pane(s, y + (off + j));
            assert(s.panes[y + (off + j)].id == ids[j]);
        }
        assert(leaves.subrange(0, leaves.len() as int) =~= leaves);
        lemma_node_again(s, shell, t.tree, ids, leaves, 0, w, cwd);
        law_rebuilding_assigns_in_order(t.tree, ids, 0);
        let tree = regrown(t.tree, ids, 0);
        assert(tree.leaves() =~= ids);
        if let Some(i) = t.focused_pane {
            assert(front_pane_sound(t));
            lemma_run(first as u64, leaves.len(), i as int);
        }
        assert(again.take(n) =~= again.take(n - 1).push(tab_again(t, w, cwd)));
    } else {
        assert(again.take(0) =~= Seq::<SavedTabView>::empty());
    }
}

/// A saved session that can be brought back whole: every space has a tab, no two of them share a
/// name, and something is in front wherever there is anything.
pub open spec fn saved_sound(st: SavedStateView) -> bool {
    &&& forall|i: int, j: int|
        0 <= i < j < st.spaces.len() ==> (#[trigger] st.spaces[i]).name != (
        #[trigger] st.spaces[j]).name
    &&& forall|i: int| 0 <= i < st.spaces.len() ==> saved_space_sound(#[trigger] st.spaces[i])
    &&& front_of(st.focused_space, st.spaces.len())
}

/// A space with tabs, each with one of its own panes in front where it has one in front.
pub open spec fn saved_space_sound(h: SavedSpaceView) -> bool {
    &&& h.tabs.len() > 0
    &&& forall|t: int| 0 <= t < h.tabs.len() ==> front_pane_sound(#[trigger] h.tabs[t])
}

/// A saved session comes back in its shape. Brought back into a session that has nothing yet, and
/// saved again, every space has its name and its directory, where that is still there; and its
/// tabs have their names, divided among as many panes as they were, each in its directory and
/// under its name, with the same one in front. The same space is in front. Which tab of a space is
/// in front is not part of this: it is the last one.
pub proof fn law_a_saved_session_comes_back(
    s: SessionView,
    w: WishesView,
    bars: Bars,
    st: SavedStateView,
    shell: Seq<char>,
)
    requires
        s.spaces.len() == 0,
        s.tabs.len() == 0,
        s.panes.len() == 0,
        saved_sound(st),
        s.next_space + st.spaces.len() < u64::MAX - 2,
        s.next_tab + all_tabs_used(st.spaces, st.spaces.len() as int) < u64::MAX,
        s.next_pane + all_panes_used(st.spaces, st.spaces.len() as int) < u64::MAX,
    ensures
        ({
            let t = restored(s, w, bars, st);
            &&& t.spaces.len() == st.spaces.len()
            &&& forall|i: int|
                0 <= i < t.spaces.len() ==> {
                    let sp = #[trigger] t.spaces[i];
                    let h = st.spaces[i];
                    &&& sp.name == h.name
                    &&& sp.cwd == dir_or(w.dirs, h.cwd, w.here)
                    &&& tabs_saved(t, shell, sp.tabs, sp.tabs.len() as int) == tabs_again(h, w)
                }
            &&& front_space(t) == st.focused_space
        }),
{
    let n = st.spaces.len() as int;
    assert forall|i: int| 0 <= i < n implies (#[trigger] st.spaces[i]).tabs.len() > 0 by {
        assert(saved_space_sound(st.spaces[i]));
    }
    lemma_spaces_back(s, w, bars, st, n);
    let b = spaces_back(s, w, bars, st, n);
    let t = restored(s, w, bars, st);
    assert(t.spaces == b.spaces && t.tabs == b.tabs && t.panes == b.panes);
    assert(rising(t));
    assert forall|i: int| 0 <= i < n implies ({
        let sp = #[trigger] t.spaces[i];
        let h = st.spaces[i];
        &&& sp.name == h.name
        &&& sp.cwd == dir_or(w.dirs, h.cwd, w.here)
        &&& tabs_saved(t, shell, sp.tabs, sp.tabs.len() as int) == tabs_again(h, w)
    }) by {
        let h = st.spaces[i];
        let pb = s.next_pane + all_panes_used(st.spaces, i) + 1;
        let tb = s.next_tab + all_tabs_used(st.spaces, i) + 1;
        lemma_all_used(st.spaces, n, i + 1);
        assert(space_is_back(b, b.spaces[i], h, w, pb, tb));
        lemma_still_back(
            b,
            t,
            b.spaces[i],
            h,
            w,
            pb,
            tb,
            Seq::empty(),
            Seq::empty(),
        );
        assert(saved_space_sound(h));
        lemma_tabs_again(t, shell, t.spaces[i], h, w, pb, tb, h.tabs.len() as int);
        assert(tabs_again(h, w).take(h.tabs.len() as int) =~= tabs_again(h, w));
    }
    if let Some(i) = st.focused_space {
        let id = t.spaces[i as int].id;
        assert forall|j: int| 0 <= j < i implies !space_is(id)(#[trigger] t.spaces[j]) by {
            assert(t.spaces[j].id < t.spaces[i as int].id);
        }
        lemma_first_where_is(t.spaces, space_is(id), i as int);
    }
}

proof fn lemma_saved_tabs(s: SessionView, shell: Seq<char>, tabs: Seq<u64>, n: int)
    requires
        forall|i: int| 0 <= i < tabs.len() ==> tab_whole(s, #[trigger] tabs[i]),
        0 <= n <= tabs.len(),
    ensures
        tabs_saved(s, shell, tabs, n).len() == n,
        forall|i: int|
            0 <= i < n ==> front_pane_sound(#[trigger] tabs_saved(s, shell, tabs, n)[i]),
    decreases n,
{
    if n > 0 {
        lemma_saved_tabs(s, shell, tabs, n - 1);
        let id = tabs[n - 1];
        assert(tab_whole(s, id));
        let t = s.tabs[s.tab_at(id)];
        lemma_saved_leaves_len(s, shell, t.layout.tree->Some_0);
        if let Some(p) = t.focused_pane {
            lemma_first_where(t.layout.order(), id_is(p));
        }
    }
}

/// What is saved of a whole session without empty spaces can be brought back.
pub proof fn law_what_is_saved_is_sound(s: SessionView, shell: Seq<char>, last_seen: u64)
    requires
        whole(s),
        s.spaces.len() <= usize::MAX,
        forall|i: int| 0 <= i < s.spaces.len() ==> (#[trigger] s.spaces[i]).tabs.len() > 0,
    ensures
        saved_sound(saved(s, shell, last_seen)),
{
    let st = saved(s, shell, last_seen);
    assert forall|i: int| 0 <= i < st.spaces.len() implies saved_space_sound(
        #[trigger] st.spaces[i],
    ) by {
        assert(space_whole(s, s.spaces[i]));
        lemma_saved_tabs(s, shell, s.spaces[i].tabs, s.spaces[i].tabs.len() as int);
    }
    assert forall|i: int, j: int| 0 <= i < j < st.spaces.len() implies (
    #[trigger] st.spaces[i]).name != (#[trigger] st.spaces[j]).name by {
        assert(s.spaces[i].name != s.spaces[j].name);
    }
    if let Some(id) = s.focused_space {
        lemma_first_where(s.spaces, space_is(id));
    }
}

} // verus!
