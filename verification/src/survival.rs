//! What outlives the process: a session that is handed over is the session that was.

use crate::handoff::{
    adopted, by_number, exported, number_of, rebuilt, HNode, HPane, HSpace, HTab, Manifest,
};
use crate::import::{
    import_start, imported, leaf_in, leaves_in, space_in, spaces_in, tab_in, tabs_in,
    with_bare_space, with_empty_tab, ImportError, ImportView,
};
use crate::layout::Node;
use crate::persist::place_in;
use crate::seqs::{first_where, lemma_first_where, lemma_first_where_is};
use crate::state::{
    id_is, is_unique_name, panes_in_order, panes_of_tabs, space_is, tab_is, taken, unique_name,
    Bars, PaneView, SessionView, SpaceView, TabView,
};
use crate::text::opt_text;
use crate::upgrade::{
    hspace_view, htab_view, htab_views, space_handed, tabs_handed, HTabView,
};
use vstd::prelude::*;

verus! {

// -- manifests ---------------------------------------------------------------

/// The numbers of the panes of the first `n` tabs, in order.
pub open spec fn tab_numbers(tabs: Seq<HTab>, n: int) -> Seq<usize>
    decreases n,
{
    if n <= 0 {
        Seq::empty()
    } else {
        tab_numbers(tabs, n - 1) + tabs[n - 1].tree.leaves()
    }
}

/// The numbers of the panes of the first `n` spaces, in order.
pub open spec fn space_numbers(spaces: Seq<HSpace>, n: int) -> Seq<usize>
    decreases n,
{
    if n <= 0 {
        Seq::empty()
    } else {
        space_numbers(spaces, n - 1) + tab_numbers(
            spaces[n - 1].tabs@,
            spaces[n - 1].tabs@.len() as int,
        )
    }
}

/// How many tabs the first `n` spaces have.
pub open spec fn tabs_before(spaces: Seq<HSpace>, n: int) -> nat
    decreases n,
{
    if n <= 0 {
        0
    } else {
        tabs_before(spaces, n - 1) + spaces[n - 1].tabs@.len()
    }
}

/// Something is in front: one of those that are there, and nothing only where there is nothing.
pub open spec fn front_of(at: Option<usize>, n: nat) -> bool {
    match at {
        Some(i) => i < n,
        None => n == 0,
    }
}

/// A tab whose pane in front is one of its own.
pub open spec fn tab_sound(t: HTab) -> bool {
    t.focused_pane matches Some(i) ==> t.tree.leaves().contains(i)
}

/// A space with a tab in front, and sound tabs.
pub open spec fn space_sound(s: HSpace) -> bool {
    &&& front_of(s.focused_tab, s.tabs@.len())
    &&& forall|t: int| 0 <= t < s.tabs@.len() ==> tab_sound(#[trigger] s.tabs@[t])
}

/// A manifest that describes a session: its panes are numbered as they come, no two spaces share
/// a name, and something is in front wherever there is anything.
pub open spec fn manifest_sound(m: Manifest) -> bool {
    let ns = space_numbers(m.spaces@, m.spaces@.len() as int);
    &&& ns.len() == m.panes@.len()
    &&& forall|i: int| 0 <= i < ns.len() ==> #[trigger] ns[i] == i
    &&& forall|i: int, j: int|
        0 <= i < j < m.spaces@.len() ==> (#[trigger] m.spaces@[i]).name@ != (
        #[trigger] m.spaces@[j]).name@
    &&& forall|k: int| 0 <= k < m.spaces@.len() ==> space_sound(#[trigger] m.spaces@[k])
    &&& front_of(m.focused_space, m.spaces@.len())
}

/// Ids given out one after another.
pub open spec fn run_of(base: u64, n: nat) -> Seq<u64> {
    Seq::new(n, |i: int| (base + i) as u64)
}

/// In a run of ids each stands where it was given out.
pub(crate) proof fn lemma_run(base: u64, n: nat, i: int)
    requires
        0 <= i < n,
        i <= usize::MAX,
        base + n <= u64::MAX,
    ensures
        first_where(run_of(base, n), id_is((base + i) as u64)) == i,
        number_of(run_of(base, n), (base + i) as u64) == i,
        place_in(run_of(base, n), Some((base + i) as u64)) == Some(i as usize),
{
    let order = run_of(base, n);
    let p = id_is((base + i) as u64);
    assert forall|j: int| 0 <= j < i implies !p(#[trigger] order[j]) by {
        assert(order[j] == (base + j) as u64);
    }
    assert(p(order[i]));
    lemma_first_where_is(order, p, i);
}

// -- panes -------------------------------------------------------------------

/// A pane that was taken over.
pub open spec fn came_over(p: PaneView, h: HPane, id: int, now: u64) -> bool {
    &&& p.id == id
    &&& p.cmd == h.cmd@
    &&& p.cwd == h.cwd@
    &&& p.name == opt_text(h.name)
    &&& p.life == adopted(h, now)
}

/// The first `c` panes have been taken over, and no others.
pub(crate) open spec fn took(st: ImportView, panes: Seq<HPane>, base: u64, c: int, now: u64) -> bool {
    &&& st.err is None
    &&& st.ids.len() == panes.len()
    &&& st.free.len() >= panes.len()
    &&& 0 <= c <= panes.len()
    &&& forall|j: int| 0 <= j < c ==> #[trigger] st.ids[j] == Some((base + j) as u64)
    &&& forall|j: int| c <= j < panes.len() ==> #[trigger] st.free[j]
    &&& st.s.next_pane == base + c
    &&& st.s.panes.len() == c
    &&& forall|j: int|
        0 <= j < c ==> came_over(#[trigger] st.s.panes[j], panes[j], base + j, now)
}

proof fn lemma_leaves(
    st: ImportView,
    panes: Seq<HPane>,
    base: u64,
    c: int,
    space: u64,
    tab: u64,
    ls: Seq<usize>,
    n: int,
    now: u64,
)
    requires
        took(st, panes, base, c, now),
        0 <= n <= ls.len(),
        c + ls.len() <= panes.len(),
        forall|i: int| 0 <= i < ls.len() ==> #[trigger] ls[i] == c + i,
        base + panes.len() < u64::MAX,
    ensures
        ({
            let r = leaves_in(st, panes, space, tab, ls, n, now);
            &&& took(r, panes, base, c + n, now)
            &&& r.s == (SessionView {
                panes: r.s.panes,
                next_pane: r.s.next_pane,
                effects: r.s.effects,
                ..st.s
            })
            &&& r.s.panes.take(c) == st.s.panes
            &&& forall|j: int|
                c <= j < c + n ==> (#[trigger] r.s.panes[j]).tab == tab && r.s.panes[j].space
                    == space
        }),
    decreases n,
{
    if n <= 0 {
        assert(st.s.panes.take(c) =~= st.s.panes);
    }
    if n > 0 {
        lemma_leaves(st, panes, base, c, space, tab, ls, n - 1, now);
        let b = leaves_in(st, panes, space, tab, ls, n - 1, now);
        let r = leaf_in(b, panes, space, tab, ls[n - 1], now);
        assert(ls[n - 1] == c + n - 1);
        assert(b.free[c + n - 1]);
        assert forall|j: int| 0 <= j < c + n implies came_over(
            #[trigger] r.s.panes[j],
            panes[j],
            base + j,
            now,
        ) by {
            if j < c + n - 1 {
                assert(r.s.panes[j] == b.s.panes[j]);
            }
        }
        assert(r.s.panes.take(c) =~= b.s.panes.take(c));
        assert forall|j: int| c <= j < c + n implies (#[trigger] r.s.panes[j]).tab == tab
            && r.s.panes[j].space == space by {
            if j < c + n - 1 {
                assert(r.s.panes[j] == b.s.panes[j]);
            }
        }
    }
}

proof fn lemma_tree(n: HNode, ids: Seq<Option<u64>>, base: u64, c: int, all: nat)
    requires
        0 <= c <= ids.len(),
        c <= all,
        base + all <= u64::MAX,
        forall|j: int| 0 <= j < c ==> #[trigger] ids[j] == Some((base + j) as u64),
        forall|i: int| 0 <= i < n.leaves().len() ==> #[trigger] n.leaves()[i] < c,
    ensures
        rebuilt(n, ids) is Ok,
        by_number(rebuilt(n, ids)->Ok_0, run_of(base, all)) == n,
        rebuilt(n, ids)->Ok_0.leaves().len() == n.leaves().len(),
        forall|i: int|
            0 <= i < n.leaves().len() ==> #[trigger] rebuilt(n, ids)->Ok_0.leaves()[i] == (base
                + n.leaves()[i]) as u64,
    decreases n,
{
    match n {
        HNode::Leaf(i) => {
            assert(n.leaves()[0] == i);
            assert(ids[i as int] == Some((base + i) as u64));
            lemma_run(base, all, i as int);
        },
        HNode::Split { horizontal, ratio, a, b } => {
            let l = a.leaves();
            let r = b.leaves();
            assert forall|i: int| 0 <= i < l.len() implies #[trigger] l[i] < c by {
                assert(n.leaves()[i] == l[i]);
            }
            assert forall|i: int| 0 <= i < r.len() implies #[trigger] r[i] < c by {
                assert(n.leaves()[l.len() + i] == r[i]);
            }
            lemma_tree(*a, ids, base, c, all);
            lemma_tree(*b, ids, base, c, all);
        },
    }
}

// -- tabs --------------------------------------------------------------------

/// What a tab is handed over as.
pub open spec fn tab_handed(t: TabView, order: Seq<u64>) -> HTabView {
    HTabView {
        name: t.name,
        tree: by_number(t.layout.tree->Some_0, order),
        focused_pane: place_in(order, t.focused_pane),
    }
}

/// Ids of spaces and tabs are below the next ones, and the last space is the one of this id.
pub(crate) open spec fn building(s: SessionView, space: u64) -> bool {
    &&& s.spaces.len() > 0
    &&& s.spaces.last().id == space
    &&& forall|i: int| 0 <= i < s.spaces.len() - 1 ==> (#[trigger] s.spaces[i]).id != space
    &&& forall|i: int| 0 <= i < s.tabs.len() ==> (#[trigger] s.tabs[i]).id < s.next_tab
}

/// A tab came in behind those that were there, and its panes behind theirs, in this order.
pub(crate) open spec fn came_in(
    s: SessionView,
    r: SessionView,
    space: u64,
    order: Seq<u64>,
) -> bool {
    let t = r.tabs.last();
    let had = s.panes.len() as int;
    &&& t.space == space
    &&& t.layout.order() == order
    &&& t.focused_pane matches Some(p) ==> order.contains(p)
    &&& r.panes.len() == had + order.len()
    &&& r.panes.take(had) == s.panes
    &&& forall|j: int|
        had <= j < had + order.len() ==> {
            let p = #[trigger] r.panes[j];
            p.id == order[j - had] && p.tab == t.id && p.space == space
        }
}

pub(crate) proof fn lemma_tab(
    st: ImportView,
    panes: Seq<HPane>,
    base: u64,
    c: int,
    space: u64,
    h: HTab,
    now: u64,
)
    requires
        took(st, panes, base, c, now),
        building(st.s, space),
        c + h.tree.leaves().len() <= panes.len(),
        forall|i: int|
            0 <= i < h.tree.leaves().len() ==> #[trigger] h.tree.leaves()[i] == c + i,
        tab_sound(h),
        base + panes.len() < u64::MAX,
        st.s.next_tab < u64::MAX,
    ensures
        ({
            let r = tab_in(st, panes, space, h, now);
            let last = st.s.spaces.last();
            &&& took(r, panes, base, c + h.tree.leaves().len(), now)
            &&& building(r.s, space)
            &&& r.s.next_tab == st.s.next_tab + 1
            &&& r.s.tabs.len() == st.s.tabs.len() + 1
            &&& r.s.tabs.drop_last() == st.s.tabs
            &&& r.s.tabs.last().id == st.s.next_tab
            &&& r.s.tabs.last().layout.tree is Some
            &&& tab_handed(r.s.tabs.last(), run_of(base, panes.len())) == htab_view(h)
            &&& came_in(
                st.s,
                r.s,
                space,
                run_of((base + c) as u64, h.tree.leaves().len()),
            )
            &&& r.s.spaces == st.s.spaces.update(
                st.s.spaces.len() - 1,
                SpaceView { tabs: last.tabs.push(st.s.next_tab), ..last },
            )
            &&& r.s.next_space == st.s.next_space
        }),
{
    let id = st.s.next_tab;
    let k = st.s.spaces.len() - 1;
    assert forall|i: int| 0 <= i < k implies !space_is(space)(#[trigger] st.s.spaces[i]) by {}
    lemma_first_where_is(st.s.spaces, space_is(space), k);
    let opened = ImportView { s: with_empty_tab(st.s, space, h.name@), ..st };
    assert(took(opened, panes, base, c, now));
    let ls = h.tree.leaves();
    lemma_leaves(opened, panes, base, c, space, id, ls, ls.len() as int, now);
    let t = leaves_in(opened, panes, space, id, ls, ls.len() as int, now);
    let all = panes.len();
    assert forall|i: int| 0 <= i < ls.len() implies #[trigger] ls[i] < c + ls.len() by {
        assert(ls[i] == c + i);
    }
    lemma_tree(h.tree, t.ids, base, c + ls.len(), all);
    let x = rebuilt(h.tree, t.ids)->Ok_0;
    let m = st.s.tabs.len() as int;
    assert forall|i: int| 0 <= i < m implies !tab_is(id)(#[trigger] t.s.tabs[i]) by {
        assert(t.s.tabs[i] == st.s.tabs[i]);
    }
    assert(tab_is(id)(t.s.tabs[m]));
    lemma_first_where_is(t.s.tabs, tab_is(id), m);
    let r = tab_in(st, panes, space, h, now);
    assert(r.s.tabs.drop_last() =~= st.s.tabs);
    if let Some(i) = h.focused_pane {
        let j = choose|j: int| 0 <= j < ls.len() && ls[j] == i;
        assert(ls[j] == c + j);
        assert(t.ids[i as int] == Some((base + i) as u64));
        lemma_run(base, all, i as int);
    }
    assert(r.s.spaces.last().id == space);
    let order = run_of((base + c) as u64, ls.len());
    assert(x.leaves() =~= order) by {
        assert forall|i: int| 0 <= i < ls.len() implies x.leaves()[i] == order[i] by {
            assert(ls[i] == c + i);
        }
    }
    assert(r.s.panes.take(c) == st.s.panes);
    if let Some(i) = h.focused_pane {
        let j = choose|j: int| 0 <= j < ls.len() && ls[j] == i;
        assert(ls[j] == c + j);
        assert(order[j] == (base + i) as u64);
        assert(order.contains((base + i) as u64));
    }
    assert forall|i: int| 0 <= i < r.s.tabs.len() implies (#[trigger] r.s.tabs[i]).id
        < r.s.next_tab by {
        if i < m {
            assert(r.s.tabs[i] == st.s.tabs[i]);
        }
    }
}

/// A tab of this id that is handed over as that.
pub(crate) open spec fn stands(t: TabView, id: int, h: HTab, order: Seq<u64>) -> bool {
    &&& t.id == id
    &&& t.layout.tree is Some
    &&& tab_handed(t, order) == htab_view(h)
}

pub(crate) proof fn lemma_tab_numbers(tabs: Seq<HTab>, n: int, k: int)
    requires
        0 <= k <= n <= tabs.len(),
    ensures
        tab_numbers(tabs, k).len() <= tab_numbers(tabs, n).len(),
        forall|i: int|
            0 <= i < tab_numbers(tabs, k).len() ==> #[trigger] tab_numbers(tabs, n)[i]
                == tab_numbers(tabs, k)[i],
    decreases n - k,
{
    if k < n {
        lemma_tab_numbers(tabs, n - 1, k);
    }
}

pub(crate) proof fn lemma_tabs(
    st: ImportView,
    panes: Seq<HPane>,
    base: u64,
    c: int,
    space: u64,
    tabs: Seq<HTab>,
    n: int,
    now: u64,
)
    requires
        took(st, panes, base, c, now),
        building(st.s, space),
        st.s.spaces.last().tabs.len() == 0,
        0 <= n <= tabs.len(),
        c + tab_numbers(tabs, tabs.len() as int).len() <= panes.len(),
        forall|i: int|
            0 <= i < tab_numbers(tabs, tabs.len() as int).len() ==> #[trigger] tab_numbers(
                tabs,
                tabs.len() as int,
            )[i] == c + i,
        forall|t: int| 0 <= t < tabs.len() ==> tab_sound(#[trigger] tabs[t]),
        base + panes.len() < u64::MAX,
        st.s.next_tab + tabs.len() < u64::MAX,
    ensures
        ({
            let r = tabs_in(st, panes, space, tabs, n, now);
            let order = run_of(base, panes.len());
            let last = st.s.spaces.last();
            let had = st.s.tabs.len();
            &&& took(r, panes, base, c + tab_numbers(tabs, n).len(), now)
            &&& building(r.s, space)
            &&& r.s.next_tab == st.s.next_tab + n
            &&& r.s.tabs.len() == had + n
            &&& forall|j: int| 0 <= j < had ==> #[trigger] r.s.tabs[j] == st.s.tabs[j]
            &&& forall|j: int|
                had <= j < had + n ==> stands(
                    #[trigger] r.s.tabs[j],
                    st.s.next_tab + j - had,
                    tabs[j - had],
                    order,
                )
            &&& r.s.spaces == st.s.spaces.update(
                st.s.spaces.len() - 1,
                SpaceView { tabs: run_of(st.s.next_tab, n as nat), ..last },
            )
            &&& r.s.next_space == st.s.next_space
        }),
    decreases n,
{
    let order = run_of(base, panes.len());
    let last = st.s.spaces.last();
    let had = st.s.tabs.len() as int;
    let r = tabs_in(st, panes, space, tabs, n, now);
    if n <= 0 {
        assert(run_of(st.s.next_tab, 0) =~= last.tabs);
        assert(r.s.spaces =~= st.s.spaces.update(
            st.s.spaces.len() - 1,
            SpaceView { tabs: run_of(st.s.next_tab, 0), ..last },
        ));
    } else {
        lemma_tabs(st, panes, base, c, space, tabs, n - 1, now);
        let b = tabs_in(st, panes, space, tabs, n - 1, now);
        let h = tabs[n - 1];
        let before = tab_numbers(tabs, n - 1).len();
        let ls = h.tree.leaves();
        lemma_tab_numbers(tabs, tabs.len() as int, n);
        let here = tab_numbers(tabs, n);
        assert(here.len() == before + ls.len());
        assert forall|i: int| 0 <= i < ls.len() implies #[trigger] ls[i] == c + before + i by {
            assert(here[before + i] == ls[i]);
            assert(tab_numbers(tabs, tabs.len() as int)[before + i] == here[before + i]);
        }
        lemma_tab(b, panes, base, c + before, space, h, now);
        assert forall|j: int| 0 <= j < had implies #[trigger] r.s.tabs[j] == st.s.tabs[j] by {
            assert(r.s.tabs.drop_last()[j] == b.s.tabs[j]);
        }
        assert forall|j: int| had <= j < had + n implies stands(
            #[trigger] r.s.tabs[j],
            st.s.next_tab + j - had,
            tabs[j - had],
            order,
        ) by {
            if j < had + n - 1 {
                assert(r.s.tabs.drop_last()[j] == b.s.tabs[j]);
            } else {
                assert(r.s.tabs.last() == r.s.tabs[j]);
            }
        }
        assert(run_of(st.s.next_tab, n as nat) =~= run_of(st.s.next_tab, (n - 1) as nat).push(
            b.s.next_tab,
        ));
        assert(r.s.spaces =~= st.s.spaces.update(
            st.s.spaces.len() - 1,
            SpaceView { tabs: run_of(st.s.next_tab, n as nat), ..last },
        ));
    }
}

// -- spaces ------------------------------------------------------------------

/// A space that was taken over: its tabs follow on from `first`.
pub(crate) open spec fn space_stands(sp: SpaceView, id: int, h: HSpace, first: int) -> bool {
    let n = h.tabs@.len();
    &&& sp.id == id
    &&& sp.name == h.name@
    &&& sp.cwd == h.cwd@
    &&& 0 <= first
    &&& first + n <= u64::MAX
    &&& sp.tabs == run_of(first as u64, n)
    &&& sp.focused_tab == (match h.focused_tab {
        Some(k) => Some((first + k) as u64),
        None => None,
    })
}

/// The first `n` spaces have been taken over, into a session that had none.
pub(crate) open spec fn spaces_stand(
    s: SessionView,
    spaces: Seq<HSpace>,
    n: int,
    sb: u64,
    tb: u64,
    order: Seq<u64>,
) -> bool {
    &&& s.spaces.len() == n
    &&& s.tabs.len() == tabs_before(spaces, n)
    &&& s.next_space == sb + n
    &&& s.next_tab == tb + tabs_before(spaces, n)
    &&& forall|i: int|
        0 <= i < n ==> space_stands(
            #[trigger] s.spaces[i],
            sb + i,
            spaces[i],
            tb + tabs_before(spaces, i),
        )
    &&& forall|i: int, t: int|
        0 <= i < n && 0 <= t < spaces[i].tabs@.len() ==> #[trigger] tab_stands(
            s,
            spaces,
            i,
            t,
            tb,
            order,
        )
}

pub(crate) open spec fn tab_stands(
    s: SessionView,
    spaces: Seq<HSpace>,
    i: int,
    t: int,
    tb: u64,
    order: Seq<u64>,
) -> bool {
    let k = tabs_before(spaces, i) + t;
    0 <= k < s.tabs.len() && stands(s.tabs[k], tb + k, spaces[i].tabs@[t], order)
}

pub(crate) proof fn lemma_tabs_before(spaces: Seq<HSpace>, n: int, k: int)
    requires
        0 <= k <= n <= spaces.len(),
    ensures
        tabs_before(spaces, k) <= tabs_before(spaces, n),
    decreases n - k,
{
    if k < n {
        lemma_tabs_before(spaces, n - 1, k);
    }
}

pub(crate) proof fn lemma_space_numbers(spaces: Seq<HSpace>, n: int, k: int)
    requires
        0 <= k <= n <= spaces.len(),
    ensures
        space_numbers(spaces, k).len() <= space_numbers(spaces, n).len(),
        forall|i: int|
            0 <= i < space_numbers(spaces, k).len() ==> #[trigger] space_numbers(spaces, n)[i]
                == space_numbers(spaces, k)[i],
    decreases n - k,
{
    if k < n {
        lemma_space_numbers(spaces, n - 1, k);
    }
}

/// Every tab that stands has an id below the next one.
pub(crate) proof fn lemma_tab_ids(
    s: SessionView,
    spaces: Seq<HSpace>,
    n: int,
    sb: u64,
    tb: u64,
    order: Seq<u64>,
    k: int,
)
    requires
        spaces_stand(s, spaces, n, sb, tb, order),
        0 <= n <= spaces.len(),
        0 <= k < s.tabs.len(),
    ensures
        s.tabs[k].id == tb + k,
{
    lemma_owner(spaces, n, k);
    let i = choose|i: int|
        0 <= i < n && tabs_before(spaces, i) <= k < #[trigger] tabs_before(spaces, i)
            + spaces[i].tabs@.len();
    assert(tab_stands(s, spaces, i, k - tabs_before(spaces, i), tb, order));
}

/// Every tab is one of some space.
proof fn lemma_owner(spaces: Seq<HSpace>, n: int, k: int)
    requires
        0 <= n <= spaces.len(),
        0 <= k < tabs_before(spaces, n),
    ensures
        exists|i: int|
            0 <= i < n && tabs_before(spaces, i) <= k < #[trigger] tabs_before(spaces, i)
                + spaces[i].tabs@.len(),
    decreases n,
{
    if n > 0 {
        if k >= tabs_before(spaces, n - 1) {
            assert(tabs_before(spaces, n - 1) <= k < tabs_before(spaces, n - 1) + spaces[n
                - 1].tabs@.len());
        } else {
            lemma_owner(spaces, n - 1, k);
            let i = choose|i: int|
                0 <= i < n - 1 && tabs_before(spaces, i) <= k < #[trigger] tabs_before(spaces, i)
                    + spaces[i].tabs@.len();
            assert(tabs_before(spaces, i) <= k < tabs_before(spaces, i) + spaces[i].tabs@.len());
        }
    }
}

pub(crate) proof fn lemma_spaces(
    st: ImportView,
    m: Manifest,
    n: int,
    now: u64,
)
    requires
        manifest_sound(m),
        took(st, m.panes@, st.s.next_pane, 0, now),
        st.s.spaces.len() == 0,
        st.s.tabs.len() == 0,
        0 <= n <= m.spaces@.len(),
        st.s.next_pane + m.panes@.len() < u64::MAX,
        st.s.next_tab + tabs_before(m.spaces@, m.spaces@.len() as int) < u64::MAX,
        st.s.next_space + m.spaces@.len() < u64::MAX - 2,
    ensures
        ({
            let r = spaces_in(st, m.panes@, m.spaces@, n, now);
            &&& took(
                r,
                m.panes@,
                st.s.next_pane,
                space_numbers(m.spaces@, n).len() as int,
                now,
            )
            &&& spaces_stand(
                r.s,
                m.spaces@,
                n,
                st.s.next_space,
                st.s.next_tab,
                run_of(st.s.next_pane, m.panes@.len()),
            )
        }),
    decreases n,
{
    let base = st.s.next_pane;
    let sb = st.s.next_space;
    let tb = st.s.next_tab;
    let order = run_of(base, m.panes@.len());
    let spaces = m.spaces@;
    let panes = m.panes@;
    if n > 0 {
        lemma_spaces(st, m, n - 1, now);
        let b = spaces_in(st, panes, spaces, n - 1, now);
        let h = spaces[n - 1];
        let c = space_numbers(spaces, n - 1).len() as int;
        let id = b.s.next_space;
        let opened = ImportView { s: with_bare_space(b.s, h.name@, h.cwd@), ..b };
        assert(space_sound(h));
        // The name is free, so it is kept.
        assert(!taken(b.s.spaces, h.name@)) by {
            if taken(b.s.spaces, h.name@) {
                let i = choose|i: int|
                    0 <= i < b.s.spaces.len() && (#[trigger] b.s.spaces[i]).name == h.name@;
                assert(space_stands(b.s.spaces[i], sb + i, spaces[i], tb + tabs_before(spaces, i)));
            }
        }
        lemma_free_name(b.s.spaces, h.name@);
        assert(took(opened, panes, base, c, now));
        assert forall|i: int| 0 <= i < opened.s.spaces.len() - 1 implies (
        #[trigger] opened.s.spaces[i]).id != id by {
            assert(space_stands(b.s.spaces[i], sb + i, spaces[i], tb + tabs_before(spaces, i)));
        }
        assert forall|i: int| 0 <= i < opened.s.tabs.len() implies (
        #[trigger] opened.s.tabs[i]).id < opened.s.next_tab by {
            lemma_tab_ids(b.s, spaces, n - 1, sb, tb, order, i);
        }
        let tabs = h.tabs@;
        let len = tabs.len() as int;
        lemma_space_numbers(spaces, spaces.len() as int, n);
        let here = space_numbers(spaces, n);
        let mine = tab_numbers(tabs, len);
        assert forall|i: int| 0 <= i < mine.len() implies #[trigger] mine[i] == c + i by {
            assert(here[c + i] == mine[i]);
            assert(space_numbers(spaces, spaces.len() as int)[c + i] == here[c + i]);
        }
        lemma_tabs_before(spaces, spaces.len() as int, n);
        lemma_tabs(opened, panes, base, c, id, tabs, len, now);
        let t = tabs_in(opened, panes, id, tabs, len, now);
        let k = t.s.spaces.len() - 1;
        assert forall|i: int| 0 <= i < k implies !space_is(id)(#[trigger] t.s.spaces[i]) by {
            assert(t.s.spaces[i] == opened.s.spaces[i]);
        }
        lemma_first_where_is(t.s.spaces, space_is(id), k);
        let r = space_in(b, panes, h, now);
        assert forall|i: int| 0 <= i < n implies space_stands(
            #[trigger] r.s.spaces[i],
            sb + i,
            spaces[i],
            tb + tabs_before(spaces, i),
        ) by {
            if i < n - 1 {
                assert(r.s.spaces[i] == b.s.spaces[i]);
            }
        }
        assert forall|i: int, t2: int|
            0 <= i < n && 0 <= t2 < spaces[i].tabs@.len() implies #[trigger] tab_stands(
            r.s,
            spaces,
            i,
            t2,
            tb,
            order,
        ) by {
            let x = tabs_before(spaces, i) + t2;
            if i < n - 1 {
                assert(tab_stands(b.s, spaces, i, t2, tb, order));
                assert(t.s.tabs[x] == opened.s.tabs[x]);
            } else {
                assert(stands(t.s.tabs[x], tb + x, tabs[t2], order));
            }
        }
    } else {
        assert(space_numbers(spaces, n).len() == 0);
    }
}

/// A name that is free is kept.
pub(crate) proof fn lemma_free_name(ss: Seq<SpaceView>, name: Seq<char>)
    requires
        !taken(ss, name),
    ensures
        unique_name(ss, name) == name,
{
    assert(is_unique_name(ss, name, name));
}

// -- the handover ------------------------------------------------------------

proof fn lemma_handed_tabs(
    u: SessionView,
    spaces: Seq<HSpace>,
    sb: u64,
    tb: u64,
    order: Seq<u64>,
    i: int,
    n: int,
)
    requires
        spaces_stand(u, spaces, spaces.len() as int, sb, tb, order),
        tb + tabs_before(spaces, spaces.len() as int) < u64::MAX,
        0 <= i < spaces.len(),
        0 <= n <= spaces[i].tabs@.len(),
    ensures
        tabs_handed(u, order, u.spaces[i].tabs, n) == htab_views(spaces[i].tabs@).take(n),
    decreases n,
{
    let tabs = u.spaces[i].tabs;
    let all = htab_views(spaces[i].tabs@);
    if n > 0 {
        lemma_handed_tabs(u, spaces, sb, tb, order, i, n - 1);
        assert(space_stands(u.spaces[i], sb + i, spaces[i], tb + tabs_before(spaces, i)));
        assert(tab_stands(u, spaces, i, n - 1, tb, order));
        let k = tabs_before(spaces, i) + n - 1;
        let id = tabs[n - 1];
        lemma_tabs_before(spaces, spaces.len() as int, i + 1);
        assert(id == tb + k);
        assert forall|j: int| 0 <= j < k implies !tab_is(id)(#[trigger] u.tabs[j]) by {
            lemma_tab_ids(u, spaces, spaces.len() as int, sb, tb, order, j);
        }
        lemma_first_where_is(u.tabs, tab_is(id), k);
        assert(all.take(n) =~= all.take(n - 1).push(all[n - 1]));
    } else {
        assert(all.take(0) =~= Seq::<HTabView>::empty());
    }
}

/// Which space is in front, by its number.
pub open spec fn front_space(s: SessionView) -> Option<usize> {
    match s.focused_space {
        Some(id) if s.has_space(id) => Some(s.space_at(id) as usize),
        _ => None,
    }
}

/// Taken over into a session that has nothing yet, a manifest comes back as it was: handed over
/// again, every space has its name, its directory, its tabs with their names and their trees, and
/// the same things in front of the same things. Every pane is there, in the order in which they
/// were counted, with its program and its state.
pub proof fn law_a_manifest_comes_back(
    s: SessionView,
    bars: Bars,
    m: Manifest,
    fds: nat,
    now: u64,
)
    requires
        s.spaces.len() == 0,
        s.tabs.len() == 0,
        s.panes.len() == 0,
        manifest_sound(m),
        m.panes@.len() <= fds,
        s.next_pane + m.panes@.len() < u64::MAX,
        s.next_tab + tabs_before(m.spaces@, m.spaces@.len() as int) < u64::MAX,
        s.next_space + m.spaces@.len() < u64::MAX - 2,
    ensures
        ({
            let (t, r) = imported(s, bars, m, fds, now);
            let order = run_of(s.next_pane, m.panes@.len());
            &&& r == Ok::<nat, ImportError>(m.panes@.len())
            &&& t.spaces.len() == m.spaces@.len()
            &&& forall|k: int|
                0 <= k < t.spaces.len() ==> space_handed(t, order, #[trigger] t.spaces[k])
                    == hspace_view(m.spaces@[k])
            &&& front_space(t) == m.focused_space
            &&& t.view == m.view
            &&& t.client_cols == m.client_cols
            &&& t.client_rows == m.client_rows
            &&& t.panes.len() == m.panes@.len()
            &&& forall|i: int|
                0 <= i < t.panes.len() ==> came_over(
                    #[trigger] t.panes[i],
                    m.panes@[i],
                    order[i] as int,
                    now,
                )
        }),
{
    let st = import_start(s, m, fds);
    let spaces = m.spaces@;
    let n = spaces.len() as int;
    let base = s.next_pane;
    let sb = s.next_space;
    let tb = s.next_tab;
    let order = run_of(base, m.panes@.len());
    assert(took(st, m.panes@, base, 0, now));
    lemma_spaces(st, m, n, now);
    lemma_view(st, m.panes@, spaces, n, now);
    let r = spaces_in(st, m.panes@, spaces, n, now);
    let (t, out) = imported(s, bars, m, fds, now);
    assert(t.spaces == r.s.spaces && t.tabs == r.s.tabs && t.panes == r.s.panes);
    assert(spaces_stand(t, spaces, n, sb, tb, order)) by {
        assert forall|i: int, x: int|
            0 <= i < n && 0 <= x < spaces[i].tabs@.len() implies #[trigger] tab_stands(
            t,
            spaces,
            i,
            x,
            tb,
            order,
        ) by {
            assert(tab_stands(r.s, spaces, i, x, tb, order));
        }
    }
    assert forall|k: int| 0 <= k < t.spaces.len() implies space_handed(
        t,
        order,
        #[trigger] t.spaces[k],
    ) == hspace_view(spaces[k]) by {
        let h = spaces[k];
        let first = tb + tabs_before(spaces, k);
        assert(space_stands(t.spaces[k], sb + k, h, first));
        assert(space_sound(h));
        let len = h.tabs@.len();
        lemma_handed_tabs(t, spaces, sb, tb, order, k, len as int);
        assert(htab_views(h.tabs@).take(len as int) =~= htab_views(h.tabs@));
        if let Some(x) = h.focused_tab {
            lemma_run(first as u64, len, x as int);
        }
    }
    if let Some(i) = m.focused_space {
        let id = (sb + i) as u64;
        assert forall|j: int| 0 <= j < i implies !space_is(id)(#[trigger] t.spaces[j]) by {
            assert(space_stands(t.spaces[j], sb + j, spaces[j], tb + tabs_before(spaces, j)));
        }
        assert(space_stands(
            t.spaces[i as int],
            sb + i,
            spaces[i as int],
            tb + tabs_before(spaces, i as int),
        ));
        lemma_first_where_is(t.spaces, space_is(id), i as int);
    }
}

/// Taking panes over leaves the view and the size alone.
proof fn lemma_view(st: ImportView, panes: Seq<HPane>, spaces: Seq<HSpace>, n: int, now: u64)
    ensures
        ({
            let r = spaces_in(st, panes, spaces, n, now).s;
            &&& r.view == st.s.view
            &&& r.client_cols == st.s.client_cols
            &&& r.client_rows == st.s.client_rows
        }),
    decreases n,
{
    if n > 0 {
        lemma_view(st, panes, spaces, n - 1, now);
        let b = spaces_in(st, panes, spaces, n - 1, now);
        let h = spaces[n - 1];
        let opened = ImportView { s: with_bare_space(b.s, h.name@, h.cwd@), ..b };
        lemma_tabs_view(opened, panes, b.s.next_space, h.tabs@, h.tabs@.len() as int, now);
    }
}

proof fn lemma_tabs_view(
    st: ImportView,
    panes: Seq<HPane>,
    space: u64,
    tabs: Seq<HTab>,
    n: int,
    now: u64,
)
    ensures
        ({
            let r = tabs_in(st, panes, space, tabs, n, now).s;
            &&& r.view == st.s.view
            &&& r.client_cols == st.s.client_cols
            &&& r.client_rows == st.s.client_rows
        }),
    decreases n,
{
    if n > 0 {
        lemma_tabs_view(st, panes, space, tabs, n - 1, now);
        let b = tabs_in(st, panes, space, tabs, n - 1, now);
        let h = tabs[n - 1];
        let opened = ImportView { s: with_empty_tab(b.s, space, h.name@), ..b };
        let ls = h.tree.leaves();
        lemma_leaves_view(opened, panes, space, b.s.next_tab, ls, ls.len() as int, now);
    }
}

proof fn lemma_leaves_view(
    st: ImportView,
    panes: Seq<HPane>,
    space: u64,
    tab: u64,
    ls: Seq<usize>,
    n: int,
    now: u64,
)
    ensures
        ({
            let r = leaves_in(st, panes, space, tab, ls, n, now).s;
            &&& r.view == st.s.view
            &&& r.client_cols == st.s.client_cols
            &&& r.client_rows == st.s.client_rows
        }),
    decreases n,
{
    if n > 0 {
        lemma_leaves_view(st, panes, space, tab, ls, n - 1, now);
    }
}

/// A tab that is there, with panes, the one in front among them.
pub open spec fn tab_whole(s: SessionView, id: u64) -> bool {
    let t = s.tabs[s.tab_at(id)];
    &&& s.has_tab(id)
    &&& t.layout.tree is Some
    &&& t.focused_pane matches Some(p) ==> t.layout.order().contains(p)
}

/// A space whose tabs are there, with one of them in front unless it has none.
pub open spec fn space_whole(s: SessionView, sp: SpaceView) -> bool {
    &&& forall|i: int| 0 <= i < sp.tabs.len() ==> tab_whole(s, #[trigger] sp.tabs[i])
    &&& match sp.focused_tab {
        Some(t) => sp.tabs.contains(t),
        None => sp.tabs.len() == 0,
    }
}

/// A session in which everything that is named is there, every pane has one place, and something
/// is in front wherever there is anything.
pub open spec fn whole(s: SessionView) -> bool {
    &&& s.wf()
    &&& forall|i: int| 0 <= i < s.spaces.len() ==> space_whole(s, #[trigger] s.spaces[i])
    &&& panes_in_order(s, s.spaces.len() as int).no_duplicates()
    &&& match s.focused_space {
        Some(id) => s.has_space(id),
        None => s.spaces.len() == 0,
    }
}

/// What a session, its panes counted in order, is handed over as.
pub open spec fn manifest_of(m: Manifest, s: SessionView) -> bool {
    let order = panes_in_order(s, s.spaces.len() as int);
    &&& m.spaces@.len() == s.spaces.len()
    &&& forall|i: int|
        0 <= i < m.spaces@.len() ==> hspace_view(#[trigger] m.spaces@[i]) == space_handed(
            s,
            order,
            s.spaces[i],
        )
    &&& m.focused_space == front_space(s)
    &&& m.view == s.view
    &&& m.client_cols == s.client_cols
    &&& m.client_rows == s.client_rows
    &&& m.panes@.len() == order.len()
    &&& forall|i: int|
        0 <= i < order.len() ==> s.has_pane(#[trigger] order[i]) && exported(
            m.panes@[i],
            s.panes[s.pane_at(order[i])],
        )
}

proof fn lemma_numbered_tree(n: Node, order: Seq<u64>)
    ensures
        by_number(n, order).leaves().len() == n.leaves().len(),
        forall|i: int|
            0 <= i < n.leaves().len() ==> #[trigger] by_number(n, order).leaves()[i] == number_of(
                order,
                n.leaves()[i],
            ) as usize,
    decreases n,
{
    if let Node::Split { axis, ratio, a, b } = n {
        lemma_numbered_tree(*a, order);
        lemma_numbered_tree(*b, order);
    }
}

proof fn lemma_numbered_tabs(s: SessionView, tabs: Seq<u64>, order: Seq<u64>, hs: Seq<HTab>, n: int)
    requires
        forall|i: int| 0 <= i < tabs.len() ==> tab_whole(s, #[trigger] tabs[i]),
        0 <= n <= tabs.len(),
        htab_views(hs) == tabs_handed(s, order, tabs, tabs.len() as int),
    ensures
        hs.len() == tabs.len(),
        tab_numbers(hs, n).len() == panes_of_tabs(s, tabs, n).len(),
        forall|i: int|
            0 <= i < tab_numbers(hs, n).len() ==> #[trigger] tab_numbers(hs, n)[i] == number_of(
                order,
                panes_of_tabs(s, tabs, n)[i],
            ) as usize,
    decreases n,
{
    lemma_handed_each(s, order, tabs, tabs.len() as int);
    assert(htab_views(hs).len() == hs.len());
    if n > 0 {
        lemma_numbered_tabs(s, tabs, order, hs, n - 1);
        assert(tab_whole(s, tabs[n - 1]));
        let tree = s.tabs[s.tab_at(tabs[n - 1])].layout.tree->Some_0;
        lemma_numbered_tree(tree, order);
        assert(htab_views(hs)[n - 1] == htab_view(hs[n - 1]));
        assert(hs[n - 1].tree == by_number(tree, order));
    }
}

proof fn lemma_handed_each(s: SessionView, order: Seq<u64>, tabs: Seq<u64>, n: int)
    requires
        forall|i: int| 0 <= i < tabs.len() ==> tab_whole(s, #[trigger] tabs[i]),
        0 <= n <= tabs.len(),
    ensures
        tabs_handed(s, order, tabs, n).len() == n,
        forall|i: int|
            0 <= i < n ==> #[trigger] tabs_handed(s, order, tabs, n)[i] == tab_handed(
                s.tabs[s.tab_at(tabs[i])],
                order,
            ),
    decreases n,
{
    if n > 0 {
        lemma_handed_each(s, order, tabs, n - 1);
        assert(tab_whole(s, tabs[n - 1]));
    }
}

proof fn lemma_numbered_spaces(s: SessionView, m: Manifest, n: int)
    requires
        whole(s),
        manifest_of(m, s),
        0 <= n <= s.spaces.len(),
    ensures
        space_numbers(m.spaces@, n).len() == panes_in_order(s, n).len(),
        forall|i: int|
            0 <= i < space_numbers(m.spaces@, n).len() ==> #[trigger] space_numbers(
                m.spaces@,
                n,
            )[i] == number_of(
                panes_in_order(s, s.spaces.len() as int),
                panes_in_order(s, n)[i],
            ) as usize,
    decreases n,
{
    let order = panes_in_order(s, s.spaces.len() as int);
    if n > 0 {
        lemma_numbered_spaces(s, m, n - 1);
        let sp = s.spaces[n - 1];
        let h = m.spaces@[n - 1];
        assert(space_whole(s, sp));
        assert(hspace_view(h) == space_handed(s, order, sp));
        lemma_numbered_tabs(s, sp.tabs, order, h.tabs@, sp.tabs.len() as int);
    }
}

proof fn lemma_counted_once(order: Seq<u64>, i: int)
    requires
        order.no_duplicates(),
        0 <= i < order.len(),
    ensures
        first_where(order, id_is(order[i])) == i,
{
    let p = id_is(order[i]);
    assert forall|j: int| 0 <= j < i implies !p(#[trigger] order[j]) by {
        assert(order[j] != order[i]);
    }
    lemma_first_where_is(order, p, i);
}

/// What a whole session is handed over as is a sound manifest.
pub proof fn law_what_is_handed_over_is_sound(s: SessionView, m: Manifest)
    requires
        whole(s),
        manifest_of(m, s),
    ensures
        manifest_sound(m),
{
    let n = s.spaces.len() as int;
    let order = panes_in_order(s, n);
    lemma_numbered_spaces(s, m, n);
    let ns = space_numbers(m.spaces@, n);
    assert(m.panes.len() == m.panes@.len());
    assert forall|i: int| 0 <= i < ns.len() implies #[trigger] ns[i] == i by {
        lemma_counted_once(order, i);
    }
    assert forall|i: int, j: int| 0 <= i < j < m.spaces@.len() implies (
    #[trigger] m.spaces@[i]).name@ != (#[trigger] m.spaces@[j]).name@ by {
        assert(hspace_view(m.spaces@[i]).name == s.spaces[i].name);
        assert(hspace_view(m.spaces@[j]).name == s.spaces[j].name);
    }
    assert forall|k: int| 0 <= k < m.spaces@.len() implies space_sound(
        #[trigger] m.spaces@[k],
    ) by {
        let h = m.spaces@[k];
        let sp = s.spaces[k];
        assert(space_whole(s, sp));
        assert(hspace_view(h) == space_handed(s, order, sp));
        lemma_handed_each(s, order, sp.tabs, sp.tabs.len() as int);
        assert(htab_views(h.tabs@).len() == h.tabs@.len());
        assert(h.tabs.len() == h.tabs@.len());
        if let Some(t) = sp.focused_tab {
            lemma_first_where(sp.tabs, id_is(t));
            let x = choose|x: int| 0 <= x < sp.tabs.len() && sp.tabs[x] == t;
            if first_where(sp.tabs, id_is(t)) == sp.tabs.len() {
                assert(!id_is(t)(sp.tabs[x]));
            }
        }
        assert forall|t: int| 0 <= t < h.tabs@.len() implies tab_sound(#[trigger] h.tabs@[t]) by {
            let tab = s.tabs[s.tab_at(sp.tabs[t])];
            assert(tab_whole(s, sp.tabs[t]));
            assert(htab_views(h.tabs@)[t] == htab_view(h.tabs@[t]));
            assert(htab_view(h.tabs@[t]) == tab_handed(tab, order));
            let tree = tab.layout.tree->Some_0;
            lemma_numbered_tree(tree, order);
            if let Some(i) = h.tabs@[t].focused_pane {
                let p = tab.focused_pane->Some_0;
                assert(tree.leaves().contains(p));
                let x = choose|x: int| 0 <= x < tree.leaves().len() && tree.leaves()[x] == p;
                assert(h.tabs@[t].tree.leaves()[x] == number_of(order, p) as usize);
                assert(h.tabs@[t].tree.leaves().contains(i));
            }
        }
    }
    if let Some(id) = s.focused_space {
        lemma_first_where(s.spaces, space_is(id));
        assert(m.spaces.len() == m.spaces@.len());
    }
}

/// A session survives being handed over to a daemon that has nothing yet. Every space is there
/// under its name and in its directory, with its tabs under theirs, divided among its panes as
/// they were; the same things are in front; and every pane has its program, its size, its role
/// and what is known of the agent in it.
pub proof fn law_a_session_survives_the_handover(
    s: SessionView,
    m: Manifest,
    new: SessionView,
    bars: Bars,
    now: u64,
)
    requires
        whole(s),
        manifest_of(m, s),
        new.spaces.len() == 0,
        new.tabs.len() == 0,
        new.panes.len() == 0,
        new.next_pane + m.panes@.len() < u64::MAX,
        new.next_tab + tabs_before(m.spaces@, m.spaces@.len() as int) < u64::MAX,
        new.next_space + m.spaces@.len() < u64::MAX - 2,
    ensures
        ({
            let (t, r) = imported(new, bars, m, m.panes@.len(), now);
            let before = panes_in_order(s, s.spaces.len() as int);
            let after = run_of(new.next_pane, before.len());
            &&& r is Ok
            &&& t.spaces.len() == s.spaces.len()
            &&& forall|k: int|
                0 <= k < t.spaces.len() ==> space_handed(t, after, #[trigger] t.spaces[k])
                    == space_handed(s, before, s.spaces[k])
            &&& front_space(t) == front_space(s)
            &&& t.view == s.view
            &&& t.client_cols == s.client_cols
            &&& t.client_rows == s.client_rows
            &&& t.panes.len() == before.len()
            &&& forall|i: int|
                0 <= i < before.len() ==> {
                    let p = #[trigger] t.panes[i];
                    let q = s.panes[s.pane_at(before[i])];
                    &&& p.id == after[i]
                    &&& p.cmd == q.cmd
                    &&& p.cwd == q.cwd
                    &&& p.name == q.name
                    &&& p.life.title == q.life.title
                    &&& p.life.cols == q.life.cols
                    &&& p.life.rows == q.life.rows
                    &&& p.life.role == q.life.role
                    &&& p.life.board == q.life.board
                    &&& p.life.pinned == q.life.pinned
                    &&& p.life.spawned_by == q.life.spawned_by
                    &&& p.life.spawned_by_pane == q.life.spawned_by_pane
                    &&& p.life.agent is Some == q.life.agent is Some
                    &&& p.life.agent matches Some(a) ==> {
                        let b = q.life.agent->Some_0;
                        a.name == b.name && a.kind == b.kind && a.state == b.state && a.session_id
                            == b.session_id && a.queued == b.queued
                    }
                }
        }),
{
    law_what_is_handed_over_is_sound(s, m);
    law_a_manifest_comes_back(new, bars, m, m.panes@.len(), now);
    let (t, r) = imported(new, bars, m, m.panes@.len(), now);
    let before = panes_in_order(s, s.spaces.len() as int);
    let after = run_of(new.next_pane, before.len());
    assert forall|k: int| 0 <= k < t.spaces.len() implies space_handed(
        t,
        after,
        #[trigger] t.spaces[k],
    ) == space_handed(s, before, s.spaces[k]) by {
        assert(hspace_view(m.spaces@[k]) == space_handed(s, before, s.spaces[k]));
    }
    assert forall|i: int| 0 <= i < before.len() implies came_over(
        #[trigger] t.panes[i],
        m.panes@[i],
        after[i] as int,
        now,
    ) && exported(m.panes@[i], s.panes[s.pane_at(before[i])]) by {
        assert(s.has_pane(before[i]));
    }
}

} // verus!
