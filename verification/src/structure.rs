//! How a session hangs together, whatever is done to it: every space lists tabs that are there and
//! are its own, every tab is divided among panes that are there and are its own, and nothing is
//! anywhere twice.

use crate::layout::{
    law_a_new_pane_stands_beside_its_neighbour, law_closing_keeps_the_others_in_order,
    law_swapping_exchanges_two_places, leaving_out, Layout, Node,
};
use crate::proto::{Dir, ViewState};
use crate::seqs::{first_where, lemma_first_where};
use crate::state::{
    base_name, first_free, heir, id_is, is_unique_name, killed, killed_all, lemma_killed_all_keeps,
    lemma_leaving_out_shorter, lemma_tabs_dropped_keeps, lemma_taken_bound, lemma_unique_name,
    lemma_wf_without_pane, lemma_wf_without_space, lemma_wf_without_tab, moved_to, numbered,
    pane_closed, pane_focused, pane_is, pane_resized, pane_swapped, panes_closed, panes_in_order,
    panes_of_tabs, space_closed, space_cycled, space_focused, space_ids, space_is,
    space_without_tab, splitting_in, tab_closed, tab_cycled, tab_dropped, tab_focused, tab_gone_to,
    tab_is, tab_renamed, tabs_dropped, taken, unique_name, unzoomed, with_empty_space, with_space,
    with_tab, Bars, PaneView, SessionView, SpaceView, TabView,
};
use crate::survival::{space_whole, tab_whole, whole};
use vstd::prelude::*;

verus! {

// -- by id -------------------------------------------------------------------

/// Things by their ids.
pub open spec fn keyed<A>(s: Seq<A>, id: spec_fn(A) -> u64) -> Map<u64, A> {
    Map::new(
        |k: u64| exists|i: int| 0 <= i < s.len() && id(#[trigger] s[i]) == k,
        |k: u64| s[choose|i: int| 0 <= i < s.len() && id(#[trigger] s[i]) == k],
    )
}

/// No two things share an id.
pub open spec fn distinct<A>(s: Seq<A>, id: spec_fn(A) -> u64) -> bool {
    forall|i: int, j: int|
        0 <= i < j < s.len() ==> id(#[trigger] s[i]) != id(#[trigger] s[j])
}

pub(crate) proof fn lemma_keyed<A>(s: Seq<A>, id: spec_fn(A) -> u64, i: int)
    requires
        distinct(s, id),
        0 <= i < s.len(),
    ensures
        keyed(s, id).contains_key(id(s[i])),
        keyed(s, id)[id(s[i])] == s[i],
{
    let k = id(s[i]);
    let c = choose|j: int| 0 <= j < s.len() && id(#[trigger] s[j]) == k;
    assert(id(s[c]) == k);
    if c < i {
        assert(id(s[c]) != id(s[i]));
    }
    if i < c {
        assert(id(s[i]) != id(s[c]));
    }
}

pub(crate) proof fn lemma_keyed_where<A>(s: Seq<A>, id: spec_fn(A) -> u64, k: u64) -> (i: int)
    requires
        distinct(s, id),
        keyed(s, id).contains_key(k),
    ensures
        0 <= i < s.len(),
        id(s[i]) == k,
        keyed(s, id)[k] == s[i],
{
    let i = choose|i: int| 0 <= i < s.len() && id(#[trigger] s[i]) == k;
    i
}

pub(crate) proof fn lemma_keyed_push<A>(s: Seq<A>, id: spec_fn(A) -> u64, x: A)
    requires
        distinct(s, id),
        !keyed(s, id).contains_key(id(x)),
    ensures
        distinct(s.push(x), id),
        keyed(s.push(x), id) == keyed(s, id).insert(id(x), x),
{
    let t = s.push(x);
    assert forall|i: int, j: int| 0 <= i < j < t.len() implies id(#[trigger] t[i]) != id(
        #[trigger] t[j],
    ) by {
        if j == s.len() {
            lemma_keyed(s, id, i);
        } else {
            assert(id(s[i]) != id(s[j]));
        }
    }
    let a = keyed(t, id);
    let b = keyed(s, id).insert(id(x), x);
    lemma_keyed(t, id, s.len() as int);
    assert forall|k: u64| a.contains_key(k) == b.contains_key(k) by {
        if a.contains_key(k) {
            let i = lemma_keyed_where(t, id, k);
            if i < s.len() {
                lemma_keyed(s, id, i);
            }
        }
        if keyed(s, id).contains_key(k) {
            let i = lemma_keyed_where(s, id, k);
            assert(t[i] == s[i]);
            lemma_keyed(t, id, i);
        }
    }
    assert forall|k: u64| a.contains_key(k) implies a[k] == b[k] by {
        let i = lemma_keyed_where(t, id, k);
        if i < s.len() {
            lemma_keyed(s, id, i);
        }
    }
    assert(a =~= b);
}

pub(crate) proof fn lemma_keyed_update<A>(s: Seq<A>, id: spec_fn(A) -> u64, i: int, x: A)
    requires
        distinct(s, id),
        0 <= i < s.len(),
        id(x) == id(s[i]),
    ensures
        distinct(s.update(i, x), id),
        keyed(s.update(i, x), id) == keyed(s, id).insert(id(x), x),
{
    let t = s.update(i, x);
    assert forall|a: int, b: int| 0 <= a < b < t.len() implies id(#[trigger] t[a]) != id(
        #[trigger] t[b],
    ) by {
        assert(id(s[a]) != id(s[b]));
    }
    let a = keyed(t, id);
    let b = keyed(s, id).insert(id(x), x);
    lemma_keyed(t, id, i);
    assert forall|k: u64| a.contains_key(k) == b.contains_key(k) by {
        if a.contains_key(k) {
            let j = lemma_keyed_where(t, id, k);
            lemma_keyed(s, id, j);
        }
        if keyed(s, id).contains_key(k) {
            let j = lemma_keyed_where(s, id, k);
            lemma_keyed(t, id, j);
        }
    }
    assert forall|k: u64| a.contains_key(k) implies a[k] == b[k] by {
        let j = lemma_keyed_where(t, id, k);
        if j != i {
            assert(t[j] == s[j]);
            lemma_keyed(s, id, j);
            if j < i {
                assert(id(s[j]) != id(s[i]));
            } else {
                assert(id(s[i]) != id(s[j]));
            }
        }
    }
    assert(a =~= b);
}

proof fn lemma_keyed_remove<A>(s: Seq<A>, id: spec_fn(A) -> u64, i: int)
    requires
        distinct(s, id),
        0 <= i < s.len(),
    ensures
        distinct(s.remove(i), id),
        keyed(s.remove(i), id) == keyed(s, id).remove(id(s[i])),
{
    let t = s.remove(i);
    s.remove_ensures(i);
    assert forall|a: int, b: int| 0 <= a < b < t.len() implies id(#[trigger] t[a]) != id(
        #[trigger] t[b],
    ) by {
        let x = if a < i { a } else { a + 1 };
        let y = if b < i { b } else { b + 1 };
        assert(t[a] == s[x] && t[b] == s[y]);
    }
    let a = keyed(t, id);
    let b = keyed(s, id).remove(id(s[i]));
    assert forall|k: u64| a.contains_key(k) == b.contains_key(k) by {
        if a.contains_key(k) {
            let j = lemma_keyed_where(t, id, k);
            let y = if j < i { j } else { j + 1 };
            assert(t[j] == s[y]);
            lemma_keyed(s, id, y);
            if y < i {
                assert(id(s[y]) != id(s[i]));
            } else {
                assert(id(s[i]) != id(s[y]));
            }
        }
        if b.contains_key(k) {
            let j = lemma_keyed_where(s, id, k);
            let y = if j < i { j } else { j - 1 };
            assert(t[y] == s[j]);
            lemma_keyed(t, id, y);
        }
    }
    assert forall|k: u64| a.contains_key(k) implies a[k] == b[k] by {
        let j = lemma_keyed_where(t, id, k);
        let y = if j < i { j } else { j + 1 };
        assert(t[j] == s[y]);
        lemma_keyed(s, id, y);
    }
    assert(a =~= b);
}

// -- shapes ------------------------------------------------------------------

/// The id of a space.
pub open spec fn space_key() -> spec_fn(SpaceView) -> u64 {
    |s: SpaceView| s.id
}

/// The id of a tab.
pub open spec fn tab_key() -> spec_fn(TabView) -> u64 {
    |t: TabView| t.id
}

/// The id of a pane.
pub open spec fn pane_key() -> spec_fn(PaneView) -> u64 {
    |p: PaneView| p.id
}

/// What there is, by id.
pub struct Shape {
    pub spaces: Map<u64, SpaceView>,
    pub tabs: Map<u64, TabView>,
    pub panes: Map<u64, PaneView>,
}

/// What there is in a session, by id.
pub open spec fn shape(s: SessionView) -> Shape {
    Shape {
        spaces: keyed(s.spaces, space_key()),
        tabs: keyed(s.tabs, tab_key()),
        panes: keyed(s.panes, pane_key()),
    }
}

/// A space lists each of its tabs once, they are there and its own, and one of them is in front
/// unless it has none.
pub open spec fn space_hangs(h: Shape, id: u64) -> bool {
    let sp = h.spaces[id];
    &&& sp.id == id
    &&& sp.tabs.no_duplicates()
    &&& forall|t: u64|
        #[trigger]
        sp.tabs.contains(t) ==> h.tabs.contains_key(t) && h.tabs[t].space == id
    &&& match sp.focused_tab {
        Some(t) => sp.tabs.contains(t),
        None => sp.tabs.len() == 0,
    }
}

/// A tab is listed by its space, divided among panes that are there and its own, each of them
/// once, with one of them in front where one is.
pub open spec fn tab_hangs(h: Shape, id: u64) -> bool {
    let t = h.tabs[id];
    &&& t.id == id
    &&& h.spaces.contains_key(t.space)
    &&& h.spaces[t.space].tabs.contains(id)
    &&& t.layout.tree is Some
    &&& t.layout.order().no_duplicates()
    &&& forall|p: u64|
        #[trigger]
        t.layout.order().contains(p) ==> h.panes.contains_key(p) && h.panes[p].tab == id
    &&& t.focused_pane matches Some(p) ==> t.layout.order().contains(p)
}

/// A pane has a place in its tab.
pub open spec fn pane_hangs(h: Shape, id: u64) -> bool {
    let p = h.panes[id];
    &&& p.id == id
    &&& h.tabs.contains_key(p.tab)
    &&& h.tabs[p.tab].layout.order().contains(id)
    &&& p.space == h.tabs[p.tab].space
}

/// Everything hangs together.
pub open spec fn hangs(h: Shape) -> bool {
    &&& forall|id: u64| #[trigger] h.spaces.contains_key(id) ==> space_hangs(h, id)
    &&& forall|id: u64| #[trigger] h.tabs.contains_key(id) ==> tab_hangs(h, id)
    &&& forall|id: u64| #[trigger] h.panes.contains_key(id) ==> pane_hangs(h, id)
}

/// A session in which everything hangs together, with a space in front unless there is none.
pub open spec fn sound(s: SessionView) -> bool {
    &&& s.wf()
    &&& hangs(shape(s))
    &&& match s.focused_space {
        Some(id) => s.has_space(id),
        None => s.spaces.len() == 0,
    }
}

pub(crate) proof fn lemma_distinct(s: SessionView)
    requires
        s.wf(),
    ensures
        distinct(s.spaces, space_key()),
        distinct(s.tabs, tab_key()),
        distinct(s.panes, pane_key()),
{
}

pub(crate) proof fn lemma_space(s: SessionView, id: u64)
    requires
        s.wf(),
    ensures
        s.has_space(id) == shape(s).spaces.contains_key(id),
        s.has_space(id) ==> 0 <= s.space_at(id) && s.spaces[s.space_at(id)].id == id
            && shape(s).spaces[id] == s.spaces[s.space_at(id)],
{
    lemma_distinct(s);
    lemma_first_where(s.spaces, space_is(id));
    let i = s.space_at(id);
    if i < s.spaces.len() {
        assert(space_is(id)(s.spaces[i]));
        lemma_keyed(s.spaces, space_key(), i);
    } else if shape(s).spaces.contains_key(id) {
        let j = lemma_keyed_where(s.spaces, space_key(), id);
        assert(!space_is(id)(s.spaces[j]));
    }
}

pub(crate) proof fn lemma_tab(s: SessionView, id: u64)
    requires
        s.wf(),
    ensures
        s.has_tab(id) == shape(s).tabs.contains_key(id),
        s.has_tab(id) ==> 0 <= s.tab_at(id) && s.tabs[s.tab_at(id)].id == id && shape(s).tabs[id]
            == s.tabs[s.tab_at(id)],
{
    lemma_distinct(s);
    lemma_first_where(s.tabs, tab_is(id));
    let i = s.tab_at(id);
    if i < s.tabs.len() {
        assert(tab_is(id)(s.tabs[i]));
        lemma_keyed(s.tabs, tab_key(), i);
    } else if shape(s).tabs.contains_key(id) {
        let j = lemma_keyed_where(s.tabs, tab_key(), id);
        assert(!tab_is(id)(s.tabs[j]));
    }
}

pub(crate) proof fn lemma_pane(s: SessionView, id: u64)
    requires
        s.wf(),
    ensures
        s.has_pane(id) == shape(s).panes.contains_key(id),
        s.has_pane(id) ==> 0 <= s.pane_at(id) && s.panes[s.pane_at(id)].id == id && shape(
            s,
        ).panes[id] == s.panes[s.pane_at(id)],
{
    lemma_distinct(s);
    lemma_first_where(s.panes, pane_is(id));
    let i = s.pane_at(id);
    if i < s.panes.len() {
        assert(pane_is(id)(s.panes[i]));
        lemma_keyed(s.panes, pane_key(), i);
    } else if shape(s).panes.contains_key(id) {
        let j = lemma_keyed_where(s.panes, pane_key(), id);
        assert(!pane_is(id)(s.panes[j]));
    }
}

/// Ids that have not been given out are nobody's.
pub(crate) proof fn lemma_new_ids(s: SessionView)
    requires
        s.wf(),
    ensures
        !shape(s).spaces.contains_key(s.next_space),
        !shape(s).tabs.contains_key(s.next_tab),
        !shape(s).panes.contains_key(s.next_pane),
{
    lemma_distinct(s);
    if shape(s).spaces.contains_key(s.next_space) {
        let i = lemma_keyed_where(s.spaces, space_key(), s.next_space);
    }
    if shape(s).tabs.contains_key(s.next_tab) {
        let i = lemma_keyed_where(s.tabs, tab_key(), s.next_tab);
    }
    if shape(s).panes.contains_key(s.next_pane) {
        let i = lemma_keyed_where(s.panes, pane_key(), s.next_pane);
    }
}

// -- making things -----------------------------------------------------------

proof fn lemma_hangs_new_tab(h: Shape, space: u64, t: TabView, p: PaneView)
    requires
        hangs(h),
        h.spaces.contains_key(space),
        !h.tabs.contains_key(t.id),
        !h.panes.contains_key(p.id),
        t.space == space,
        t.layout.tree == Some(Node::Leaf(p.id)),
        t.focused_pane == Some(p.id),
        p.tab == t.id,
        p.space == space,
    ensures
        hangs(
            Shape {
                spaces: h.spaces.insert(
                    space,
                    SpaceView {
                        tabs: h.spaces[space].tabs.push(t.id),
                        focused_tab: Some(t.id),
                        ..h.spaces[space]
                    },
                ),
                tabs: h.tabs.insert(t.id, t),
                panes: h.panes.insert(p.id, p),
            },
        ),
{
    let sp = h.spaces[space];
    let sp2 = SpaceView { tabs: sp.tabs.push(t.id), focused_tab: Some(t.id), ..sp };
    let g = Shape {
        spaces: h.spaces.insert(space, sp2),
        tabs: h.tabs.insert(t.id, t),
        panes: h.panes.insert(p.id, p),
    };
    let order = t.layout.order();
    assert(order =~= seq![p.id]);
    assert(order[0] == p.id);
    assert(space_hangs(h, space));
    assert(!sp.tabs.contains(t.id));
    assert forall|id: u64| #[trigger] g.spaces.contains_key(id) implies space_hangs(g, id) by {
        assert(h.spaces.contains_key(id));
        assert(space_hangs(h, id));
        if id == space {
            assert(sp2.tabs.no_duplicates());
            assert(sp2.tabs[sp.tabs.len() as int] == t.id);
            assert forall|x: u64| #[trigger] sp2.tabs.contains(x) implies g.tabs.contains_key(x)
                && g.tabs[x].space == id by {
                if x != t.id {
                    let i = choose|i: int| 0 <= i < sp2.tabs.len() && sp2.tabs[i] == x;
                    assert(sp.tabs[i] == x);
                    assert(sp.tabs.contains(x));
                }
            }
        } else {
            let o = h.spaces[id];
            assert forall|x: u64| #[trigger] o.tabs.contains(x) implies g.tabs.contains_key(x)
                && g.tabs[x].space == id by {
                assert(h.tabs.contains_key(x));
            }
        }
    }
    assert forall|id: u64| #[trigger] g.tabs.contains_key(id) implies tab_hangs(g, id) by {
        if id == t.id {
            assert(sp2.tabs[sp.tabs.len() as int] == t.id);
        } else {
            assert(h.tabs.contains_key(id));
            assert(tab_hangs(h, id));
            let o = h.tabs[id];
            if o.space == space {
                let i = choose|i: int| 0 <= i < sp.tabs.len() && sp.tabs[i] == id;
                assert(sp2.tabs[i] == id);
            }
            assert forall|x: u64| #[trigger] o.layout.order().contains(x) implies
                g.panes.contains_key(x) && g.panes[x].tab == id by {
                assert(h.panes.contains_key(x));
            }
        }
    }
    assert forall|id: u64| #[trigger] g.panes.contains_key(id) implies pane_hangs(g, id) by {
        if id != p.id {
            assert(h.panes.contains_key(id));
            assert(pane_hangs(h, id));
            assert(h.tabs.contains_key(h.panes[id].tab));
        }
    }
}

proof fn lemma_empty_space(s: SessionView, name: Option<Seq<char>>, cwd: Seq<char>)
    requires
        sound(s),
        s.has_space_ids(),
        with_empty_space(s, name, cwd).wf(),
    ensures
        sound(with_empty_space(s, name, cwd)),
{
    let r = with_empty_space(s, name, cwd);
    let h = shape(s);
    let g = shape(r);
    let sp = r.spaces.last();
    lemma_distinct(s);
    lemma_new_ids(s);
    lemma_keyed_push(s.spaces, space_key(), sp);
    assert(r.spaces =~= s.spaces.push(sp));
    assert(g.spaces == h.spaces.insert(sp.id, sp));
    assert(g.tabs == h.tabs && g.panes == h.panes);
    assert forall|id: u64| #[trigger] g.spaces.contains_key(id) implies space_hangs(g, id) by {
        if id != sp.id {
            assert(h.spaces.contains_key(id));
            assert(space_hangs(h, id));
        }
    }
    assert forall|id: u64| #[trigger] g.tabs.contains_key(id) implies tab_hangs(g, id) by {
        assert(h.tabs.contains_key(id));
        assert(tab_hangs(h, id));
    }
    assert forall|id: u64| #[trigger] g.panes.contains_key(id) implies pane_hangs(g, id) by {
        assert(h.panes.contains_key(id));
        assert(pane_hangs(h, id));
    }
    lemma_space(r, sp.id);
}

/// Making a tab keeps everything together.
pub proof fn law_a_new_tab_keeps_it_sound(
    s: SessionView,
    bars: Bars,
    shell: Seq<char>,
    space: u64,
    name: Option<Seq<char>>,
)
    requires
        sound(s),
        s.has_ids(),
    ensures
        sound(with_tab(s, bars, shell, space, name).0),
{
    lemma_space(s, space);
    let r = with_tab(s, bars, shell, space, name).0;
    if s.has_space(space) {
        let i = s.space_at(space);
        let t = r.tabs.last();
        let p = r.panes.last();
        let sp = SpaceView {
            tabs: s.spaces[i].tabs.push(s.next_tab),
            focused_tab: Some(s.next_tab),
            ..s.spaces[i]
        };
        assert(r.tabs =~= s.tabs.push(t));
        assert(r.panes =~= s.panes.push(p));
        lemma_distinct(s);
        lemma_new_ids(s);
        lemma_keyed_push(s.tabs, tab_key(), t);
        lemma_keyed_push(s.panes, pane_key(), p);
        lemma_keyed_update(s.spaces, space_key(), i, sp);
        lemma_hangs_new_tab(shape(s), space, t, p);
        assert(r.wf());
        if let Some(f) = s.focused_space {
            lemma_space(s, f);
            lemma_space(r, f);
        }
    }
}

// -- changing things ---------------------------------------------------------

/// A space that changes keeps its id and its tabs, and has one of them in front.
pub(crate) open spec fn space_varies(a: SpaceView, b: SpaceView) -> bool {
    &&& b.id == a.id
    &&& b.tabs == a.tabs
    &&& b.focused_tab == a.focused_tab || (b.focused_tab matches Some(t) && b.tabs.contains(t))
}

pub(crate) proof fn lemma_space_changed(s: SessionView, r: SessionView, i: int, sp: SpaceView)
    requires
        s.wf(),
        hangs(shape(s)),
        0 <= i < s.spaces.len(),
        space_varies(s.spaces[i], sp),
        r.spaces == s.spaces.update(i, sp),
        r.tabs == s.tabs,
        r.panes == s.panes,
    ensures
        hangs(shape(r)),
{
    let h = shape(s);
    let g = shape(r);
    lemma_distinct(s);
    lemma_keyed_update(s.spaces, space_key(), i, sp);
    lemma_keyed(s.spaces, space_key(), i);
    assert(space_hangs(h, sp.id));
    assert forall|id: u64| #[trigger] g.spaces.contains_key(id) implies space_hangs(g, id) by {
        assert(h.spaces.contains_key(id));
        assert(space_hangs(h, id));
    }
    assert forall|id: u64| #[trigger] g.tabs.contains_key(id) implies tab_hangs(g, id) by {
        assert(h.tabs.contains_key(id));
        assert(tab_hangs(h, id));
    }
    assert forall|id: u64| #[trigger] g.panes.contains_key(id) implies pane_hangs(g, id) by {
        assert(h.panes.contains_key(id));
        assert(pane_hangs(h, id));
    }
}

/// A tab that changes keeps its id, its space and its panes, and has one of them in front where
/// one is.
pub(crate) open spec fn tab_varies(a: TabView, b: TabView) -> bool {
    &&& b.id == a.id
    &&& b.space == a.space
    &&& b.layout.tree is Some
    &&& b.layout.order().no_duplicates()
    &&& forall|p: u64|
        #[trigger]
        b.layout.order().contains(p) == a.layout.order().contains(p)
    &&& b.focused_pane matches Some(p) ==> b.layout.order().contains(p)
}

pub(crate) proof fn lemma_tab_changed(s: SessionView, r: SessionView, k: int, t: TabView)
    requires
        s.wf(),
        hangs(shape(s)),
        0 <= k < s.tabs.len(),
        tab_varies(s.tabs[k], t),
        r.tabs == s.tabs.update(k, t),
        r.spaces == s.spaces,
        r.panes == s.panes,
    ensures
        hangs(shape(r)),
{
    let h = shape(s);
    let g = shape(r);
    lemma_distinct(s);
    lemma_keyed_update(s.tabs, tab_key(), k, t);
    lemma_keyed(s.tabs, tab_key(), k);
    assert(tab_hangs(h, t.id));
    assert forall|id: u64| #[trigger] g.spaces.contains_key(id) implies space_hangs(g, id) by {
        assert(h.spaces.contains_key(id));
        assert(space_hangs(h, id));
        let sp = h.spaces[id];
        assert forall|x: u64| #[trigger] sp.tabs.contains(x) implies g.tabs.contains_key(x)
            && g.tabs[x].space == id by {
            assert(h.tabs.contains_key(x));
        }
    }
    assert forall|id: u64| #[trigger] g.tabs.contains_key(id) implies tab_hangs(g, id) by {
        assert(h.tabs.contains_key(id));
        assert(tab_hangs(h, id));
        if id == t.id {
            assert forall|p: u64| #[trigger] t.layout.order().contains(p) implies
                g.panes.contains_key(p) && g.panes[p].tab == id by {
                assert(s.tabs[k].layout.order().contains(p));
            }
        }
    }
    assert forall|id: u64| #[trigger] g.panes.contains_key(id) implies pane_hangs(g, id) by {
        assert(h.panes.contains_key(id));
        assert(pane_hangs(h, id));
        assert(h.tabs.contains_key(h.panes[id].tab));
        if h.panes[id].tab == t.id {
            assert(t.layout.order().contains(id));
        }
    }
}

/// Putting a tab of a space in front of it keeps everything together.
proof fn lemma_tab_in_front(s: SessionView, space: u64, tab: u64)
    requires
        sound(s),
        s.has_space(space),
        shape(s).spaces[space].tabs.contains(tab),
    ensures
        sound(s.with_tab_in_front(space, tab)),
{
    let r = s.with_tab_in_front(space, tab);
    lemma_space(s, space);
    let i = s.space_at(space);
    let sp = SpaceView { focused_tab: Some(tab), ..s.spaces[i] };
    lemma_space_changed(s, r, i, sp);
    lemma_same_front(s, r);
}

/// The space in front is there, where it was.
pub(crate) proof fn lemma_same_front(s: SessionView, r: SessionView)
    requires
        sound(s),
        r.wf(),
        r.focused_space == s.focused_space,
        r.spaces.len() == s.spaces.len(),
        forall|i: int| 0 <= i < s.spaces.len() ==> (#[trigger] r.spaces[i]).id == s.spaces[i].id,
    ensures
        match r.focused_space {
            Some(id) => r.has_space(id),
            None => r.spaces.len() == 0,
        },
{
    if let Some(f) = s.focused_space {
        lemma_space(s, f);
        let i = s.space_at(f);
        assert(r.spaces[i].id == f);
        lemma_distinct(r);
        lemma_keyed(r.spaces, space_key(), i);
        lemma_space(r, f);
    }
}

/// Putting a pane of a tab in front of it keeps everything together.
proof fn lemma_pane_in_front(s: SessionView, tab: u64, pane: u64)
    requires
        sound(s),
        s.has_tab(tab),
        shape(s).tabs[tab].layout.order().contains(pane),
    ensures
        sound(s.with_pane_in_front(tab, pane)),
{
    let r = s.with_pane_in_front(tab, pane);
    lemma_tab(s, tab);
    let k = s.tab_at(tab);
    assert(tab_hangs(shape(s), tab));
    let t = TabView { focused_pane: Some(pane), ..s.tabs[k] };
    lemma_tab_changed(s, r, k, t);
    lemma_same_front(s, r);
}

/// Going to a pane keeps everything together.
pub proof fn law_going_to_a_pane_keeps_it_sound(s: SessionView, pane: u64)
    requires
        sound(s),
    ensures
        sound(pane_focused(s, pane).0),
{
    lemma_pane(s, pane);
    if s.has_pane(pane) {
        let h = shape(s);
        let p = s.panes[s.pane_at(pane)];
        assert(pane_hangs(h, pane));
        assert(tab_hangs(h, p.tab));
        lemma_tab(s, p.tab);
        lemma_space(s, p.space);
        let a = s.with_space_in_front(p.space);
        assert(shape(a) == h);
        assert(a.has_space(p.space));
        lemma_tab_in_front(a, p.space, p.tab);
        let b = a.with_tab_in_front(p.space, p.tab);
        assert(b.tabs == s.tabs);
        lemma_tab(b, p.tab);
        lemma_pane_in_front(b, p.tab, pane);
    }
}

/// Going to a tab keeps everything together.
pub proof fn law_going_to_a_tab_keeps_it_sound(s: SessionView, tab: u64)
    requires
        sound(s),
    ensures
        sound(tab_focused(s, tab).0),
{
    lemma_tab(s, tab);
    if s.has_tab(tab) {
        let h = shape(s);
        let space = s.tabs[s.tab_at(tab)].space;
        assert(tab_hangs(h, tab));
        lemma_space(s, space);
        let a = s.with_space_in_front(space);
        assert(shape(a) == h);
        assert(a.has_space(space));
        lemma_tab_in_front(a, space, tab);
    }
}

/// Going to a space, stepping through spaces and through tabs, and going to a tab by its number
/// keep everything together.
pub proof fn law_stepping_keeps_it_sound(s: SessionView, space: u64, delta: int, index: int)
    requires
        sound(s),
        0 <= index,
    ensures
        sound(space_focused(s, space).0),
        sound(space_cycled(s, delta).0),
        sound(tab_cycled(s, delta).0),
        sound(tab_gone_to(s, index).0),
{
    let h = shape(s);
    let n = s.spaces.len() as int;
    assert(shape(s.with_space_in_front(space)) == h);
    if n > 0 {
        let cur = match s.focused_space {
            Some(id) if s.has_space(id) => s.space_at(id),
            _ => 0,
        };
        let k = (cur + delta) % n;
        let id = s.spaces[k].id;
        assert(shape(s.with_space_in_front(id)) == h);
        lemma_distinct(s);
        lemma_keyed(s.spaces, space_key(), k);
        lemma_space(s, id);
        assert(s.with_space_in_front(id).has_space(id));
    }
    if let Some(id) = s.focused_space {
        lemma_space(s, id);
        let sp = s.spaces[s.space_at(id)];
        let m = sp.tabs.len() as int;
        if m > 0 {
            let at = match sp.focused_tab {
                Some(t) => first_where(sp.tabs, id_is(t)),
                None => m,
            };
            let cur = if at < m {
                at
            } else {
                0
            };
            let k = (cur + delta) % m;
            assert(sp.tabs.contains(sp.tabs[k]));
            lemma_tab_in_front(s, id, sp.tabs[k]);
        }
        if index < m {
            assert(sp.tabs.contains(sp.tabs[index]));
            lemma_tab_in_front(s, id, sp.tabs[index]);
        }
    }
}

/// Moving to a neighbour in the same tab keeps everything together.
pub proof fn law_moving_keeps_it_sound(s: SessionView, next: Option<u64>)
    requires
        sound(s),
        next matches Some(p) ==> s.in_front().contains(p),
    ensures
        sound(moved_to(s, next).0),
{
    if let (Some(t), Some(p)) = (s.front_tab(), next) {
        lemma_tab(s, t);
        if s.has_tab(t) {
            lemma_pane_in_front(s, t, p);
        }
    }
}

/// Renaming a tab keeps everything together.
pub proof fn law_renaming_a_tab_keeps_it_sound(s: SessionView, tab: u64, name: Seq<char>)
    requires
        sound(s),
    ensures
        sound(tab_renamed(s, tab, name).0),
{
    lemma_tab(s, tab);
    let r = tab_renamed(s, tab, name).0;
    if s.has_tab(tab) {
        let k = s.tab_at(tab);
        assert(tab_hangs(shape(s), tab));
        let t = TabView { name, ..s.tabs[k] };
        if r != s {
            lemma_tab_changed(s, r, k, t);
            lemma_same_front(s, r);
        }
    }
}

/// Exchanging two panes keeps everything together.
pub proof fn law_swapping_keeps_it_sound(s: SessionView, bars: Bars, other: Option<u64>)
    requires
        sound(s),
    ensures
        sound(pane_swapped(s, bars, other).0),
{
    let r = pane_swapped(s, bars, other).0;
    if let (Some(t), Some(from), Some(o)) = (s.front_tab(), s.front_pane(), other) {
        lemma_tab(s, t);
        if s.has_tab(t) {
            let k = s.tab_at(t);
            let old = s.tabs[k];
            let order = old.layout.order();
            if order.contains(from) && order.contains(o) {
                assert(tab_hangs(shape(s), t));
                let tree = old.layout.tree->Some_0;
                law_swapping_exchanges_two_places(tree, from, o);
                let new = tree.swapped(from, o).leaves();
                assert(order == tree.leaves());
                assert(new.no_duplicates());
                assert forall|p: u64| #[trigger] new.contains(p) == order.contains(p) by {
                    let q = if p == from {
                        o
                    } else if p == o {
                        from
                    } else {
                        p
                    };
                    if new.contains(p) {
                        let i = choose|i: int| 0 <= i < new.len() && new[i] == p;
                        assert(order[i] == q);
                        assert(order.contains(q));
                    }
                    if order.contains(p) {
                        assert(order.contains(q));
                        let i = choose|i: int| 0 <= i < order.len() && order[i] == q;
                        assert(new[i] == p);
                    }
                }
                let l = Layout { tree: Some(tree.swapped(from, o)) };
                let now = TabView { layout: l, ..old };
                lemma_tab_changed(s, r, k, now);
                lemma_same_front(s, r);
            }
        }
    }
}

/// Moving the dividers of a tab keeps everything together, as long as it keeps its panes.
pub proof fn law_resizing_keeps_it_sound(s: SessionView, bars: Bars, changed: Option<Layout>)
    requires
        sound(s),
        changed matches Some(l) ==> l.tree is Some && l.order() == s.in_front(),
    ensures
        sound(pane_resized(s, bars, changed).0),
{
    let r = pane_resized(s, bars, changed).0;
    if let (Some(t), Some(_), Some(l)) = (s.front_tab(), s.front_pane(), changed) {
        lemma_tab(s, t);
        if s.has_tab(t) {
            let k = s.tab_at(t);
            assert(tab_hangs(shape(s), t));
            lemma_tab_changed(s, r, k, TabView { layout: l, ..s.tabs[k] });
            lemma_same_front(s, r);
        }
    }
}

// -- new spaces and panes ----------------------------------------------------

/// Some number makes a free name.
proof fn lemma_some_name_is_free(ss: Seq<SpaceView>, base: Seq<char>, n: nat)
    requires
        2 <= n <= ss.len() + 2,
        forall|m: nat| 2 <= m < n ==> taken(ss, #[trigger] numbered(base, m)),
    ensures
        exists|k: nat| #[trigger] first_free(ss, base, k),
    decreases ss.len() + 2 - n,
{
    if !taken(ss, numbered(base, n)) {
        assert(first_free(ss, base, n));
    } else {
        assert(forall|m: nat| 2 <= m < n + 1 ==> taken(ss, #[trigger] numbered(base, m)));
        lemma_taken_bound(ss, base, (n - 1) as nat);
        lemma_some_name_is_free(ss, base, n + 1);
    }
}

pub(crate) proof fn lemma_new_name(ss: Seq<SpaceView>, base: Seq<char>)
    ensures
        !taken(ss, unique_name(ss, base)),
{
    if !taken(ss, base) {
        lemma_unique_name(ss, base, base);
    } else {
        lemma_some_name_is_free(ss, base, 2);
        let k = choose|k: nat| #[trigger] first_free(ss, base, k);
        assert(is_unique_name(ss, base, numbered(base, k)));
        lemma_unique_name(ss, base, numbered(base, k));
    }
}

/// Making a space keeps everything together.
pub proof fn law_a_new_space_keeps_it_sound(
    s: SessionView,
    bars: Bars,
    shell: Seq<char>,
    name: Option<Seq<char>>,
    cwd: Seq<char>,
)
    requires
        sound(s),
        s.has_ids(),
        s.has_space_ids(),
    ensures
        sound(with_space(s, bars, shell, name, cwd)),
{
    let e = with_empty_space(s, name, cwd);
    lemma_new_name(s.spaces, base_name(s.next_space, name, cwd));
    assert forall|i: int, j: int| 0 <= i < j < e.spaces.len() implies (#[trigger] e.spaces[i]).name
        != (#[trigger] e.spaces[j]).name by {
        if j == s.spaces.len() {
            assert(e.spaces[i].name == s.spaces[i].name);
        }
    }
    assert(e.wf());
    lemma_empty_space(s, name, cwd);
    law_a_new_tab_keeps_it_sound(e, bars, shell, s.next_space, None);
}

proof fn lemma_hangs_new_pane(h: Shape, t: TabView, p: PaneView)
    requires
        hangs(h),
        h.tabs.contains_key(t.id),
        !h.panes.contains_key(p.id),
        t.space == h.tabs[t.id].space,
        t.layout.tree is Some,
        t.layout.order().no_duplicates(),
        forall|x: u64|
            #[trigger]
            t.layout.order().contains(x) == (x == p.id || h.tabs[t.id].layout.order().contains(x)),
        t.focused_pane == Some(p.id),
        p.tab == t.id,
        p.space == t.space,
    ensures
        hangs(Shape { tabs: h.tabs.insert(t.id, t), panes: h.panes.insert(p.id, p), ..h }),
{
    let g = Shape { tabs: h.tabs.insert(t.id, t), panes: h.panes.insert(p.id, p), ..h };
    let old = h.tabs[t.id];
    assert(tab_hangs(h, t.id));
    assert forall|id: u64| #[trigger] g.spaces.contains_key(id) implies space_hangs(g, id) by {
        assert(h.spaces.contains_key(id));
        assert(space_hangs(h, id));
        let sp = h.spaces[id];
        assert forall|x: u64| #[trigger] sp.tabs.contains(x) implies g.tabs.contains_key(x)
            && g.tabs[x].space == id by {
            assert(h.tabs.contains_key(x));
        }
    }
    assert forall|id: u64| #[trigger] g.tabs.contains_key(id) implies tab_hangs(g, id) by {
        assert(h.tabs.contains_key(id));
        assert(tab_hangs(h, id));
        let o = h.tabs[id];
        if id == t.id {
            assert forall|x: u64| #[trigger] t.layout.order().contains(x) implies
                g.panes.contains_key(x) && g.panes[x].tab == id by {
                if x != p.id {
                    assert(old.layout.order().contains(x));
                }
            }
            assert(t.layout.order().contains(p.id));
        } else {
            assert forall|x: u64| #[trigger] o.layout.order().contains(x) implies
                g.panes.contains_key(x) && g.panes[x].tab == id by {
                assert(h.panes.contains_key(x));
            }
        }
    }
    assert forall|id: u64| #[trigger] g.panes.contains_key(id) implies pane_hangs(g, id) by {
        if id == p.id {
            assert(t.layout.order().contains(p.id));
        } else {
            assert(h.panes.contains_key(id));
            assert(pane_hangs(h, id));
            assert(h.tabs.contains_key(h.panes[id].tab));
            if h.panes[id].tab == t.id {
                assert(t.layout.order().contains(id));
            }
        }
    }
}

/// Splitting a pane keeps everything together.
pub proof fn law_splitting_keeps_it_sound(
    s: SessionView,
    bars: Bars,
    shell: Seq<char>,
    target: Option<u64>,
    dir: Dir,
    cmd: Option<Seq<char>>,
    cwd: Option<Seq<char>>,
    fits: bool,
)
    requires
        sound(s),
        s.has_ids(),
    ensures
        sound(splitting_in(s, bars, shell, target, dir, cmd, cwd, fits).0),
{
    let r = splitting_in(s, bars, shell, target, dir, cmd, cwd, fits).0;
    let t = if target is Some {
        target
    } else {
        s.front_pane()
    };
    let u = unzoomed(s, bars);
    assert(u.spaces == s.spaces && u.tabs == s.tabs && u.panes == s.panes);
    assert(shape(u) == shape(s));
    if let Some(f) = s.focused_space {
        assert(u.has_space(f) == s.has_space(f));
    }
    assert(sound(u));
    if let Some(t) = t {
        lemma_pane(s, t);
        if s.has_pane(t) {
            let p = s.panes[s.pane_at(t)];
            let h = shape(s);
            assert(pane_hangs(h, t));
            lemma_tab(s, p.tab);
            let k = s.tab_at(p.tab);
            if fits {
                let new = s.next_pane;
                let old = s.tabs[k];
                assert(tab_hangs(h, p.tab));
                let tree = old.layout.tree->Some_0;
                let order = tree.leaves();
                let i = choose|i: int| 0 <= i < order.len() && order[i] == t;
                law_a_new_pane_stands_beside_its_neighbour(tree, t, dir, new, i);
                lemma_new_ids(s);
                let at = if dir == Dir::Left || dir == Dir::Up {
                    i
                } else {
                    i + 1
                };
                let after = order.insert(at, new);
                assert(!order.contains(new));
                lemma_inserted(order, at, new);
                let tab = TabView {
                    layout: Layout { tree: Some(tree.divided(t, dir, new)) },
                    focused_pane: Some(new),
                    ..old
                };
                let pane = r.panes.last();
                assert(r.panes =~= s.panes.push(pane));
                assert(r.tabs =~= s.tabs.update(k, tab));
                lemma_distinct(s);
                lemma_keyed_push(s.panes, pane_key(), pane);
                lemma_keyed_update(s.tabs, tab_key(), k, tab);
                lemma_hangs_new_pane(h, tab, pane);
                assert(shape(r) == (Shape {
                    tabs: h.tabs.insert(tab.id, tab),
                    panes: h.panes.insert(pane.id, pane),
                    ..h
                }));
                assert(r.wf());
                lemma_same_front(s, r);
            }
        }
    }
}

proof fn lemma_inserted(order: Seq<u64>, at: int, new: u64)
    requires
        order.no_duplicates(),
        !order.contains(new),
        0 <= at <= order.len(),
    ensures
        order.insert(at, new).no_duplicates(),
        forall|x: u64|
            #[trigger]
            order.insert(at, new).contains(x) == (x == new || order.contains(x)),
{
    let after = order.insert(at, new);
    assert forall|a: int, b: int| 0 <= a < after.len() && 0 <= b < after.len() && a != b implies
        after[a] != after[b] by {
        let x = if a < at { a } else { a - 1 };
        let y = if b < at { b } else { b - 1 };
        if a != at {
            assert(after[a] == order[x]);
        }
        if b != at {
            assert(after[b] == order[y]);
        }
    }
    assert forall|x: u64| #[trigger] after.contains(x) == (x == new || order.contains(x)) by {
        assert(after[at] == new);
        if after.contains(x) && x != new {
            let a = choose|a: int| 0 <= a < after.len() && after[a] == x;
            let y = if a < at { a } else { a - 1 };
            assert(order[y] == x);
        }
        if order.contains(x) {
            let a = choose|a: int| 0 <= a < order.len() && order[a] == x;
            let y = if a < at { a } else { a + 1 };
            assert(after[y] == x);
        }
    }
}

// -- closing things ----------------------------------------------------------

/// What is left of things by id without some of them.
pub(crate) open spec fn less<A>(m: Map<u64, A>, ids: Seq<u64>) -> Map<u64, A> {
    Map::new(|k: u64| m.contains_key(k) && !ids.contains(k), |k: u64| m[k])
}

pub(crate) proof fn lemma_killed(s: SessionView, pane: u64)
    requires
        s.wf(),
    ensures
        killed(s, pane).wf(),
        shape(killed(s, pane)) == (Shape { panes: shape(s).panes.remove(pane), ..shape(s) }),
{
    lemma_pane(s, pane);
    let r = killed(s, pane);
    if s.has_pane(pane) {
        let i = s.pane_at(pane);
        lemma_distinct(s);
        lemma_keyed_remove(s.panes, pane_key(), i);
        lemma_wf_without_pane(s, i, r.effects);
    } else {
        assert(shape(s).panes.remove(pane) =~= shape(s).panes);
    }
}

proof fn lemma_killed_all(s: SessionView, ps: Seq<u64>, n: int)
    requires
        s.wf(),
        0 <= n <= ps.len(),
    ensures
        killed_all(s, ps, n).wf(),
        shape(killed_all(s, ps, n)) == (Shape {
            panes: less(shape(s).panes, ps.take(n)),
            ..shape(s)
        }),
    decreases n,
{
    if n <= 0 {
        assert(less(shape(s).panes, ps.take(0)) =~= shape(s).panes);
    } else {
        lemma_killed_all(s, ps, n - 1);
        let b = killed_all(s, ps, n - 1);
        lemma_killed(b, ps[n - 1]);
        let m = shape(s).panes;
        assert(less(m, ps.take(n - 1)).remove(ps[n - 1]) =~= less(m, ps.take(n))) by {
            let a = ps.take(n);
            let c = ps.take(n - 1);
            assert forall|k: u64| #[trigger] a.contains(k) == (k == ps[n - 1] || c.contains(k)) by {
                if a.contains(k) && k != ps[n - 1] {
                    let i = choose|i: int| 0 <= i < a.len() && a[i] == k;
                    assert(c[i] == k);
                }
                if c.contains(k) {
                    let i = choose|i: int| 0 <= i < c.len() && c[i] == k;
                    assert(a[i] == k);
                }
                assert(a[n - 1] == ps[n - 1]);
            }
        }
    }
}

proof fn lemma_tab_dropped(s: SessionView, tab: u64)
    requires
        s.wf(),
        s.has_tab(tab),
    ensures
        tab_dropped(s, tab).wf(),
        shape(tab_dropped(s, tab)) == (Shape {
            tabs: shape(s).tabs.remove(tab),
            panes: less(shape(s).panes, shape(s).tabs[tab].layout.order()),
            ..shape(s)
        }),
{
    lemma_tab(s, tab);
    let k = s.tab_at(tab);
    let order = s.tabs[k].layout.order();
    lemma_killed_all(s, order, order.len() as int);
    assert(order.take(order.len() as int) =~= order);
    let b = killed_all(s, order, order.len() as int);
    lemma_killed_all_keeps(s, order, order.len() as int);
    lemma_wf_without_tab(b, k);
    lemma_distinct(s);
    lemma_keyed_remove(s.tabs, tab_key(), k);
}

pub(crate) proof fn lemma_left_out(ids: Seq<u64>, x: u64)
    ensures
        forall|k: u64| #[trigger] leaving_out(ids, x).contains(k) == (k != x && ids.contains(k)),
        ids.no_duplicates() ==> leaving_out(ids, x).no_duplicates(),
        ids.no_duplicates() && ids.contains(x) ==> leaving_out(ids, x).len() == ids.len() - 1,
        !ids.contains(x) ==> leaving_out(ids, x) == ids,
    decreases ids.len(),
{
    if ids.len() > 0 {
        let t = ids.drop_last();
        let l = ids.last();
        lemma_left_out(t, x);
        let a = leaving_out(t, x);
        let r = leaving_out(ids, x);
        assert(ids =~= t.push(l));
        assert forall|k: u64| #[trigger] r.contains(k) == (k != x && ids.contains(k)) by {
            assert(ids[ids.len() - 1] == l);
            if ids.contains(k) && k != l {
                let i = choose|i: int| 0 <= i < ids.len() && ids[i] == k;
                assert(t[i] == k);
            }
            if t.contains(k) {
                let i = choose|i: int| 0 <= i < t.len() && t[i] == k;
                assert(ids[i] == k);
            }
            if l != x {
                assert(r[a.len() as int] == l);
                if r.contains(k) && k != l {
                    let i = choose|i: int| 0 <= i < r.len() && r[i] == k;
                    assert(a[i] == k);
                    assert(a.contains(k));
                }
                if a.contains(k) {
                    let i = choose|i: int| 0 <= i < a.len() && a[i] == k;
                    assert(r[i] == k);
                }
            } else {
                assert(r == a);
                assert(a.contains(k) == (k != x && t.contains(k)));
            }
        }
        if ids.no_duplicates() {
            assert(t.no_duplicates());
            assert(!t.contains(l)) by {
                if t.contains(l) {
                    let i = choose|i: int| 0 <= i < t.len() && t[i] == l;
                    assert(ids[i] == ids[ids.len() - 1]);
                }
            }
            if l != x {
                assert(!a.contains(l));
                assert(r.no_duplicates());
                if ids.contains(x) {
                    let i = choose|i: int| 0 <= i < ids.len() && ids[i] == x;
                    assert(t[i] == x);
                }
            }
        }
        if !ids.contains(x) {
            assert(ids[ids.len() - 1] == l);
            assert(!t.contains(x)) by {
                if t.contains(x) {
                    let i = choose|i: int| 0 <= i < t.len() && t[i] == x;
                    assert(ids[i] == x);
                }
            }
        }
    }
}

/// A space that lost a tab has another in front, unless it has none.
proof fn lemma_space_without(h: Shape, space: u64, tab: u64)
    requires
        space_hangs(h, space),
        h.spaces[space].tabs.contains(tab),
    ensures
        ({
            let sp = space_without_tab(h.spaces[space], tab);
            &&& sp.id == space
            &&& sp.tabs == leaving_out(h.spaces[space].tabs, tab)
            &&& match sp.focused_tab {
                Some(t) => sp.tabs.contains(t),
                None => sp.tabs.len() == 0,
            }
        }),
{
    let old = h.spaces[space];
    let sp = space_without_tab(old, tab);
    let at = first_where(old.tabs, id_is(tab));
    lemma_first_where(old.tabs, id_is(tab));
    let i = choose|i: int| 0 <= i < old.tabs.len() && old.tabs[i] == tab;
    if at == old.tabs.len() {
        assert(!id_is(tab)(old.tabs[i]));
    }
    lemma_left_out(old.tabs, tab);
    if old.focused_tab == Some(tab) {
        if at < sp.tabs.len() {
            assert(sp.tabs.contains(sp.tabs[at]));
        } else if sp.tabs.len() > 0 {
            assert(sp.tabs.contains(sp.tabs[at - 1]));
        }
    }
}

/// A tab and its panes gone, and its space without it.
spec fn without_tab(h: Shape, tab: u64) -> Shape {
    let t = h.tabs[tab];
    Shape {
        spaces: h.spaces.insert(t.space, space_without_tab(h.spaces[t.space], tab)),
        tabs: h.tabs.remove(tab),
        panes: less(h.panes, t.layout.order()),
    }
}

proof fn lemma_hangs_without_tab(h: Shape, tab: u64)
    requires
        hangs(h),
        h.tabs.contains_key(tab),
    ensures
        hangs(without_tab(h, tab)),
{
    let t = h.tabs[tab];
    let g = without_tab(h, tab);
    let order = t.layout.order();
    assert(tab_hangs(h, tab));
    assert(space_hangs(h, t.space));
    lemma_space_without(h, t.space, tab);
    let old = h.spaces[t.space];
    let sp = g.spaces[t.space];
    lemma_left_out(old.tabs, tab);
    assert forall|id: u64| #[trigger] g.spaces.contains_key(id) implies space_hangs(g, id) by {
        assert(h.spaces.contains_key(id));
        assert(space_hangs(h, id));
        assert forall|x: u64| #[trigger] g.spaces[id].tabs.contains(x) implies
            g.tabs.contains_key(x) && g.tabs[x].space == id by {
            assert(h.spaces[id].tabs.contains(x));
        }
    }
    assert forall|id: u64| #[trigger] g.tabs.contains_key(id) implies tab_hangs(g, id) by {
        assert(h.tabs.contains_key(id));
        assert(tab_hangs(h, id));
        let o = h.tabs[id];
        if o.space == t.space {
            assert(sp.tabs.contains(id));
        }
        assert forall|x: u64| #[trigger] o.layout.order().contains(x) implies
            g.panes.contains_key(x) && g.panes[x].tab == id by {
            assert(h.panes[x].tab == id);
        }
    }
    assert forall|id: u64| #[trigger] g.panes.contains_key(id) implies pane_hangs(g, id) by {
        assert(h.panes.contains_key(id));
        assert(pane_hangs(h, id));
    }
}

/// A space with no tabs gone.
proof fn lemma_hangs_without_space(h: Shape, space: u64)
    requires
        hangs(h),
        h.spaces.contains_key(space),
        h.spaces[space].tabs.len() == 0,
    ensures
        hangs(Shape { spaces: h.spaces.remove(space), ..h }),
{
    let g = Shape { spaces: h.spaces.remove(space), ..h };
    assert forall|id: u64| #[trigger] g.spaces.contains_key(id) implies space_hangs(g, id) by {
        assert(h.spaces.contains_key(id));
        assert(space_hangs(h, id));
    }
    assert forall|id: u64| #[trigger] g.tabs.contains_key(id) implies tab_hangs(g, id) by {
        assert(h.tabs.contains_key(id));
        assert(tab_hangs(h, id));
    }
    assert forall|id: u64| #[trigger] g.panes.contains_key(id) implies pane_hangs(g, id) by {
        assert(h.panes.contains_key(id));
        assert(pane_hangs(h, id));
    }
}

/// With a space gone, another is in front unless there is none.
proof fn lemma_front_after(s: SessionView, r: SessionView, space: u64)
    requires
        s.wf(),
        r.wf(),
        s.has_space(space),
        match s.focused_space {
            Some(id) => s.has_space(id),
            None => s.spaces.len() == 0,
        },
        r.spaces == s.spaces.remove(s.space_at(space)),
        r.focused_space == (if s.focused_space == Some(space) {
            heir(space_ids(r.spaces), s.space_at(space))
        } else {
            s.focused_space
        }),
    ensures
        match r.focused_space {
            Some(id) => r.has_space(id),
            None => r.spaces.len() == 0,
        },
{
    lemma_space(s, space);
    let i = s.space_at(space);
    s.spaces.remove_ensures(i);
    lemma_distinct(s);
    lemma_distinct(r);
    lemma_keyed_remove(s.spaces, space_key(), i);
    if s.focused_space == Some(space) {
        if r.spaces.len() > 0 {
            let j = if i < r.spaces.len() { i } else { i - 1 };
            lemma_keyed(r.spaces, space_key(), j);
            lemma_space(r, r.spaces[j].id);
        }
    } else if let Some(f) = s.focused_space {
        lemma_space(s, f);
        lemma_space(r, f);
    }
}

/// Closing a tab, in a session that hangs together but for what is in the tab.
proof fn lemma_tab_closed(s: SessionView, bars: Bars, tab: u64, h: Shape)
    requires
        s.wf(),
        s.has_tab(tab),
        match s.focused_space {
            Some(id) => s.has_space(id),
            None => s.spaces.len() == 0,
        },
        hangs(h),
        h.tabs.contains_key(tab),
        shape(s).spaces == h.spaces,
        shape(s).tabs.remove(tab) == h.tabs.remove(tab),
        shape(s).tabs[tab].space == h.tabs[tab].space,
        less(shape(s).panes, shape(s).tabs[tab].layout.order()) == less(
            h.panes,
            h.tabs[tab].layout.order(),
        ),
    ensures
        sound(tab_closed(s, bars, tab)),
{
    lemma_tab(s, tab);
    let space = h.tabs[tab].space;
    assert(tab_hangs(h, tab));
    assert(space_hangs(h, space));
    lemma_tab_dropped(s, tab);
    let t = tab_dropped(s, tab);
    let order = s.tabs[s.tab_at(tab)].layout.order();
    lemma_killed_all_keeps(s, order, order.len() as int);
    assert(t.spaces == s.spaces && t.focused_space == s.focused_space);
    lemma_space(t, space);
    lemma_space(s, space);
    let i = t.space_at(space);
    let sp = space_without_tab(t.spaces[i], tab);
    lemma_space_without(h, space, tab);
    lemma_left_out(h.spaces[space].tabs, tab);
    let u = SessionView { spaces: t.spaces.update(i, sp), ..t };
    lemma_distinct(t);
    lemma_keyed_update(t.spaces, space_key(), i, sp);
    lemma_leaving_out_shorter(t.spaces[i].tabs, tab);
    assert(u.wf());
    assert(shape(u) == without_tab(h, tab));
    lemma_hangs_without_tab(h, tab);
    assert forall|f: u64| s.has_space(f) implies u.has_space(f) by {
        lemma_space(s, f);
        lemma_space(u, f);
    }
    let r = tab_closed(s, bars, tab);
    if sp.tabs.len() == 0 {
        lemma_space(u, space);
        lemma_hangs_without_space(shape(u), space);
        let v = tabs_dropped(u, sp.tabs, 0);
        let j = u.space_at(space);
        lemma_distinct(u);
        lemma_keyed_remove(u.spaces, space_key(), j);
        lemma_wf_without_space(u, j, r.focused_space);
        assert(r.wf());
        lemma_front_after(u, r, space);
        assert(shape(r) == (Shape { spaces: shape(u).spaces.remove(space), ..shape(u) }));
    } else {
        assert(shape(r) == shape(u));
        assert(r.wf());
        if let Some(f) = s.focused_space {
            assert(u.has_space(f));
        }
    }
}

/// Closing a tab keeps everything together.
pub proof fn law_closing_a_tab_keeps_it_sound(s: SessionView, bars: Bars, tab: u64)
    requires
        sound(s),
    ensures
        sound(tab_closed(s, bars, tab)),
{
    lemma_tab(s, tab);
    if s.has_tab(tab) {
        lemma_tab_closed(s, bars, tab, shape(s));
    }
}

proof fn lemma_hangs_without_pane(h: Shape, pane: u64, t: TabView)
    requires
        hangs(h),
        h.panes.contains_key(pane),
        h.panes[pane].tab == t.id,
        t.space == h.tabs[t.id].space,
        t.layout.tree is Some,
        t.layout.order() == leaving_out(h.tabs[t.id].layout.order(), pane),
        t.focused_pane matches Some(p) ==> t.layout.order().contains(p),
    ensures
        hangs(Shape { tabs: h.tabs.insert(t.id, t), panes: h.panes.remove(pane), ..h }),
{
    let g = Shape { tabs: h.tabs.insert(t.id, t), panes: h.panes.remove(pane), ..h };
    assert(pane_hangs(h, pane));
    assert(tab_hangs(h, t.id));
    let old = h.tabs[t.id].layout.order();
    lemma_left_out(old, pane);
    assert forall|id: u64| #[trigger] g.spaces.contains_key(id) implies space_hangs(g, id) by {
        assert(h.spaces.contains_key(id));
        assert(space_hangs(h, id));
        let sp = h.spaces[id];
        assert forall|x: u64| #[trigger] sp.tabs.contains(x) implies g.tabs.contains_key(x)
            && g.tabs[x].space == id by {
            assert(h.tabs.contains_key(x));
        }
    }
    assert forall|id: u64| #[trigger] g.tabs.contains_key(id) implies tab_hangs(g, id) by {
        assert(h.tabs.contains_key(id));
        assert(tab_hangs(h, id));
        assert forall|x: u64| #[trigger] g.tabs[id].layout.order().contains(x) implies
            g.panes.contains_key(x) && g.panes[x].tab == id by {
            assert(h.tabs[id].layout.order().contains(x));
        }
    }
    assert forall|id: u64| #[trigger] g.panes.contains_key(id) implies pane_hangs(g, id) by {
        assert(h.panes.contains_key(id));
        assert(pane_hangs(h, id));
        assert(h.tabs.contains_key(h.panes[id].tab));
        if h.panes[id].tab == t.id {
            assert(t.layout.order().contains(id));
        }
    }
}

/// A tab that lost a pane has another in front where it had that one in front.
spec fn tab_without(t: TabView, pane: u64) -> TabView {
    let layout = Layout {
        tree: match t.layout.tree {
            Some(n) => n.without(pane),
            None => None,
        },
    };
    let front = if t.focused_pane == Some(pane) {
        if layout.order().len() > 0 {
            Some(layout.order()[0])
        } else {
            None
        }
    } else {
        t.focused_pane
    };
    TabView { layout, focused_pane: front, ..t }
}

proof fn lemma_tab_without(h: Shape, tab: u64, pane: u64)
    requires
        tab_hangs(h, tab),
    ensures
        ({
            let t = h.tabs[tab];
            let new = tab_without(t, pane);
            &&& new.id == t.id
            &&& new.space == t.space
            &&& new.layout.order() == leaving_out(t.layout.order(), pane)
            &&& new.layout.tree is None ==> new.layout.order().len() == 0
            &&& new.focused_pane matches Some(p) ==> new.layout.order().contains(p)
        }),
{
    let t = h.tabs[tab];
    let n = t.layout.tree->Some_0;
    law_closing_keeps_the_others_in_order(n, pane);
    lemma_left_out(n.leaves(), pane);
    let order = tab_without(t, pane).layout.order();
    if order.len() > 0 {
        assert(order.contains(order[0]));
    }
}

/// A session in which a pane is gone and its tab is without it.
spec fn pane_out(s: SessionView, pane: u64) -> SessionView {
    let tab = s.panes[s.pane_at(pane)].tab;
    let t = SessionView {
        view: if s.view.zoom == Some(pane) {
            ViewState { zoom: None, ..s.view }
        } else {
            s.view
        },
        ..killed(s, pane)
    };
    let k = t.tab_at(tab);
    SessionView { tabs: t.tabs.update(k, tab_without(t.tabs[k], pane)), ..t }
}

proof fn lemma_pane_out(s: SessionView, pane: u64)
    requires
        sound(s),
        s.has_pane(pane),
    ensures
        ({
            let u = pane_out(s, pane);
            let h = shape(s);
            let tab = h.panes[pane].tab;
            &&& u.wf()
            &&& u.has_tab(tab)
            &&& u.spaces == s.spaces
            &&& u.focused_space == s.focused_space
            &&& shape(u) == (Shape {
                tabs: h.tabs.insert(tab, tab_without(h.tabs[tab], pane)),
                panes: h.panes.remove(pane),
                ..h
            })
        }),
{
    lemma_pane(s, pane);
    let h = shape(s);
    let tab = s.panes[s.pane_at(pane)].tab;
    assert(pane_hangs(h, pane));
    assert(tab_hangs(h, tab));
    lemma_killed(s, pane);
    let t = SessionView {
        view: if s.view.zoom == Some(pane) {
            ViewState { zoom: None, ..s.view }
        } else {
            s.view
        },
        ..killed(s, pane)
    };
    assert(t.wf());
    assert(shape(t) == shape(killed(s, pane)));
    lemma_tab(t, tab);
    let k = t.tab_at(tab);
    let u = pane_out(s, pane);
    lemma_tab_without(h, tab, pane);
    lemma_distinct(t);
    lemma_keyed_update(t.tabs, tab_key(), k, tab_without(t.tabs[k], pane));
    assert(u.wf());
    lemma_tab(u, tab);
}

/// Closing a pane keeps everything together.
pub proof fn law_closing_a_pane_keeps_it_sound(s: SessionView, bars: Bars, pane: u64)
    requires
        sound(s),
    ensures
        sound(pane_closed(s, bars, pane)),
{
    lemma_pane(s, pane);
    if s.has_pane(pane) {
        lemma_pane_out(s, pane);
        let h = shape(s);
        let tab = h.panes[pane].tab;
        let u = pane_out(s, pane);
        assert(pane_hangs(h, pane));
        assert(tab_hangs(h, tab));
        lemma_tab_without(h, tab, pane);
        lemma_killed(s, pane);
        lemma_tab(killed(s, pane), tab);
        let new = tab_without(h.tabs[tab], pane);
        let r = pane_closed(s, bars, pane);
        if let Some(f) = s.focused_space {
            assert(u.has_space(f) == s.has_space(f));
        }
        if new.layout.tree is None {
            lemma_last_pane(u, h, tab, pane);
            lemma_tab_closed(u, bars, tab, h);
            let v = tab_closed(u, bars, tab);
            assert(r == v.laid_out(bars));
            lemma_laid_out(v, bars);
        } else {
            lemma_hangs_without_pane(h, pane, new);
            assert(r == u.laid_out(bars));
            assert(sound(u));
            lemma_laid_out(u, bars);
        }
    }
}

/// Where things are drawn is nothing to how they hang together.
pub(crate) proof fn lemma_laid_out(s: SessionView, bars: Bars)
    requires
        sound(s),
    ensures
        sound(s.laid_out(bars)),
{
    let r = s.laid_out(bars);
    assert(shape(r) == shape(s));
    if let Some(f) = s.focused_space {
        assert(r.has_space(f) == s.has_space(f));
    }
}

/// With its only pane gone, what is left of a tab is what closing it takes away.
proof fn lemma_last_pane(u: SessionView, h: Shape, tab: u64, pane: u64)
    requires
        u.wf(),
        hangs(h),
        h.panes.contains_key(pane),
        h.panes[pane].tab == tab,
        tab_without(h.tabs[tab], pane).layout.tree is None,
        shape(u) == (Shape {
            tabs: h.tabs.insert(tab, tab_without(h.tabs[tab], pane)),
            panes: h.panes.remove(pane),
            ..h
        }),
    ensures
        shape(u).tabs.remove(tab) == h.tabs.remove(tab),
        less(shape(u).panes, shape(u).tabs[tab].layout.order()) == less(
            h.panes,
            h.tabs[tab].layout.order(),
        ),
{
    assert(pane_hangs(h, pane));
    assert(tab_hangs(h, tab));
    lemma_tab_without(h, tab, pane);
    assert(shape(u).tabs.remove(tab) =~= h.tabs.remove(tab));
    let theirs = h.tabs[tab].layout.order();
    let order = shape(u).tabs[tab].layout.order();
    lemma_left_out(theirs, pane);
    assert forall|x: u64| #[trigger] theirs.contains(x) == (x == pane) by {
        assert(!order.contains(x));
        assert(leaving_out(theirs, pane).contains(x) == (x != pane && theirs.contains(x)));
    }
    assert(less(shape(u).panes, order) =~= less(h.panes, theirs));
}

/// Closing several panes keeps everything together.
pub proof fn law_closing_panes_keeps_it_sound(s: SessionView, bars: Bars, panes: Seq<u64>, n: int)
    requires
        sound(s),
        0 <= n <= panes.len(),
    ensures
        sound(panes_closed(s, bars, panes, n)),
    decreases n,
{
    if n > 0 {
        law_closing_panes_keeps_it_sound(s, bars, panes, n - 1);
        law_closing_a_pane_keeps_it_sound(
            panes_closed(s, bars, panes, n - 1),
            bars,
            panes[n - 1],
        );
    }
}

/// Several tabs and their panes gone.
spec fn without_tabs(h: Shape, tabs: Seq<u64>) -> Shape {
    Shape {
        tabs: less(h.tabs, tabs),
        panes: Map::new(
            |k: u64| h.panes.contains_key(k) && !tabs.contains(h.panes[k].tab),
            |k: u64| h.panes[k],
        ),
        ..h
    }
}

proof fn lemma_tabs_dropped(s: SessionView, tabs: Seq<u64>, n: int)
    requires
        s.wf(),
        hangs(shape(s)),
        tabs.no_duplicates(),
        forall|i: int| 0 <= i < tabs.len() ==> shape(s).tabs.contains_key(#[trigger] tabs[i]),
        0 <= n <= tabs.len(),
    ensures
        tabs_dropped(s, tabs, n).wf(),
        shape(tabs_dropped(s, tabs, n)) == without_tabs(shape(s), tabs.take(n)),
    decreases n,
{
    let h = shape(s);
    if n <= 0 {
        let none = tabs.take(0);
        assert(without_tabs(h, none).tabs =~= h.tabs);
        assert(without_tabs(h, none).panes =~= h.panes);
    } else {
        lemma_tabs_dropped(s, tabs, n - 1);
        let b = tabs_dropped(s, tabs, n - 1);
        let id = tabs[n - 1];
        let a = tabs.take(n);
        let c = tabs.take(n - 1);
        assert(!c.contains(id)) by {
            if c.contains(id) {
                let i = choose|i: int| 0 <= i < c.len() && c[i] == id;
                assert(tabs[i] == tabs[n - 1]);
            }
        }
        assert(h.tabs.contains_key(id));
        lemma_tab(b, id);
        lemma_tab_dropped(b, id);
        assert(tab_hangs(h, id));
        assert forall|k: u64| #[trigger] a.contains(k) == (k == id || c.contains(k)) by {
            if a.contains(k) && k != id {
                let i = choose|i: int| 0 <= i < a.len() && a[i] == k;
                assert(c[i] == k);
            }
            if c.contains(k) {
                let i = choose|i: int| 0 <= i < c.len() && c[i] == k;
                assert(a[i] == k);
            }
            assert(a[n - 1] == id);
        }
        let g = without_tabs(h, a);
        let before = without_tabs(h, c);
        assert(before.tabs.remove(id) =~= g.tabs);
        let order = h.tabs[id].layout.order();
        assert(less(before.panes, order) =~= g.panes) by {
            assert forall|k: u64| h.panes.contains_key(k) implies order.contains(k) == (
            h.panes[k].tab == id) by {
                assert(pane_hangs(h, k));
            }
        }
    }
}

/// Closing a space keeps everything together.
pub proof fn law_closing_a_space_keeps_it_sound(s: SessionView, bars: Bars, space: u64)
    requires
        sound(s),
    ensures
        sound(space_closed(s, bars, space)),
{
    lemma_space(s, space);
    let r = space_closed(s, bars, space);
    let h = shape(s);
    if s.has_space(space) {
        let i = s.space_at(space);
        let tabs = s.spaces[i].tabs;
        let n = tabs.len() as int;
        assert(space_hangs(h, space));
        assert forall|j: int| 0 <= j < n implies h.tabs.contains_key(#[trigger] tabs[j]) by {
            assert(tabs.contains(tabs[j]));
        }
        lemma_tabs_dropped(s, tabs, n);
        lemma_tabs_dropped_keeps(s, tabs, n);
        assert(tabs.take(n) =~= tabs);
        let t = tabs_dropped(s, tabs, n);
        lemma_distinct(t);
        lemma_keyed_remove(t.spaces, space_key(), i);
        lemma_wf_without_space(t, i, r.focused_space);
        assert(r.wf());
        assert(t.space_at(space) == i);
        lemma_front_after(
            s,
            SessionView { focused_space: r.focused_space, spaces: r.spaces, ..r },
            space,
        );
        let d = without_tabs(h, tabs);
        let g = shape(r);
        assert(g == (Shape { spaces: h.spaces.remove(space), ..d }));
        assert forall|id: u64| #[trigger] g.spaces.contains_key(id) implies space_hangs(g, id) by {
            assert(h.spaces.contains_key(id));
            assert(space_hangs(h, id));
            let sp = h.spaces[id];
            assert forall|x: u64| #[trigger] sp.tabs.contains(x) implies g.tabs.contains_key(x)
                && g.tabs[x].space == id by {
                assert(h.tabs.contains_key(x));
            }
        }
        assert forall|id: u64| #[trigger] g.tabs.contains_key(id) implies tab_hangs(g, id) by {
            assert(h.tabs.contains_key(id));
            assert(tab_hangs(h, id));
            let o = h.tabs[id];
            assert forall|x: u64| #[trigger] o.layout.order().contains(x) implies
                g.panes.contains_key(x) && g.panes[x].tab == id by {
                assert(h.panes.contains_key(x));
            }
        }
        assert forall|id: u64| #[trigger] g.panes.contains_key(id) implies pane_hangs(g, id) by {
            assert(h.panes.contains_key(id));
            assert(pane_hangs(h, id));
        }
    } else {
        assert(shape(r) == h);
        if let Some(f) = s.focused_space {
            assert(r.has_space(f) == s.has_space(f));
        }
    }
}

// -- whole -------------------------------------------------------------------

proof fn lemma_joined(a: Seq<u64>, b: Seq<u64>)
    ensures
        forall|x: u64| #[trigger] (a + b).contains(x) == (a.contains(x) || b.contains(x)),
        a.no_duplicates() && b.no_duplicates() && (forall|x: u64|
            !(#[trigger] a.contains(x) && b.contains(x))) ==> (a + b).no_duplicates(),
{
    let c = a + b;
    assert forall|x: u64| #[trigger] c.contains(x) == (a.contains(x) || b.contains(x)) by {
        if c.contains(x) {
            let i = choose|i: int| 0 <= i < c.len() && c[i] == x;
            if i < a.len() {
                assert(a[i] == x);
            } else {
                assert(b[i - a.len()] == x);
            }
        }
        if a.contains(x) {
            let i = choose|i: int| 0 <= i < a.len() && a[i] == x;
            assert(c[i] == x);
        }
        if b.contains(x) {
            let i = choose|i: int| 0 <= i < b.len() && b[i] == x;
            assert(c[a.len() + i] == x);
        }
    }
    if a.no_duplicates() && b.no_duplicates() && (forall|x: u64|
        !(#[trigger] a.contains(x) && b.contains(x))) {
        assert forall|i: int, j: int| 0 <= i < c.len() && 0 <= j < c.len() && i != j implies c[i]
            != c[j] by {
            if i < a.len() && j >= a.len() {
                assert(a[i] == c[i] && b[j - a.len()] == c[j]);
                assert(a.contains(c[i]));
                assert(b.contains(c[j]));
            } else if i >= a.len() && j < a.len() {
                assert(a[j] == c[j] && b[i - a.len()] == c[i]);
                assert(a.contains(c[j]));
                assert(b.contains(c[i]));
            }
        }
    }
}

proof fn lemma_panes_of_tabs(s: SessionView, space: u64, n: int)
    requires
        sound(s),
        shape(s).spaces.contains_key(space),
        0 <= n <= shape(s).spaces[space].tabs.len(),
    ensures
        ({
            let tabs = shape(s).spaces[space].tabs;
            let ps = panes_of_tabs(s, tabs, n);
            &&& ps.no_duplicates()
            &&& forall|x: u64|
                #[trigger]
                ps.contains(x) ==> shape(s).panes.contains_key(x) && tabs.take(n).contains(
                    shape(s).panes[x].tab,
                ) && shape(s).panes[x].space == space
        }),
    decreases n,
{
    let h = shape(s);
    let tabs = h.spaces[space].tabs;
    assert(space_hangs(h, space));
    if n > 0 {
        lemma_panes_of_tabs(s, space, n - 1);
        let id = tabs[n - 1];
        assert(tabs.contains(id));
        lemma_tab(s, id);
        assert(tab_hangs(h, id));
        let a = panes_of_tabs(s, tabs, n - 1);
        let b = h.tabs[id].layout.order();
        let before = tabs.take(n - 1);
        let now = tabs.take(n);
        lemma_joined(a, b);
        assert forall|x: u64| !(#[trigger] a.contains(x) && b.contains(x)) by {
            if a.contains(x) && b.contains(x) {
                assert(h.panes[x].tab == id);
                let i = choose|i: int| 0 <= i < before.len() && before[i] == id;
                assert(tabs[i] == tabs[n - 1]);
            }
        }
        let ps = panes_of_tabs(s, tabs, n);
        assert(ps == a + b);
        assert forall|x: u64| #[trigger] ps.contains(x) implies h.panes.contains_key(x)
            && now.contains(h.panes[x].tab) && h.panes[x].space == space by {
            if a.contains(x) {
                let i = choose|i: int| 0 <= i < before.len() && before[i] == h.panes[x].tab;
                assert(now[i] == h.panes[x].tab);
            } else {
                assert(b.contains(x));
                assert(now[n - 1] == id);
                assert(pane_hangs(h, x));
            }
        }
    }
}

proof fn lemma_panes_in_order(s: SessionView, n: int)
    requires
        sound(s),
        0 <= n <= s.spaces.len(),
    ensures
        panes_in_order(s, n).no_duplicates(),
        forall|x: u64|
            #[trigger]
            panes_in_order(s, n).contains(x) ==> shape(s).panes.contains_key(x) && exists|i: int|
                0 <= i < n && (#[trigger] s.spaces[i]).id == shape(s).panes[x].space,
    decreases n,
{
    let h = shape(s);
    if n > 0 {
        lemma_panes_in_order(s, n - 1);
        lemma_distinct(s);
        lemma_keyed(s.spaces, space_key(), n - 1);
        let sp = s.spaces[n - 1];
        lemma_panes_of_tabs(s, sp.id, sp.tabs.len() as int);
        let a = panes_in_order(s, n - 1);
        let b = panes_of_tabs(s, sp.tabs, sp.tabs.len() as int);
        lemma_joined(a, b);
        assert forall|x: u64| !(#[trigger] a.contains(x) && b.contains(x)) by {
            if a.contains(x) && b.contains(x) {
                let i = choose|i: int|
                    0 <= i < n - 1 && (#[trigger] s.spaces[i]).id == h.panes[x].space;
                assert(s.spaces[i].id < s.spaces[n - 1].id);
            }
        }
        let ps = panes_in_order(s, n);
        assert(ps == a + b);
        assert forall|x: u64| #[trigger] ps.contains(x) implies h.panes.contains_key(x) && exists|
            i: int,
        |
            0 <= i < n && (#[trigger] s.spaces[i]).id == h.panes[x].space by {
            if a.contains(x) {
                let i = choose|i: int|
                    0 <= i < n - 1 && (#[trigger] s.spaces[i]).id == h.panes[x].space;
                assert(s.spaces[i].id == h.panes[x].space);
            } else {
                assert(b.contains(x));
                assert(s.spaces[n - 1].id == h.panes[x].space);
            }
        }
    }
}

/// A session that hangs together can be handed over and saved whole.
pub proof fn law_a_sound_session_is_whole(s: SessionView)
    requires
        sound(s),
    ensures
        whole(s),
        forall|i: int|
            0 <= i < panes_in_order(s, s.spaces.len() as int).len() ==> s.has_pane(
                #[trigger] panes_in_order(s, s.spaces.len() as int)[i],
            ),
{
    let h = shape(s);
    let order = panes_in_order(s, s.spaces.len() as int);
    lemma_panes_in_order(s, s.spaces.len() as int);
    assert forall|i: int| 0 <= i < s.spaces.len() implies space_whole(s, #[trigger] s.spaces[i]) by {
        let sp = s.spaces[i];
        lemma_distinct(s);
        lemma_keyed(s.spaces, space_key(), i);
        assert(space_hangs(h, sp.id));
        assert forall|j: int| 0 <= j < sp.tabs.len() implies tab_whole(s, #[trigger] sp.tabs[j]) by {
            assert(sp.tabs.contains(sp.tabs[j]));
            lemma_tab(s, sp.tabs[j]);
            assert(tab_hangs(h, sp.tabs[j]));
        }
    }
    assert forall|i: int| 0 <= i < order.len() implies s.has_pane(#[trigger] order[i]) by {
        assert(order.contains(order[i]));
        lemma_pane(s, order[i]);
    }
}

/// A session that has nothing yet hangs together.
pub proof fn law_an_empty_session_is_sound(s: SessionView)
    requires
        s.wf(),
        s.spaces.len() == 0,
        s.tabs.len() == 0,
        s.panes.len() == 0,
        s.focused_space is None,
    ensures
        sound(s),
{
}

} // verus!
