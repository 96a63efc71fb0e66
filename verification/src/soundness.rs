//! No command takes a session apart.

use crate::commands::{
    all_redrawn, commanded, inherited, is_at, pane_ids, pane_named, pin_set, role_given, Cmd,
    Facts,
};
use crate::handoff::{rebuilt, HNode, HPane, HTab, Manifest};
use crate::import::{
    import_start, imported, space_in, spaces_in, tab_in, tabs_in, with_bare_space, ImportView,
};
use crate::layout::Layout;
use crate::paths::file_name;
use crate::persist::{
    dir_or, law_rebuilding_assigns_in_order, restored, saved_leaves, space_back, spaces_back,
    tab_back, tabs_back, tabs_closed, SavedSpaceView, SavedStateView, SavedTabView, WishesView,
};
use crate::preset::{grown, home, kept, manned, shaped, shrunk, somes, with_less, Preset};
use crate::proto::{Dir, ViewState};
use crate::restart::{
    all_panes_used, all_tabs_used, lemma_all_used, lemma_panes_used, lemma_spaces_back,
    lemma_tab_back, lemma_tabs_back, panes_back, panes_used, saved_sound, saved_space_sound,
    tab_made,
};
use crate::seqs::{first_where, lemma_first_where, lemma_first_where_is};
use crate::state::{
    killed, named, next_to_look_at, resized, space_cycled, space_focused, space_is, space_renamed,
    spawned, splitting, tab_cycled, tab_focused, tab_gone_to, taken, with_empty_space, with_space,
    wobbled, Bars, PaneView, SessionView, SpaceView, TabView,
};
use crate::structure::{
    distinct, hangs, keyed, law_a_new_space_keeps_it_sound, law_a_new_tab_keeps_it_sound,
    law_closing_a_pane_keeps_it_sound, law_closing_a_space_keeps_it_sound,
    law_closing_a_tab_keeps_it_sound, law_going_to_a_pane_keeps_it_sound,
    law_going_to_a_tab_keeps_it_sound, law_moving_keeps_it_sound,
    law_renaming_a_tab_keeps_it_sound, law_resizing_keeps_it_sound,
    law_splitting_keeps_it_sound, law_stepping_keeps_it_sound, law_swapping_keeps_it_sound,
    lemma_distinct, lemma_keyed, lemma_keyed_push, lemma_keyed_update, lemma_keyed_where,
    lemma_killed, lemma_laid_out, lemma_new_ids, lemma_new_name, lemma_pane, lemma_same_front,
    lemma_space, lemma_space_changed, lemma_tab, pane_hangs, pane_key, shape, sound, space_hangs,
    space_key, tab_hangs, tab_key, Shape,
};
use crate::survival::{
    building, came_over, lemma_space_numbers, lemma_tab_ids, lemma_tab_numbers, lemma_tabs_before,
    manifest_sound, run_of, space_numbers, space_sound, space_stands, tab_numbers, tab_sound,
    tabs_before, took,
};
use crate::text::opt_text;
use vstd::prelude::*;

verus! {

// -- panes that change -------------------------------------------------------

/// A pane that changes keeps its id and its place.
spec fn pane_varies(a: PaneView, b: PaneView) -> bool {
    b.id == a.id && b.tab == a.tab && b.space == a.space
}

proof fn lemma_pane_changed(s: SessionView, r: SessionView, i: int, p: PaneView)
    requires
        sound(s),
        0 <= i < s.panes.len(),
        pane_varies(s.panes[i], p),
        r.panes == s.panes.update(i, p),
        r.spaces == s.spaces,
        r.tabs == s.tabs,
        r.focused_space == s.focused_space,
        r.next_space == s.next_space,
        r.next_tab == s.next_tab,
        r.next_pane == s.next_pane,
    ensures
        sound(r),
{
    let h = shape(s);
    let g = shape(r);
    lemma_distinct(s);
    lemma_keyed_update(s.panes, pane_key(), i, p);
    lemma_keyed(s.panes, pane_key(), i);
    assert forall|a: int, b: int| 0 <= a < b < r.panes.len() implies (#[trigger] r.panes[a]).id < (
    #[trigger] r.panes[b]).id by {
        assert(s.panes[a].id < s.panes[b].id);
    }
    assert(r.wf());
    assert forall|id: u64| #[trigger] g.spaces.contains_key(id) implies space_hangs(g, id) by {
        assert(h.spaces.contains_key(id));
        assert(space_hangs(h, id));
    }
    assert forall|id: u64| #[trigger] g.tabs.contains_key(id) implies tab_hangs(g, id) by {
        assert(h.tabs.contains_key(id));
        assert(tab_hangs(h, id));
        let o = h.tabs[id].layout.order();
        assert forall|x: u64| #[trigger] o.contains(x) implies g.panes.contains_key(x)
            && g.panes[x].tab == id by {
            assert(h.panes.contains_key(x));
        }
    }
    assert forall|id: u64| #[trigger] g.panes.contains_key(id) implies pane_hangs(g, id) by {
        assert(h.panes.contains_key(id));
        assert(pane_hangs(h, id));
    }
    lemma_same_front(s, r);
}

proof fn lemma_resized(s: SessionView, pane: u64, cols: u16, rows: u16)
    requires
        sound(s),
    ensures
        sound(resized(s, pane, cols, rows)),
{
    lemma_pane(s, pane);
    let r = resized(s, pane, cols, rows);
    if s.has_pane(pane) {
        let i = s.pane_at(pane);
        if r != s {
            lemma_pane_changed(s, r, i, r.panes[i]);
        }
    }
}

proof fn lemma_all_redrawn(s: SessionView, ids: Seq<u64>, n: int)
    requires
        sound(s),
        0 <= n <= ids.len(),
    ensures
        sound(all_redrawn(s, ids, n)),
    decreases n,
{
    if n > 0 {
        lemma_all_redrawn(s, ids, n - 1);
        let b = all_redrawn(s, ids, n - 1);
        let pane = ids[n - 1];
        lemma_pane(b, pane);
        if b.has_pane(pane) {
            let l = b.panes[b.pane_at(pane)].life;
            let (c, r) = wobbled(l.cols, l.rows);
            lemma_resized(b, pane, c, r);
            lemma_resized(resized(b, pane, c, r), pane, l.cols, l.rows);
        }
    }
}

proof fn lemma_pane_named(s: SessionView, pane: u64, name: Option<Seq<char>>)
    requires
        sound(s),
    ensures
        sound(pane_named(s, pane, name)),
{
    lemma_pane(s, pane);
    if s.has_pane(pane) {
        let i = s.pane_at(pane);
        let r = pane_named(s, pane, name);
        lemma_pane_changed(s, r, i, r.panes[i]);
    }
}

// -- spaces that change ------------------------------------------------------

proof fn lemma_space_renamed(s: SessionView, space: u64, name: Seq<char>)
    requires
        sound(s),
    ensures
        sound(space_renamed(s, space, name).0),
{
    let r = space_renamed(s, space, name).0;
    lemma_space(s, space);
    let i = s.space_at(space);
    if r != s {
        let k = first_where(s.spaces, named(name));
        lemma_first_where(s.spaces, named(name));
        let sp = r.spaces[i];
        lemma_new_name(s.spaces, name);
        assert forall|a: int, b: int| 0 <= a < b < r.spaces.len() implies (
        #[trigger] r.spaces[a]).name != (#[trigger] r.spaces[b]).name by {
            assert(s.spaces[a].name != s.spaces[b].name);
            if a == i || b == i {
                let o = if a == i { b } else { a };
                assert(r.spaces[o] == s.spaces[o]);
                if sp.name == s.spaces[o].name {
                    if k < s.spaces.len() && s.spaces[k].id != space {
                        assert(taken(s.spaces, sp.name));
                    } else {
                        assert(named(name)(s.spaces[o]));
                        if k == s.spaces.len() {
                            assert(!named(name)(s.spaces[o]));
                        } else {
                            assert(s.spaces[k].name == name);
                            assert(k == i) by {
                                if k < i {
                                    assert(s.spaces[k].id < s.spaces[i].id);
                                }
                                if i < k {
                                    assert(s.spaces[i].id < s.spaces[k].id);
                                }
                            }
                            if k < o {
                                assert(s.spaces[k].name != s.spaces[o].name);
                            } else {
                                assert(s.spaces[o].name != s.spaces[k].name);
                            }
                        }
                    }
                }
            }
        }
        assert forall|a: int, b: int| 0 <= a < b < r.spaces.len() implies (
        #[trigger] r.spaces[a]).id < (#[trigger] r.spaces[b]).id by {
            assert(s.spaces[a].id < s.spaces[b].id);
        }
        assert(r.wf());
        lemma_space_changed(s, r, i, sp);
        lemma_same_front(s, r);
    }
}

// -- presets -----------------------------------------------------------------

/// A preset that puts each of its panes in one place.
pub open spec fn preset_sound(p: Preset) -> bool {
    let ls = p.tree.leaves();
    &&& p.want > 0
    &&& ls.len() == p.want
    &&& ls.no_duplicates()
    &&& forall|i: int| 0 <= i < ls.len() ==> #[trigger] ls[i] < p.want
}

proof fn lemma_rebuilt(n: HNode, all: Seq<u64>)
    requires
        forall|i: int| 0 <= i < n.leaves().len() ==> #[trigger] n.leaves()[i] < all.len(),
    ensures
        rebuilt(n, somes(all)) is Ok,
        rebuilt(n, somes(all))->Ok_0.leaves().len() == n.leaves().len(),
        forall|i: int|
            0 <= i < n.leaves().len() ==> #[trigger] rebuilt(n, somes(all))->Ok_0.leaves()[i]
                == all[n.leaves()[i] as int],
    decreases n,
{
    match n {
        HNode::Leaf(i) => {
            assert(n.leaves()[0] == i);
        },
        HNode::Split { horizontal, ratio, a, b } => {
            let l = a.leaves();
            let r = b.leaves();
            assert forall|i: int| 0 <= i < l.len() implies #[trigger] l[i] < all.len() by {
                assert(n.leaves()[i] == l[i]);
            }
            assert forall|i: int| 0 <= i < r.len() implies #[trigger] r[i] < all.len() by {
                assert(n.leaves()[l.len() + i] == r[i]);
            }
            lemma_rebuilt(*a, all);
            lemma_rebuilt(*b, all);
        },
    }
}

/// Every number below a bound occurs in as many different numbers below it.
proof fn lemma_all_there(ls: Seq<usize>, n: nat, x: int)
    requires
        ls.len() == n,
        ls.no_duplicates(),
        forall|i: int| 0 <= i < ls.len() ==> #[trigger] ls[i] < n,
        0 <= x < n,
    ensures
        exists|i: int| 0 <= i < ls.len() && #[trigger] ls[i] == x,
{
    if forall|i: int| 0 <= i < ls.len() ==> #[trigger] ls[i] != x {
        let ints = Seq::new(ls.len(), |i: int| ls[i] as int);
        assert(ints.no_duplicates());
        ints.unique_seq_to_set();
        let range = vstd::set_lib::set_int_range(0, n as int).remove(x);
        vstd::set_lib::lemma_int_range(0, n as int);
        assert(ints.to_set().subset_of(range)) by {
            assert forall|y: int| ints.to_set().contains(y) implies range.contains(y) by {
                let i = choose|i: int| 0 <= i < ints.len() && ints[i] == y;
                assert(ls[i] < n);
                assert(ls[i] != x);
            }
        }
        vstd::set_lib::lemma_len_subset(ints.to_set(), range);
    }
}

/// The tabs are the same but for what is in one.
spec fn divided_anew(a: Map<u64, TabView>, b: Map<u64, TabView>, tab: u64) -> bool {
    &&& forall|id: u64| #[trigger] b.contains_key(id) == a.contains_key(id)
    &&& forall|id: u64| id != tab && #[trigger] a.contains_key(id) ==> b[id] == a[id]
    &&& b[tab].id == a[tab].id
    &&& b[tab].space == a[tab].space
}

proof fn lemma_with_less(s: SessionView, tab: u64, pane: u64)
    requires
        s.wf(),
        s.has_tab(tab),
    ensures
        ({
            let r = with_less(s, tab, pane);
            &&& r.wf()
            &&& r.has_tab(tab)
            &&& shape(r).spaces == shape(s).spaces
            &&& shape(r).panes == shape(s).panes
            &&& divided_anew(shape(s).tabs, shape(r).tabs, tab)
        }),
{
    lemma_tab(s, tab);
    let r = with_less(s, tab, pane);
    let k = s.tab_at(tab);
    lemma_distinct(s);
    lemma_keyed_update(s.tabs, tab_key(), k, r.tabs[k]);
    assert forall|a: int, b: int| 0 <= a < b < r.tabs.len() implies (#[trigger] r.tabs[a]).id < (
    #[trigger] r.tabs[b]).id by {
        assert(s.tabs[a].id < s.tabs[b].id);
    }
    assert(r.wf());
    lemma_tab(r, tab);
}

proof fn lemma_shrunk(s: SessionView, tab: u64, have: Seq<u64>, want: nat)
    requires
        s.wf(),
        s.has_tab(tab),
    ensures
        ({
            let r = shrunk(s, tab, have, want);
            &&& r.wf()
            &&& r.has_tab(tab)
            &&& r.spaces == s.spaces
            &&& r.focused_space == s.focused_space
            &&& r.next_pane == s.next_pane
            &&& divided_anew(shape(s).tabs, shape(r).tabs, tab)
            &&& forall|k: u64|
                #[trigger]
                shape(r).panes.contains_key(k) == (shape(s).panes.contains_key(k) && !gone(
                    have,
                    want,
                ).contains(k))
            &&& forall|k: u64|
                #[trigger]
                shape(r).panes.contains_key(k) ==> shape(r).panes[k] == shape(s).panes[k]
        }),
    decreases have.len(),
{
    if have.len() > want {
        let last = have.last();
        lemma_killed(s, last);
        let a = killed(s, last);
        lemma_tab(s, tab);
        lemma_tab(a, tab);
        lemma_with_less(a, tab, last);
        let b = with_less(a, tab, last);
        lemma_shrunk(b, tab, have.drop_last(), want);
        let less = gone(have.drop_last(), want);
        let all = gone(have, want);
        assert(all =~= less.push(last));
        let r = shrunk(s, tab, have, want);
        assert forall|id: u64| id != tab && #[trigger] shape(s).tabs.contains_key(id) implies shape(
            r,
        ).tabs[id] == shape(s).tabs[id] by {
            assert(shape(b).tabs.contains_key(id));
        }
        assert forall|k: u64| #[trigger] all.contains(k) == (k == last || less.contains(k)) by {
            if all.contains(k) && k != last {
                let i = choose|i: int| 0 <= i < all.len() && all[i] == k;
                assert(less[i] == k);
            }
            if less.contains(k) {
                let i = choose|i: int| 0 <= i < less.len() && less[i] == k;
                assert(all[i] == k);
            }
            assert(all[less.len() as int] == last);
        }
        assert forall|k: u64| #[trigger] shape(r).panes.contains_key(k) == (shape(
            s,
        ).panes.contains_key(k) && !all.contains(k)) by {
            assert(shape(b).panes.contains_key(k) == (shape(s).panes.contains_key(k) && k
                != last));
        }
    } else {
        assert(gone(have, want) =~= Seq::<u64>::empty());
    }
}

/// The panes that go.
spec fn gone(have: Seq<u64>, want: nat) -> Seq<u64> {
    if have.len() <= want {
        Seq::empty()
    } else {
        have.skip(want as int)
    }
}

proof fn lemma_grown(
    s: SessionView,
    space: u64,
    tab: u64,
    shell: Seq<char>,
    cwd: Seq<char>,
    n: nat,
)
    requires
        s.wf(),
        s.next_pane + n <= u64::MAX,
    ensures
        ({
            let r = grown(s, space, tab, shell, cwd, n);
            &&& r.wf()
            &&& r.spaces == s.spaces
            &&& r.tabs == s.tabs
            &&& r.focused_space == s.focused_space
            &&& r.next_pane == s.next_pane + n
            &&& forall|k: u64|
                #[trigger]
                shape(r).panes.contains_key(k) == (shape(s).panes.contains_key(k) || s.next_pane
                    <= k < s.next_pane + n)
            &&& forall|k: u64|
                #[trigger]
                shape(s).panes.contains_key(k) ==> shape(r).panes[k] == shape(s).panes[k]
            &&& forall|k: u64|
                s.next_pane <= k < s.next_pane + n && #[trigger] shape(r).panes.contains_key(k)
                    ==> shape(r).panes[k].id == k && shape(r).panes[k].tab == tab
                    && shape(r).panes[k].space == space
        }),
    decreases n,
{
    if n > 0 {
        lemma_grown(s, space, tab, shell, cwd, (n - 1) as nat);
        let b = grown(s, space, tab, shell, cwd, (n - 1) as nat);
        let r = spawned(b, space, tab, shell, cwd);
        lemma_distinct(b);
        lemma_new_ids(b);
        lemma_new_ids(s);
        lemma_keyed_push(b.panes, pane_key(), r.panes.last());
        assert(r.panes =~= b.panes.push(r.panes.last()));
        assert(r.wf());
        assert forall|k: u64| #[trigger] shape(s).panes.contains_key(k) implies shape(r).panes[k]
            == shape(s).panes[k] by {
            assert(shape(b).panes.contains_key(k));
        }
    }
}

/// Shaping a tab after a preset that puts each of its panes in one place keeps everything
/// together.
pub proof fn law_a_preset_keeps_it_sound(
    s: SessionView,
    bars: Bars,
    shell: Seq<char>,
    name: Seq<char>,
    preset: Option<Preset>,
)
    requires
        sound(s),
        preset matches Some(p) ==> preset_sound(p) && s.next_pane + p.want <= u64::MAX,
    ensures
        sound(shaped(s, bars, shell, name, preset).0),
{
    if let (Some(p), Some(tab)) = (preset, s.front_tab()) {
        let h = shape(s);
        // The tab in front is there.
        let f = s.focused_space->Some_0;
        lemma_space(s, f);
        assert(space_hangs(h, f));
        lemma_tab(s, tab);
        assert(s.has_tab(tab));
        assert(tab_hangs(h, tab));
        let front = s.in_front();
        let want = p.want as nat;
        let have = kept(front, want);
        let lost = gone(front, want);
        lemma_shrunk(s, tab, front, want);
        let t = shrunk(s, tab, front, want);
        lemma_tab(t, tab);
        let (space, cwd) = home(t, tab);
        let n = (want - have.len()) as nat;
        lemma_grown(t, space, tab, shell, cwd, n);
        let u = grown(t, space, tab, shell, cwd, n);
        let all = manned(have, t.next_pane, n);
        lemma_manned(s, front, want, n);
        lemma_rebuilt(p.tree, all);
        let tree = rebuilt(p.tree, somes(all))->Ok_0;
        let order = tree.leaves();
        let ls = p.tree.leaves();
        assert(order.no_duplicates()) by {
            assert forall|i: int, j: int|
                0 <= i < order.len() && 0 <= j < order.len() && i != j implies order[i]
                != order[j] by {
                assert(order[i] == all[ls[i] as int] && order[j] == all[ls[j] as int]);
                assert(ls[i] != ls[j]);
            }
        }
        assert forall|x: u64| #[trigger] order.contains(x) == all.contains(x) by {
            if order.contains(x) {
                let i = choose|i: int| 0 <= i < order.len() && order[i] == x;
                assert(all[ls[i] as int] == x);
            }
            if all.contains(x) {
                let j = choose|j: int| 0 <= j < all.len() && all[j] == x;
                lemma_all_there(ls, want, j);
                let i = choose|i: int| 0 <= i < ls.len() && #[trigger] ls[i] == j;
                assert(order[i] == x);
            }
        }
        lemma_tab(u, tab);
        let k = u.tab_at(tab);
        let new = TabView {
            layout: Layout { tree: Some(tree) },
            focused_pane: Some(all[0]),
            ..u.tabs[k]
        };
        assert(all.contains(all[0]));
        let v = SessionView { tabs: u.tabs.update(k, new), ..u };
        lemma_distinct(u);
        lemma_keyed_update(u.tabs, tab_key(), k, new);
        assert(v.wf());
        lemma_shaped(h, shape(v), tab, front, lost, all, t.next_pane, n, new);
        if let Some(id) = s.focused_space {
            assert(v.spaces == s.spaces);
            assert(v.has_space(id) == s.has_space(id));
        }
        assert(sound(v));
        let z = SessionView { view: ViewState { zoom: None, ..v.view }, ..v };
        assert(shape(z) == shape(v));
        if let Some(id) = z.focused_space {
            assert(z.has_space(id) == v.has_space(id));
        }
        assert(sound(z));
        lemma_laid_out(z, bars);
    }
}

/// The panes of a shaped tab: those that stay, and new ones.
proof fn lemma_manned(s: SessionView, front: Seq<u64>, want: nat, n: nat)
    requires
        s.wf(),
        front.no_duplicates(),
        forall|x: u64| #[trigger] front.contains(x) ==> shape(s).panes.contains_key(x),
        n == want - kept(front, want).len(),
        s.next_pane + n <= u64::MAX,
    ensures
        ({
            let all = manned(kept(front, want), s.next_pane, n);
            &&& all.len() == want
            &&& all.no_duplicates()
            &&& forall|x: u64|
                #[trigger]
                all.contains(x) == ((front.contains(x) && !gone(front, want).contains(x)) || (
                s.next_pane <= x < s.next_pane + n))
        }),
{
    let have = kept(front, want);
    let lost = gone(front, want);
    let new = Seq::new(n, |i: int| (s.next_pane + i) as u64);
    let all = manned(have, s.next_pane, n);
    assert(all == have + new);
    assert(front =~= have + lost);
    assert forall|x: u64| #[trigger] front.contains(x) implies x < s.next_pane by {
        lemma_pane(s, x);
    }
    assert forall|i: int, j: int| 0 <= i < all.len() && 0 <= j < all.len() && i != j implies all[i]
        != all[j] by {
        if i < have.len() {
            assert(front[i] == all[i]);
            assert(front.contains(all[i]));
        }
        if j < have.len() {
            assert(front[j] == all[j]);
            assert(front.contains(all[j]));
        }
    }
    assert forall|x: u64|
        #[trigger]
        all.contains(x) == ((front.contains(x) && !lost.contains(x)) || (s.next_pane <= x
            < s.next_pane + n)) by {
        if all.contains(x) {
            let i = choose|i: int| 0 <= i < all.len() && all[i] == x;
            if i < have.len() {
                assert(front[i] == x);
                if lost.contains(x) {
                    let j = choose|j: int| 0 <= j < lost.len() && lost[j] == x;
                    assert(front[have.len() + j] == x);
                }
            }
        }
        if front.contains(x) && !lost.contains(x) {
            let i = choose|i: int| 0 <= i < front.len() && front[i] == x;
            if i >= have.len() {
                assert(lost[i - have.len()] == x);
            }
            assert(all[i] == x);
        }
        if s.next_pane <= x < s.next_pane + n {
            assert(all[have.len() + (x - s.next_pane)] == x);
        }
    }
}

proof fn lemma_shaped(
    h: Shape,
    g: Shape,
    tab: u64,
    front: Seq<u64>,
    lost: Seq<u64>,
    all: Seq<u64>,
    first: u64,
    n: nat,
    new: TabView,
)
    requires
        hangs(h),
        h.tabs.contains_key(tab),
        front == h.tabs[tab].layout.order(),
        forall|x: u64| #[trigger] lost.contains(x) ==> front.contains(x),
        forall|x: u64|
            #[trigger]
            all.contains(x) == ((front.contains(x) && !lost.contains(x)) || (first <= x < first
                + n)),
        forall|x: u64| #[trigger] h.panes.contains_key(x) ==> x < first,
        g.spaces == h.spaces,
        divided_anew(h.tabs, g.tabs, tab),
        g.tabs[tab] == new,
        new.id == tab,
        new.space == h.tabs[tab].space,
        new.layout.tree is Some,
        new.layout.order().no_duplicates(),
        forall|x: u64| #[trigger] new.layout.order().contains(x) == all.contains(x),
        new.focused_pane matches Some(p) ==> all.contains(p),
        forall|x: u64|
            #[trigger]
            g.panes.contains_key(x) == ((h.panes.contains_key(x) && !lost.contains(x)) || (first
                <= x < first + n)),
        forall|x: u64|
            h.panes.contains_key(x) && #[trigger] g.panes.contains_key(x) ==> g.panes[x]
                == h.panes[x],
        forall|x: u64|
            first <= x < first + n && #[trigger] g.panes.contains_key(x) ==> g.panes[x].id == x
                && g.panes[x].tab == tab && g.panes[x].space == new.space,
    ensures
        hangs(g),
{
    assert(tab_hangs(h, tab));
    assert forall|id: u64| #[trigger] g.spaces.contains_key(id) implies space_hangs(g, id) by {
        assert(space_hangs(h, id));
        let sp = h.spaces[id];
        assert forall|x: u64| #[trigger] sp.tabs.contains(x) implies g.tabs.contains_key(x)
            && g.tabs[x].space == id by {
            assert(h.tabs.contains_key(x));
        }
    }
    assert forall|id: u64| #[trigger] g.tabs.contains_key(id) implies tab_hangs(g, id) by {
        assert(h.tabs.contains_key(id));
        assert(tab_hangs(h, id));
        if id == tab {
            assert forall|x: u64| #[trigger] new.layout.order().contains(x) implies
                g.panes.contains_key(x) && g.panes[x].tab == id by {
                assert(all.contains(x));
                if front.contains(x) {
                    assert(h.panes.contains_key(x));
                    assert(g.panes.contains_key(x));
                } else {
                    assert(g.panes.contains_key(x));
                }
            }
        } else {
            let o = h.tabs[id].layout.order();
            assert forall|x: u64| #[trigger] o.contains(x) implies g.panes.contains_key(x)
                && g.panes[x].tab == id by {
                assert(h.panes.contains_key(x) && h.panes[x].tab == id);
                if lost.contains(x) {
                    assert(front.contains(x));
                }
                assert(g.panes.contains_key(x));
            }
        }
    }
    assert forall|id: u64| #[trigger] g.panes.contains_key(id) implies pane_hangs(g, id) by {
        if h.panes.contains_key(id) {
            assert(pane_hangs(h, id));
            assert(h.tabs.contains_key(h.panes[id].tab));
            if h.panes[id].tab == tab {
                assert(all.contains(id));
                assert(new.layout.order().contains(id));
            }
        } else {
            assert(all.contains(id));
            assert(new.layout.order().contains(id));
        }
    }
}

// -- commands ----------------------------------------------------------------

/// What is known besides the session agrees with it: a neighbour is in the tab in front, a tab
/// that is divided anew keeps its panes, and a preset puts each of its panes in one place.
pub open spec fn facts_sound(s: SessionView, facts: Facts) -> bool {
    &&& facts.neighbour matches Some(p) ==> s.in_front().contains(p)
    &&& facts.reshaped matches Some(l) ==> l.tree is Some && l.order() == s.in_front()
    &&& facts.preset matches Some(p) ==> preset_sound(p) && s.next_pane + p.want <= u64::MAX
}

/// What shows is nothing to how things hang together.
proof fn lemma_view_changed(s: SessionView, view: ViewState, bars: Bars)
    requires
        sound(s),
    ensures
        sound((SessionView { view, ..s }).laid_out(bars)),
{
    let r = SessionView { view, ..s };
    assert(shape(r) == shape(s));
    if let Some(f) = s.focused_space {
        assert(r.has_space(f) == s.has_space(f));
    }
    lemma_laid_out(r, bars);
}

/// Whatever a command does, everything still hangs together.
pub proof fn law_a_command_keeps_it_sound(
    s: SessionView,
    bars: Bars,
    shell: Seq<char>,
    cmd: Cmd,
    facts: Facts,
)
    requires
        sound(s),
        s.has_ids(),
        s.has_space_ids(),
        facts_sound(s, facts),
    ensures
        sound(commanded(s, bars, shell, cmd, facts).0),
{
    match cmd {
        Cmd::SplitRight => {
            law_splitting_keeps_it_sound(s, bars, shell, None, Dir::Right, None, None, facts.fits);
        },
        Cmd::SplitDown => {
            law_splitting_keeps_it_sound(s, bars, shell, None, Dir::Down, None, None, facts.fits);
        },
        Cmd::ClosePane => {
            if let Some(p) = s.front_pane() {
                law_closing_a_pane_keeps_it_sound(s, bars, p);
            }
        },
        Cmd::FocusDir(_) => {
            law_moving_keeps_it_sound(s, facts.neighbour);
        },
        Cmd::Resize { .. } => {
            law_resizing_keeps_it_sound(s, bars, facts.reshaped);
        },
        Cmd::ToggleZoom => {
            let view = commanded(s, bars, shell, cmd, facts).0.view;
            lemma_view_changed(s, view, bars);
        },
        Cmd::SwapDir(_) => {
            law_swapping_keeps_it_sound(s, bars, facts.neighbour);
        },
        Cmd::NewTab => {
            if let Some(space) = s.focused_space {
                law_a_new_tab_keeps_it_sound(s, bars, shell, space, None);
            }
        },
        Cmd::NextTab => {
            law_stepping_keeps_it_sound(s, 0, 1, 0);
            lemma_laid_out(tab_cycled(s, 1).0, bars);
        },
        Cmd::PrevTab => {
            law_stepping_keeps_it_sound(s, 0, -1, 0);
            lemma_laid_out(tab_cycled(s, -1).0, bars);
        },
        Cmd::GotoTab(i) => {
            law_stepping_keeps_it_sound(s, 0, 0, i as int);
            lemma_laid_out(tab_gone_to(s, i as int).0, bars);
        },
        Cmd::CloseTab => {
            if let Some(t) = s.front_tab() {
                law_closing_a_tab_keeps_it_sound(s, bars, t);
            }
        },
        Cmd::NewSpace { name } => {
            law_a_new_space_keeps_it_sound(
                s,
                bars,
                shell,
                opt_text(name),
                inherited(s, facts.here@),
            );
        },
        Cmd::FocusSpace(id) => {
            law_stepping_keeps_it_sound(s, id, 0, 0);
            lemma_laid_out(space_focused(s, id).0, bars);
        },
        Cmd::OpenProject { cwd } => {
            let i = first_where(s.spaces, is_at(cwd@));
            lemma_first_where(s.spaces, is_at(cwd@));
            if i < s.spaces.len() {
                law_stepping_keeps_it_sound(s, s.spaces[i].id, 0, 0);
            }
            let name = match file_name(cwd@) {
                Some(n) => n,
                None => cwd@,
            };
            law_a_new_space_keeps_it_sound(s, bars, shell, Some(name), cwd@);
        },
        Cmd::NextSpace => {
            law_stepping_keeps_it_sound(s, 0, 1, 0);
            lemma_laid_out(space_cycled(s, 1).0, bars);
        },
        Cmd::PrevSpace => {
            law_stepping_keeps_it_sound(s, 0, -1, 0);
            lemma_laid_out(space_cycled(s, -1).0, bars);
        },
        Cmd::ToggleSidebar => {
            let view = ViewState { sidebar_open: !s.view.sidebar_open, ..s.view };
            lemma_view_changed(s, view, bars);
        },
        Cmd::ToggleBus => {
            let view = ViewState { bus_open: !s.view.bus_open, ..s.view };
            lemma_view_changed(s, view, bars);
        },
        Cmd::Redraw => {
            lemma_all_redrawn(s, pane_ids(s), s.panes.len() as int);
        },
        Cmd::JumpAttention => {
            if let Some(p) = next_to_look_at(s) {
                law_going_to_a_pane_keeps_it_sound(s, p);
            }
        },
        Cmd::FocusPane(p) => {
            law_going_to_a_pane_keeps_it_sound(s, p);
        },
        Cmd::RenamePane { pane, name } => {
            lemma_pane_named(s, pane, None);
            lemma_pane_named(s, pane, Some(name@));
        },
        Cmd::SpawnAgent { cmd: c, name, split } => {
            let dir = match split {
                Some(d) => d,
                None => Dir::Right,
            };
            law_splitting_keeps_it_sound(
                s,
                bars,
                shell,
                None,
                dir,
                Some(c@),
                None,
                facts.fits,
            );
            let (after, r) = splitting(s, bars, shell, None, dir, Some(c@), facts.fits);
            if let Ok(id) = r {
                lemma_pane_named(after, id, opt_text(name));
            }
        },
        Cmd::RenameSpace { space, name } => {
            lemma_space_renamed(s, space, name@);
        },
        Cmd::RenameTab { tab, name } => {
            law_renaming_a_tab_keeps_it_sound(s, tab, name@);
        },
        Cmd::CloseSpace(id) => {
            law_closing_a_space_keeps_it_sound(s, bars, id);
        },
        Cmd::FocusTab(id) => {
            law_going_to_a_tab_keeps_it_sound(s, id);
            lemma_laid_out(tab_focused(s, id).0, bars);
        },
        Cmd::NewTabIn(space) => {
            law_a_new_tab_keeps_it_sound(s, bars, shell, space, None);
        },
        Cmd::ApplyLayout { preset } => {
            law_a_preset_keeps_it_sound(s, bars, shell, preset@, facts.preset);
        },
        Cmd::SetPaneRole { pane, role } => {
            lemma_pane(s, pane);
            let r = role_given(s, pane, opt_text(role));
            if s.has_pane(pane) {
                let i = s.pane_at(pane);
                lemma_pane_changed(s, r, i, r.panes[i]);
            }
        },
        Cmd::TogglePanePinned(pane) => {
            lemma_pane(s, pane);
            let r = pin_set(s, pane, None).0;
            if s.has_pane(pane) {
                let i = s.pane_at(pane);
                lemma_pane_changed(s, r, i, r.panes[i]);
            }
        },
        _ => {},
    }
}

// -- coming back -------------------------------------------------------------

proof fn lemma_keyed_more<A>(s: Seq<A>, t: Seq<A>, id: spec_fn(A) -> u64)
    requires
        distinct(s + t, id),
    ensures
        distinct(s, id),
        forall|k: u64|
            #[trigger]
            keyed(s, id).contains_key(k) ==> keyed(s + t, id).contains_key(k) && keyed(
                s + t,
                id,
            )[k] == keyed(s, id)[k],
        forall|j: int|
            0 <= j < t.len() ==> keyed(s + t, id).contains_key(id(#[trigger] t[j])) && keyed(
                s + t,
                id,
            )[id(t[j])] == t[j],
        forall|k: u64|
            #[trigger]
            keyed(s + t, id).contains_key(k) ==> keyed(s, id).contains_key(k) || exists|j: int|
                0 <= j < t.len() && id(#[trigger] t[j]) == k,
{
    let u = s + t;
    assert forall|i: int, j: int| 0 <= i < j < s.len() implies id(#[trigger] s[i]) != id(
        #[trigger] s[j],
    ) by {
        assert(u[i] == s[i] && u[j] == s[j]);
    }
    assert forall|k: u64| #[trigger] keyed(s, id).contains_key(k) implies keyed(
        u,
        id,
    ).contains_key(k) && keyed(u, id)[k] == keyed(s, id)[k] by {
        let i = lemma_keyed_where(s, id, k);
        assert(u[i] == s[i]);
        lemma_keyed(u, id, i);
    }
    assert forall|j: int| 0 <= j < t.len() implies keyed(u, id).contains_key(id(#[trigger] t[j]))
        && keyed(u, id)[id(t[j])] == t[j] by {
        assert(u[s.len() + j] == t[j]);
        lemma_keyed(u, id, s.len() + j);
    }
    assert forall|k: u64| #[trigger] keyed(u, id).contains_key(k) implies keyed(
        s,
        id,
    ).contains_key(k) || exists|j: int| 0 <= j < t.len() && id(#[trigger] t[j]) == k by {
        let i = lemma_keyed_where(u, id, k);
        if i < s.len() {
            lemma_keyed(s, id, i);
        } else {
            assert(id(t[i - s.len()]) == k);
        }
    }
}

/// A tab and its panes come into a space.
proof fn lemma_hangs_with_tab(
    h: Shape,
    g: Shape,
    space: u64,
    new: TabView,
    ids: Seq<u64>,
    sp: SpaceView,
)
    requires
        hangs(h),
        h.spaces.contains_key(space),
        !h.tabs.contains_key(new.id),
        new.space == space,
        new.layout.tree is Some,
        new.layout.order() == ids,
        ids.no_duplicates(),
        new.focused_pane matches Some(p) ==> ids.contains(p),
        sp.id == space,
        sp.tabs == h.spaces[space].tabs.push(new.id),
        sp.focused_tab matches Some(t) && sp.tabs.contains(t),
        g.spaces == h.spaces.insert(space, sp),
        g.tabs == h.tabs.insert(new.id, new),
        forall|k: u64|
            #[trigger]
            h.panes.contains_key(k) ==> g.panes.contains_key(k) && g.panes[k] == h.panes[k],
        forall|k: u64|
            #[trigger]
            ids.contains(k) ==> g.panes.contains_key(k) && g.panes[k].id == k && g.panes[k].tab
                == new.id && g.panes[k].space == space && !h.panes.contains_key(k),
        forall|k: u64|
            #[trigger]
            g.panes.contains_key(k) && !h.panes.contains_key(k) ==> ids.contains(k),
    ensures
        hangs(g),
{
    let id = new.id;
    let old = h.spaces[space];
    assert(space_hangs(h, space));
    assert(!old.tabs.contains(id)) by {
        if old.tabs.contains(id) {
            assert(h.tabs.contains_key(id));
        }
    }
    assert forall|x: u64| #[trigger] sp.tabs.contains(x) == (x == id || old.tabs.contains(x)) by {
        assert(sp.tabs[old.tabs.len() as int] == id);
        if sp.tabs.contains(x) && x != id {
            let i = choose|i: int| 0 <= i < sp.tabs.len() && sp.tabs[i] == x;
            assert(old.tabs[i] == x);
        }
        if old.tabs.contains(x) {
            let i = choose|i: int| 0 <= i < old.tabs.len() && old.tabs[i] == x;
            assert(sp.tabs[i] == x);
        }
    }
    assert forall|x: u64| #[trigger] g.spaces.contains_key(x) implies space_hangs(g, x) by {
        assert(h.spaces.contains_key(x));
        assert(space_hangs(h, x));
        assert forall|y: u64| #[trigger] g.spaces[x].tabs.contains(y) implies
            g.tabs.contains_key(y) && g.tabs[y].space == x by {
            if x != space || y != id {
                assert(h.spaces[x].tabs.contains(y));
            }
        }
    }
    assert forall|x: u64| #[trigger] g.tabs.contains_key(x) implies tab_hangs(g, x) by {
        if x == id {
            assert(sp.tabs.contains(id));
        } else {
            assert(h.tabs.contains_key(x));
            assert(tab_hangs(h, x));
            let o = h.tabs[x].layout.order();
            if h.tabs[x].space == space {
                assert(sp.tabs.contains(x));
            }
            assert forall|y: u64| #[trigger] o.contains(y) implies g.panes.contains_key(y)
                && g.panes[y].tab == x by {
                assert(h.panes.contains_key(y));
            }
        }
    }
    assert forall|x: u64| #[trigger] g.panes.contains_key(x) implies pane_hangs(g, x) by {
        if h.panes.contains_key(x) {
            assert(pane_hangs(h, x));
            assert(h.tabs.contains_key(h.panes[x].tab));
        } else {
            assert(ids.contains(x));
        }
    }
}

proof fn lemma_tab_back_sound(
    s: SessionView,
    w: WishesView,
    bars: Bars,
    space: u64,
    cwd: Seq<char>,
    t: SavedTabView,
    in_front: bool,
)
    requires
        sound(s),
        s.spaces.len() > 0,
        s.spaces.last().id == space,
        s.next_tab < u64::MAX,
        s.next_pane + 1 + saved_leaves(t.tree).len() < u64::MAX,
    ensures
        sound(tab_back(s, w, bars, space, cwd, t, in_front)),
{
    let r = tab_back(s, w, bars, space, cwd, t, in_front);
    lemma_tab_back(s, w, bars, space, cwd, t, in_front);
    let leaves = saved_leaves(t.tree);
    let n = leaves.len();
    let id = s.next_tab;
    let first = s.next_pane + 1;
    let ps = panes_back(first, space, id, leaves, w, cwd);
    let new = tab_made(id as int, space, first, t);
    let ids = run_of(first as u64, n);
    law_rebuilding_assigns_in_order(t.tree, ids, 0);
    assert(new.layout.order() =~= ids);
    let h = shape(s);
    let g = shape(r);
    let k = s.spaces.len() - 1;
    let old = s.spaces[k];
    let sp = r.spaces[k];
    lemma_distinct(s);
    lemma_new_ids(s);
    lemma_keyed(s.spaces, space_key(), k);
    assert(space_hangs(h, space));
    assert forall|a: int, b: int| 0 <= a < b < r.spaces.len() implies (#[trigger] r.spaces[a]).name
        != (#[trigger] r.spaces[b]).name by {
        assert(s.spaces[a].name != s.spaces[b].name);
    }
    assert forall|a: int| 0 <= a < r.spaces.len() implies (#[trigger] r.spaces[a]).tabs.len()
        < r.next_tab by {
        assert(s.spaces[a].tabs.len() < s.next_tab);
    }
    assert(r.wf());
    lemma_distinct(r);
    lemma_keyed_update(s.spaces, space_key(), k, sp);
    lemma_keyed_push(s.tabs, tab_key(), new);
    lemma_keyed_more(s.panes, ps, pane_key());
    assert forall|y: u64| #[trigger] ids.contains(y) implies g.panes.contains_key(y)
        && g.panes[y].id == y && g.panes[y].tab == id && g.panes[y].space == space
        && !h.panes.contains_key(y) by {
        let j = choose|j: int| 0 <= j < ids.len() && ids[j] == y;
        assert(ps[j].id == y);
        if h.panes.contains_key(y) {
            let i = lemma_keyed_where(s.panes, pane_key(), y);
        }
    }
    assert forall|y: u64| #[trigger] g.panes.contains_key(y) && !h.panes.contains_key(y) implies
        ids.contains(y) by {
        let j = choose|j: int| 0 <= j < ps.len() && pane_key()(#[trigger] ps[j]) == y;
        assert(ids[j] == y);
    }
    if let Some(f) = new.focused_pane {
        let i = t.focused_pane->Some_0;
        assert(ids[i as int] == f);
    }
    assert(sp.tabs[old.tabs.len() as int] == id);
    lemma_hangs_with_tab(h, g, space, new, ids, sp);
    if let Some(f) = r.focused_space {
        if r.focused_space != s.focused_space {
            assert(f == space);
        }
        lemma_space(s, f);
        lemma_space(s, space);
        lemma_space(r, f);
    }
}

proof fn lemma_tabs_back_sound(
    s: SessionView,
    w: WishesView,
    bars: Bars,
    space: u64,
    cwd: Seq<char>,
    tabs: Seq<SavedTabView>,
    front: Option<usize>,
    n: int,
)
    requires
        sound(s),
        s.spaces.len() > 0,
        s.spaces.last().id == space,
        0 <= n <= tabs.len(),
        s.next_tab + tabs.len() < u64::MAX,
        s.next_pane + panes_used(tabs, tabs.len() as int) < u64::MAX,
    ensures
        sound(tabs_back(s, w, bars, space, cwd, tabs, front, n)),
    decreases n,
{
    if n > 0 {
        lemma_tabs_back_sound(s, w, bars, space, cwd, tabs, front, n - 1);
        lemma_tabs_back(s, w, bars, space, cwd, tabs, front, n - 1);
        lemma_panes_used(tabs, tabs.len() as int, n);
        lemma_tab_back_sound(
            tabs_back(s, w, bars, space, cwd, tabs, front, n - 1),
            w,
            bars,
            space,
            cwd,
            tabs[n - 1],
            front == Some((n - 1) as usize),
        );
    }
}

proof fn lemma_tabs_closed_sound(s: SessionView, bars: Bars, tabs: Seq<u64>, n: int)
    requires
        sound(s),
        0 <= n <= tabs.len(),
    ensures
        sound(tabs_closed(s, bars, tabs, n)),
    decreases n,
{
    if n > 0 {
        lemma_tabs_closed_sound(s, bars, tabs, n - 1);
        law_closing_a_tab_keeps_it_sound(tabs_closed(s, bars, tabs, n - 1), bars, tabs[n - 1]);
    }
}

proof fn lemma_space_back_sound(
    s: SessionView,
    w: WishesView,
    bars: Bars,
    h: SavedSpaceView,
    is_front: bool,
)
    requires
        sound(s),
        s.next_space < u64::MAX - 2,
        s.next_tab + 1 + h.tabs.len() < u64::MAX,
        s.next_pane + 1 + panes_used(h.tabs, h.tabs.len() as int) < u64::MAX,
    ensures
        sound(space_back(s, w, bars, h, is_front)),
{
    let cwd = dir_or(w.dirs, h.cwd, w.here);
    let id = s.next_space;
    law_a_new_space_keeps_it_sound(s, bars, w.shell, Some(h.name), cwd);
    let e = with_empty_space(s, Some(h.name), cwd);
    assert(e.spaces.last().id == id);
    let a = with_space(s, bars, w.shell, Some(h.name), cwd);
    let k = e.space_at(id);
    lemma_first_where(e.spaces, space_is(id));
    if k == e.spaces.len() {
        assert(!space_is(id)(e.spaces[e.spaces.len() - 1]));
    }
    assert(a.spaces.last().id == id);
    let auto = if a.has_space(id) {
        a.spaces[a.space_at(id)].tabs
    } else {
        Seq::empty()
    };
    let front = if is_front {
        h.focused_tab
    } else {
        None
    };
    let n = h.tabs.len() as int;
    lemma_tabs_back_sound(a, w, bars, id, cwd, h.tabs, front, n);
    lemma_tabs_closed_sound(
        tabs_back(a, w, bars, id, cwd, h.tabs, front, n),
        bars,
        auto,
        auto.len() as int,
    );
}

proof fn lemma_spaces_back_sound(
    s: SessionView,
    w: WishesView,
    bars: Bars,
    st: SavedStateView,
    n: int,
)
    requires
        sound(s),
        s.spaces.len() == 0,
        s.tabs.len() == 0,
        s.panes.len() == 0,
        saved_sound(st),
        0 <= n <= st.spaces.len(),
        s.next_space + st.spaces.len() < u64::MAX - 2,
        s.next_tab + all_tabs_used(st.spaces, st.spaces.len() as int) < u64::MAX,
        s.next_pane + all_panes_used(st.spaces, st.spaces.len() as int) < u64::MAX,
    ensures
        sound(spaces_back(s, w, bars, st, n)),
    decreases n,
{
    if n > 0 {
        lemma_spaces_back_sound(s, w, bars, st, n - 1);
        assert forall|i: int| 0 <= i < st.spaces.len() implies (#[trigger] st.spaces[i]).tabs.len()
            > 0 by {
            assert(saved_space_sound(st.spaces[i]));
        }
        lemma_spaces_back(s, w, bars, st, n - 1);
        lemma_all_used(st.spaces, st.spaces.len() as int, n);
        lemma_space_back_sound(
            spaces_back(s, w, bars, st, n - 1),
            w,
            bars,
            st.spaces[n - 1],
            st.focused_space == Some((n - 1) as usize),
        );
    }
}

/// What a restart brings back hangs together.
pub proof fn law_what_comes_back_is_sound(
    s: SessionView,
    w: WishesView,
    bars: Bars,
    st: SavedStateView,
)
    requires
        sound(s),
        s.spaces.len() == 0,
        s.tabs.len() == 0,
        s.panes.len() == 0,
        saved_sound(st),
        s.next_space + st.spaces.len() < u64::MAX - 2,
        s.next_tab + all_tabs_used(st.spaces, st.spaces.len() as int) < u64::MAX,
        s.next_pane + all_panes_used(st.spaces, st.spaces.len() as int) < u64::MAX,
    ensures
        sound(restored(s, w, bars, st)),
{
    let n = st.spaces.len() as int;
    lemma_spaces_back_sound(s, w, bars, st, n);
    let t = spaces_back(s, w, bars, st, n);
    if let Some(i) = st.focused_space {
        if (i as int) < t.spaces.len() {
            let id = t.spaces[i as int].id;
            law_stepping_keeps_it_sound(t, id, 0, 0);
            lemma_laid_out(space_focused(t, id).0, bars);
        } else {
            lemma_laid_out(t, bars);
        }
    } else {
        lemma_laid_out(t, bars);
    }
}

// -- taking over -------------------------------------------------------------

/// Nothing shares an id.
spec fn apart(s: SessionView) -> bool {
    &&& distinct(s.spaces, space_key())
    &&& distinct(s.tabs, tab_key())
    &&& distinct(s.panes, pane_key())
}

/// The last space with its first tab in front, where it has one.
spec fn fronted(s: SessionView) -> SessionView {
    let k = s.spaces.len() - 1;
    let tabs = s.spaces[k].tabs;
    SessionView {
        spaces: s.spaces.update(
            k,
            SpaceView {
                focused_tab: if tabs.len() > 0 {
                    Some(tabs[0])
                } else {
                    None
                },
                ..s.spaces[k]
            },
        ),
        ..s
    }
}

proof fn lemma_tab_in_hangs(
    st: ImportView,
    panes: Seq<HPane>,
    base: u64,
    c: int,
    space: u64,
    h: HTab,
    now: u64,
)
    requires
        apart(st.s),
        hangs(shape(fronted(st.s))),
        took(st, panes, base, c, now),
        building(st.s, space),
        c + h.tree.leaves().len() <= panes.len(),
        forall|i: int|
            0 <= i < h.tree.leaves().len() ==> #[trigger] h.tree.leaves()[i] == c + i,
        tab_sound(h),
        base + panes.len() < u64::MAX,
        st.s.next_tab < u64::MAX,
    ensures
        apart(tab_in(st, panes, space, h, now).s),
        hangs(shape(fronted(tab_in(st, panes, space, h, now).s))),
{
    crate::survival::lemma_tab(st, panes, base, c, space, h, now);
    let s = st.s;
    let r = tab_in(st, panes, space, h, now).s;
    let k = s.spaces.len() - 1;
    let a = fronted(s);
    let b = fronted(r);
    let new = r.tabs.last();
    let ids = run_of((base + c) as u64, h.tree.leaves().len());
    assert(r.tabs =~= s.tabs.push(new));
    assert(!keyed(s.tabs, tab_key()).contains_key(new.id)) by {
        if keyed(s.tabs, tab_key()).contains_key(new.id) {
            let i = lemma_keyed_where(s.tabs, tab_key(), new.id);
            assert(s.tabs[i].id < s.next_tab);
        }
    }
    lemma_keyed_push(s.tabs, tab_key(), new);
    let more = r.panes.skip(c);
    assert(r.panes =~= s.panes + more);
    assert forall|i: int, j: int| 0 <= i < j < r.panes.len() implies pane_key()(
        #[trigger] r.panes[i],
    ) != pane_key()(#[trigger] r.panes[j]) by {
        assert(came_over(r.panes[i], panes[i], base + i, now));
        assert(came_over(r.panes[j], panes[j], base + j, now));
    }
    lemma_keyed_more(s.panes, more, pane_key());
    lemma_keyed_update(s.spaces, space_key(), k, a.spaces[k]);
    lemma_keyed_update(s.spaces, space_key(), k, r.spaces[k]);
    lemma_keyed_update(r.spaces, space_key(), k, b.spaces[k]);
    assert(b.spaces =~= a.spaces.update(k, b.spaces[k]));
    lemma_keyed_update(a.spaces, space_key(), k, b.spaces[k]);
    lemma_keyed(a.spaces, space_key(), k);
    let f = shape(a);
    let g = shape(b);
    assert forall|y: u64| #[trigger] ids.contains(y) implies g.panes.contains_key(y)
        && g.panes[y].id == y && g.panes[y].tab == new.id && g.panes[y].space == space
        && !f.panes.contains_key(y) by {
        let j = choose|j: int| 0 <= j < ids.len() && ids[j] == y;
        assert(r.panes[c + j].id == ids[j]);
        assert(more[j] == r.panes[c + j]);
        assert(pane_key()(more[j]) == y);
        if f.panes.contains_key(y) {
            let i = lemma_keyed_where(s.panes, pane_key(), y);
            assert(came_over(s.panes[i], panes[i], base + i, now));
        }
    }
    assert forall|y: u64| #[trigger] g.panes.contains_key(y) && !f.panes.contains_key(y) implies
        ids.contains(y) by {
        let j = choose|j: int| 0 <= j < more.len() && pane_key()(#[trigger] more[j]) == y;
        assert(more[j] == r.panes[c + j]);
        assert(ids[j] == y);
    }
    let sp = b.spaces[k];
    assert(sp.tabs[0] == sp.tabs[0]);
    assert(sp.tabs.contains(sp.tabs[0]));
    lemma_hangs_with_tab(f, g, space, new, ids, sp);
}

proof fn lemma_tabs_in_hangs(
    st: ImportView,
    panes: Seq<HPane>,
    base: u64,
    c: int,
    space: u64,
    tabs: Seq<HTab>,
    n: int,
    now: u64,
)
    requires
        apart(st.s),
        hangs(shape(fronted(st.s))),
        took(st, panes, base, c, now),
        building(st.s, space),
        st.s.spaces.last().tabs.len() == 0,
        0 <= n <= tabs.len(),
        c + tab_numbers(tabs, tabs.len() as int).len() <= panes.len(),
        forall|i: int|
            0 <= i < tab_numbers(tabs, tabs.len() as int).len() ==> #[trigger] tab_numbers(
                tabs,
                tabs.len() as int,
            )[i] == c + i,
        forall|t: int| 0 <= t < tabs.len() ==> tab_sound(#[trigger] tabs[t]),
        base + panes.len() < u64::MAX,
        st.s.next_tab + tabs.len() < u64::MAX,
    ensures
        apart(tabs_in(st, panes, space, tabs, n, now).s),
        hangs(shape(fronted(tabs_in(st, panes, space, tabs, n, now).s))),
    decreases n,
{
    if n > 0 {
        lemma_tabs_in_hangs(st, panes, base, c, space, tabs, n - 1, now);
        crate::survival::lemma_tabs(st, panes, base, c, space, tabs, n - 1, now);
        let b = tabs_in(st, panes, space, tabs, n - 1, now);
        let h = tabs[n - 1];
        let before = tab_numbers(tabs, n - 1).len();
        let ls = h.tree.leaves();
        lemma_tab_numbers(tabs, tabs.len() as int, n);
        let here = tab_numbers(tabs, n);
        assert(here.len() == before + ls.len());
        assert forall|i: int| 0 <= i < ls.len() implies #[trigger] ls[i] == c + before + i by {
            assert(here[before + i] == ls[i]);
            assert(tab_numbers(tabs, tabs.len() as int)[before + i] == here[before + i]);
        }
        lemma_tab_in_hangs(b, panes, base, c + before, space, h, now);
    }
}

proof fn lemma_spaces_in_hangs(st: ImportView, m: Manifest, n: int, now: u64)
    requires
        manifest_sound(m),
        took(st, m.panes@, st.s.next_pane, 0, now),
        st.s.spaces.len() == 0,
        st.s.tabs.len() == 0,
        0 <= n <= m.spaces@.len(),
        st.s.next_pane + m.panes@.len() < u64::MAX,
        st.s.next_tab + tabs_before(m.spaces@, m.spaces@.len() as int) < u64::MAX,
        st.s.next_space + m.spaces@.len() < u64::MAX - 2,
    ensures
        apart(spaces_in(st, m.panes@, m.spaces@, n, now).s),
        hangs(shape(spaces_in(st, m.panes@, m.spaces@, n, now).s)),
    decreases n,
{
    let base = st.s.next_pane;
    let sb = st.s.next_space;
    let tb = st.s.next_tab;
    let order = run_of(base, m.panes@.len());
    let spaces = m.spaces@;
    let panes = m.panes@;
    if n > 0 {
        lemma_spaces_in_hangs(st, m, n - 1, now);
        crate::survival::lemma_spaces(st, m, n - 1, now);
        crate::survival::lemma_spaces(st, m, n, now);
        let b = spaces_in(st, panes, spaces, n - 1, now);
        let h = spaces[n - 1];
        assert(space_sound(h));
        let c = space_numbers(spaces, n - 1).len() as int;
        let id = b.s.next_space;
        let opened = ImportView { s: with_bare_space(b.s, h.name@, h.cwd@), ..b };
        let new = opened.s.spaces.last();
        assert(opened.s.spaces =~= b.s.spaces.push(new));
        assert(!keyed(b.s.spaces, space_key()).contains_key(id)) by {
            if keyed(b.s.spaces, space_key()).contains_key(id) {
                let i = lemma_keyed_where(b.s.spaces, space_key(), id);
                assert(space_stands(b.s.spaces[i], sb + i, spaces[i], tb + tabs_before(spaces, i)));
            }
        }
        lemma_keyed_push(b.s.spaces, space_key(), new);
        assert(fronted(opened.s).spaces =~= opened.s.spaces);
        lemma_hangs_bare_space(shape(b.s), new);
        assert(shape(fronted(opened.s)) == (Shape {
            spaces: shape(b.s).spaces.insert(id, new),
            ..shape(b.s)
        }));
        assert(took(opened, panes, base, c, now));
        assert forall|i: int| 0 <= i < opened.s.spaces.len() - 1 implies (
        #[trigger] opened.s.spaces[i]).id != id by {
            assert(space_stands(b.s.spaces[i], sb + i, spaces[i], tb + tabs_before(spaces, i)));
        }
        assert forall|i: int| 0 <= i < opened.s.tabs.len() implies (
        #[trigger] opened.s.tabs[i]).id < opened.s.next_tab by {
            lemma_tab_ids(b.s, spaces, n - 1, sb, tb, order, i);
        }
        let tabs = h.tabs@;
        let len = tabs.len() as int;
        lemma_space_numbers(spaces, spaces.len() as int, n);
        let here = space_numbers(spaces, n);
        let mine = tab_numbers(tabs, len);
        assert forall|i: int| 0 <= i < mine.len() implies #[trigger] mine[i] == c + i by {
            assert(here[c + i] == mine[i]);
            assert(space_numbers(spaces, spaces.len() as int)[c + i] == here[c + i]);
        }
        lemma_tabs_before(spaces, spaces.len() as int, n);
        lemma_tabs_in_hangs(opened, panes, base, c, id, tabs, len, now);
        crate::survival::lemma_tabs(opened, panes, base, c, id, tabs, len, now);
        let t = tabs_in(opened, panes, id, tabs, len, now);
        let k = t.s.spaces.len() - 1;
        assert forall|i: int| 0 <= i < k implies !space_is(id)(#[trigger] t.s.spaces[i]) by {
            assert(t.s.spaces[i] == opened.s.spaces[i]);
        }
        lemma_first_where_is(t.s.spaces, space_is(id), k);
        let r = space_in(b, panes, h, now);
        let a = fronted(t.s);
        let sp = r.s.spaces[k];
        assert(r.s.spaces =~= a.spaces.update(k, sp));
        lemma_keyed_update(t.s.spaces, space_key(), k, a.spaces[k]);
        lemma_keyed_update(a.spaces, space_key(), k, sp);
        lemma_keyed(a.spaces, space_key(), k);
        if let Some(x) = h.focused_tab {
            assert(sp.tabs.contains(sp.tabs[x as int]));
        }
        lemma_hangs_refocused(shape(a), sp);
    } else {
        assert(shape(st.s).panes =~= Map::<u64, PaneView>::empty());
    }
}

/// A space without tabs comes in.
proof fn lemma_hangs_bare_space(h: Shape, new: SpaceView)
    requires
        hangs(h),
        !h.spaces.contains_key(new.id),
        new.tabs.len() == 0,
        new.focused_tab is None,
    ensures
        hangs(Shape { spaces: h.spaces.insert(new.id, new), ..h }),
{
    let g = Shape { spaces: h.spaces.insert(new.id, new), ..h };
    assert forall|x: u64| #[trigger] g.spaces.contains_key(x) implies space_hangs(g, x) by {
        if x != new.id {
            assert(h.spaces.contains_key(x));
            assert(space_hangs(h, x));
        }
    }
    assert forall|x: u64| #[trigger] g.tabs.contains_key(x) implies tab_hangs(g, x) by {
        assert(h.tabs.contains_key(x));
        assert(tab_hangs(h, x));
    }
    assert forall|x: u64| #[trigger] g.panes.contains_key(x) implies pane_hangs(g, x) by {
        assert(h.panes.contains_key(x));
        assert(pane_hangs(h, x));
    }
}

/// Another tab of a space comes in front.
proof fn lemma_hangs_refocused(h: Shape, sp: SpaceView)
    requires
        hangs(h),
        h.spaces.contains_key(sp.id),
        sp.tabs == h.spaces[sp.id].tabs,
        match sp.focused_tab {
            Some(t) => sp.tabs.contains(t),
            None => sp.tabs.len() == 0,
        },
    ensures
        hangs(Shape { spaces: h.spaces.insert(sp.id, sp), ..h }),
{
    let g = Shape { spaces: h.spaces.insert(sp.id, sp), ..h };
    assert(space_hangs(h, sp.id));
    assert forall|x: u64| #[trigger] g.spaces.contains_key(x) implies space_hangs(g, x) by {
        assert(h.spaces.contains_key(x));
        assert(space_hangs(h, x));
    }
    assert forall|x: u64| #[trigger] g.tabs.contains_key(x) implies tab_hangs(g, x) by {
        assert(h.tabs.contains_key(x));
        assert(tab_hangs(h, x));
    }
    assert forall|x: u64| #[trigger] g.panes.contains_key(x) implies pane_hangs(g, x) by {
        assert(h.panes.contains_key(x));
        assert(pane_hangs(h, x));
    }
}

/// What is taken over hangs together.
pub proof fn law_what_is_taken_over_is_sound(
    s: SessionView,
    bars: Bars,
    m: Manifest,
    fds: nat,
    now: u64,
)
    requires
        sound(s),
        s.spaces.len() == 0,
        s.tabs.len() == 0,
        s.panes.len() == 0,
        manifest_sound(m),
        m.panes@.len() <= fds,
        s.next_pane + m.panes@.len() < u64::MAX,
        s.next_tab + tabs_before(m.spaces@, m.spaces@.len() as int) < u64::MAX,
        s.next_space + m.spaces@.len() < u64::MAX - 2,
    ensures
        sound(imported(s, bars, m, fds, now).0),
{
    let st = import_start(s, m, fds);
    let spaces = m.spaces@;
    let n = spaces.len() as int;
    let sb = s.next_space;
    let tb = s.next_tab;
    let order = run_of(s.next_pane, m.panes@.len());
    assert(took(st, m.panes@, s.next_pane, 0, now));
    crate::survival::lemma_spaces(st, m, n, now);
    lemma_spaces_in_hangs(st, m, n, now);
    let r = spaces_in(st, m.panes@, spaces, n, now);
    let t = imported(s, bars, m, fds, now).0;
    assert(t.spaces == r.s.spaces && t.tabs == r.s.tabs && t.panes == r.s.panes);
    assert(shape(t) == shape(r.s));
    assert forall|i: int| 0 <= i < n implies (#[trigger] t.spaces[i]).id == sb + i
        && t.spaces[i].name == spaces[i].name@ && t.spaces[i].tabs.len()
        == spaces[i].tabs@.len() by {
        assert(space_stands(r.s.spaces[i], sb + i, spaces[i], tb + tabs_before(spaces, i)));
    }
    assert forall|i: int| 0 <= i < n implies (#[trigger] t.spaces[i]).tabs.len() < t.next_tab by {
        lemma_tabs_before(spaces, n, i + 1);
    }
    assert forall|k: int| 0 <= k < t.tabs.len() implies (#[trigger] t.tabs[k]).id == tb + k by {
        lemma_tab_ids(r.s, spaces, n, sb, tb, order, k);
    }
    assert forall|j: int| 0 <= j < t.panes.len() implies (#[trigger] t.panes[j]).id
        == s.next_pane + j by {
        assert(came_over(r.s.panes[j], m.panes@[j], s.next_pane + j, now));
    }
    assert(t.wf());
    if let Some(f) = t.focused_space {
        let i = f - sb;
        assert(t.spaces[i].id == f);
        lemma_distinct(t);
        lemma_keyed(t.spaces, space_key(), i);
        lemma_space(t, f);
    }
}

} // verus!
