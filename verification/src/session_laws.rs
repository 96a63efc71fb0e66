//! What the session promises of spaces, tabs and panes: what is in front after each step, what a
//! new one is and what becomes of the rest when one goes.

use crate::commands::{commanded, Cmd, Facts, Level, PaneAct};
use crate::layout::{
    law_a_new_pane_stands_beside_its_neighbour, law_closing_keeps_the_others_in_order, leaving_out,
    Axis, Node, HALF,
};
use crate::proto::{AgentState, Dir, Rect, ViewState};
use crate::seqs::{first_where, lemma_first_where, lemma_first_where_is, lemma_pick_sound};
use crate::state::{
    attention, base_name, chrome_of, dead, first_free, framed, id_is, lemma_unique_name, moved_to,
    named, next_to_look_at, numbered, pane_closed, pane_focused, pane_is, panes_in_order, rects_of,
    resized, space_closed, space_is, space_renamed, space_without_tab, splitting_in, tab_is,
    tab_renamed, taken, unique_name, unzoomed, wants_you, with_empty_space, with_space, with_tab,
    Bars, EffectView, PaneView, SessionErrorView, SessionView, SpaceView, TabView, spawned,
};
use crate::text::{decimal, opt_text, trimmed};
use vstd::prelude::*;

verus! {

proof fn lemma_space_at(s: SessionView, i: int)
    requires
        s.wf(),
        0 <= i < s.spaces.len(),
    ensures
        s.space_at(s.spaces[i].id) == i,
{
    let id = s.spaces[i].id;
    assert forall|j: int| 0 <= j < i implies !space_is(id)(#[trigger] s.spaces[j]) by {
        assert(s.spaces[j].id < s.spaces[i].id);
    }
    lemma_first_where_is(s.spaces, space_is(id), i);
}

proof fn lemma_tab_at(s: SessionView, i: int)
    requires
        s.wf(),
        0 <= i < s.tabs.len(),
    ensures
        s.tab_at(s.tabs[i].id) == i,
{
    let id = s.tabs[i].id;
    assert forall|j: int| 0 <= j < i implies !tab_is(id)(#[trigger] s.tabs[j]) by {
        assert(s.tabs[j].id < s.tabs[i].id);
    }
    lemma_first_where_is(s.tabs, tab_is(id), i);
}

proof fn lemma_pane_at(s: SessionView, i: int)
    requires
        s.wf(),
        0 <= i < s.panes.len(),
    ensures
        s.pane_at(s.panes[i].id) == i,
{
    let id = s.panes[i].id;
    assert forall|j: int| 0 <= j < i implies !pane_is(id)(#[trigger] s.panes[j]) by {
        assert(s.panes[j].id < s.panes[i].id);
    }
    lemma_first_where_is(s.panes, pane_is(id), i);
}

// -- names -------------------------------------------------------------------

/// A space has the name it asks for where no other has it, and otherwise that with `-2` behind it,
/// or the next number that is free.
pub proof fn law_a_taken_name_gets_a_number(ss: Seq<SpaceView>, base: Seq<char>, n: nat)
    requires
        2 <= n,
    ensures
        !taken(ss, base) ==> unique_name(ss, base) == base,
        taken(ss, base) && !taken(ss, base + "-"@ + decimal(n)) && (forall|m: nat|
            2 <= m < n ==> taken(ss, #[trigger] numbered(base, m))) ==> unique_name(ss, base) == base
            + "-"@ + decimal(n),
{
    if !taken(ss, base) {
        lemma_unique_name(ss, base, base);
    } else if !taken(ss, numbered(base, n)) && (forall|m: nat|
        2 <= m < n ==> taken(ss, #[trigger] numbered(base, m))) {
        assert(first_free(ss, base, n));
        lemma_unique_name(ss, base, numbered(base, n));
    }
}

/// A name is taken where a space has it.
pub proof fn law_a_name_is_taken_by_a_space(ss: Seq<SpaceView>, name: Seq<char>)
    ensures
        taken(ss, name) <==> exists|i: int| 0 <= i < ss.len() && (#[trigger] ss[i]).name == name,
{
}

// -- making ------------------------------------------------------------------

/// A new tab is the last of its space and in front of it. It is called what was asked, or by its
/// number; in it is one pane, in front, that runs the shell where the space is.
pub proof fn law_a_new_tab_runs_a_shell_where_its_space_is(
    s: SessionView,
    bars: Bars,
    shell: Seq<char>,
    i: int,
    name: Option<Seq<char>>,
)
    requires
        s.wf(),
        s.has_ids(),
        0 <= i < s.spaces.len(),
    ensures
        ({
            let (t, r) = with_tab(s, bars, shell, s.spaces[i].id, name);
            let tab = t.tabs.last();
            let pane = t.panes.last();
            &&& r == Ok::<u64, SessionErrorView>(s.next_tab)
            &&& t.tabs.drop_last() == s.tabs && t.panes.drop_last() == s.panes
            &&& tab.id == s.next_tab && tab.space == s.spaces[i].id
            &&& name is Some ==> tab.name == name->Some_0
            &&& name is None ==> tab.name == decimal(s.spaces[i].tabs.len() + 1)
            &&& tab.focused_pane == Some(s.next_pane)
            &&& tab.layout.order() == seq![s.next_pane]
            &&& pane.id == s.next_pane && pane.tab == s.next_tab && pane.space == s.spaces[i].id
            &&& pane.cmd == shell && pane.cwd == s.spaces[i].cwd && pane.name is None
            &&& !pane.life.exited && pane.life.agent is None && pane.life.spawned_by is None
            &&& t.spaces.len() == s.spaces.len()
            &&& t.spaces[i].tabs == s.spaces[i].tabs.push(s.next_tab)
            &&& t.spaces[i].focused_tab == Some(s.next_tab)
            &&& t.spaces[i].name == s.spaces[i].name && t.spaces[i].cwd == s.spaces[i].cwd
            &&& forall|j: int|
                0 <= j < s.spaces.len() && j != i ==> #[trigger] t.spaces[j] == s.spaces[j]
            &&& t.effects == s.effects.push(
                EffectView::Spawn { pane: s.next_pane, cmd: shell, cwd: s.spaces[i].cwd, front: t.effects.last()->front },
            )
            &&& t.focused_space == s.focused_space
        }),
{
    lemma_space_at(s, i);
    let (t, r) = with_tab(s, bars, shell, s.spaces[i].id, name);
    assert(t.tabs.drop_last() =~= s.tabs);
    assert(t.panes.drop_last() =~= s.panes);
    assert(Node::Leaf(s.next_pane).leaves() =~= seq![s.next_pane]);
}

/// A tab cannot be made in a space that is not there.
pub proof fn law_no_tab_without_a_space(
    s: SessionView,
    bars: Bars,
    shell: Seq<char>,
    space: u64,
    name: Option<Seq<char>>,
)
    requires
        forall|i: int| 0 <= i < s.spaces.len() ==> (#[trigger] s.spaces[i]).id != space,
    ensures
        with_tab(s, bars, shell, space, name) == (
            s,
            Err::<u64, SessionErrorView>(SessionErrorView::NoSuchSpace),
        ),
{
    lemma_first_where(s.spaces, space_is(space));
}

/// A new space is in front, where it was asked for, under the name it asks for or its directory's;
/// it has one tab, called 1.
pub proof fn law_a_new_space_is_where_it_was_asked(
    s: SessionView,
    bars: Bars,
    shell: Seq<char>,
    name: Seq<char>,
    cwd: Seq<char>,
)
    requires
        s.wf(),
        s.has_ids(),
        s.has_space_ids(),
    ensures
        ({
            let t = with_space(s, bars, shell, Some(name), cwd);
            let sp = t.spaces.last();
            &&& t.spaces.drop_last() == s.spaces
            &&& t.focused_space == Some(s.next_space)
            &&& sp.id == s.next_space && sp.cwd == cwd && sp.tabs == seq![s.next_tab]
            &&& sp.focused_tab == Some(s.next_tab)
            &&& sp.name == unique_name(s.spaces, name)
            &&& t.tabs.drop_last() == s.tabs && t.tabs.last().name == decimal(1)
            &&& t.panes.drop_last() == s.panes
            &&& t.panes.last().cmd == shell && t.panes.last().cwd == cwd && t.panes.last().space
                == s.next_space
        }),
{
    let e = with_empty_space(s, Some(name), cwd);
    let k = s.spaces.len() as int;
    let t = with_space(s, bars, shell, Some(name), cwd);
    assert forall|j: int| 0 <= j < k implies !space_is(s.next_space)(#[trigger] e.spaces[j]) by {
        assert(e.spaces[j] == s.spaces[j]);
    }
    lemma_first_where_is(e.spaces, space_is(s.next_space), k);
    assert(t.spaces.drop_last() =~= s.spaces);
    assert(t.tabs.drop_last() =~= s.tabs);
    assert(t.panes.drop_last() =~= s.panes);
    assert(Seq::<u64>::empty().push(s.next_tab) =~= seq![s.next_tab]);
}

/// Without a name a space is called after its directory.
pub proof fn law_a_space_is_called_after_its_directory(id: u64, name: Seq<char>, cwd: Seq<char>)
    ensures
        base_name(id, Some(name), cwd) == name,
        crate::paths::file_name(cwd) matches Some(f) ==> base_name(id, None, cwd) == f,
        crate::paths::file_name(cwd) is None ==> base_name(id, None, cwd) == "space"@ + decimal(
            id as nat,
        ),
{
}

/// A split puts a new pane beside another: in its space and tab, where it is, running what was
/// asked or else the shell, and in front. No other pane changes, and nothing is zoomed.
pub proof fn law_a_split_puts_a_new_pane_beside(
    s: SessionView,
    bars: Bars,
    shell: Seq<char>,
    i: int,
    dir: Dir,
    cmd: Option<Seq<char>>,
    cwd: Option<Seq<char>>,
    k: int,
    at: int,
)
    requires
        s.wf(),
        s.has_ids(),
        0 <= i < s.panes.len(),
        0 <= k < s.tabs.len(),
        s.tabs[k].id == s.panes[i].tab,
        s.tabs[k].layout.tree is Some,
        s.tabs[k].layout.order().no_duplicates(),
        0 <= at < s.tabs[k].layout.order().len(),
        s.tabs[k].layout.order()[at] == s.panes[i].id,
    ensures
        ({
            let beside = s.panes[i];
            let (t, r) = splitting_in(s, bars, shell, Some(beside.id), dir, cmd, cwd, true);
            let new = t.panes.last();
            &&& r == Ok::<u64, SessionErrorView>(s.next_pane)
            &&& t.panes.drop_last() == s.panes
            &&& new.id == s.next_pane && new.tab == beside.tab && new.space == beside.space
            &&& cmd is Some ==> new.cmd == cmd->Some_0
            &&& cmd is None ==> new.cmd == shell
            &&& cwd is Some ==> new.cwd == cwd->Some_0
            &&& cwd is None ==> new.cwd == beside.cwd
            &&& new.name is None && !new.life.exited && new.life.spawned_by is None
            &&& t.tabs.len() == s.tabs.len()
            &&& t.tabs[k].focused_pane == Some(s.next_pane)
            &&& t.tabs[k].layout.order() == s.tabs[k].layout.order().insert(
                if dir == Dir::Left || dir == Dir::Up {
                    at
                } else {
                    at + 1
                },
                s.next_pane,
            )
            &&& forall|j: int| 0 <= j < s.tabs.len() && j != k ==> #[trigger] t.tabs[j] == s.tabs[j]
            &&& t.spaces == s.spaces && t.focused_space == s.focused_space
            &&& t.view.zoom is None
            &&& t.effects.last() is Spawn && t.effects.last()->Spawn_pane == s.next_pane
                && t.effects.last()->cmd == new.cmd && t.effects.last()->cwd == new.cwd
        }),
{
    let beside = s.panes[i];
    let (t, r) = splitting_in(s, bars, shell, Some(beside.id), dir, cmd, cwd, true);
    lemma_pane_at(s, i);
    lemma_tab_at(s, k);
    let u = unzoomed(s, bars);
    assert(u.tabs == s.tabs);
    assert(t.panes.drop_last() =~= s.panes);
    law_a_new_pane_stands_beside_its_neighbour(
        s.tabs[k].layout.tree->Some_0,
        beside.id,
        dir,
        s.next_pane,
        at,
    );
}

/// To the left and right a split stands side by side, above and below one over the other; each has
/// half.
pub proof fn law_a_split_has_its_way(target: u64, new: u64)
    ensures
        Node::Leaf(target).divided(target, Dir::Right, new) == (Node::Split {
            axis: Axis::Horizontal,
            ratio: HALF,
            a: Box::new(Node::Leaf(target)),
            b: Box::new(Node::Leaf(new)),
        }),
        Node::Leaf(target).divided(target, Dir::Down, new) == (Node::Split {
            axis: Axis::Vertical,
            ratio: HALF,
            a: Box::new(Node::Leaf(target)),
            b: Box::new(Node::Leaf(new)),
        }),
        Node::Leaf(target).divided(target, Dir::Left, new) == (Node::Split {
            axis: Axis::Horizontal,
            ratio: HALF,
            a: Box::new(Node::Leaf(new)),
            b: Box::new(Node::Leaf(target)),
        }),
        Node::Leaf(target).divided(target, Dir::Up, new) == (Node::Split {
            axis: Axis::Vertical,
            ratio: HALF,
            a: Box::new(Node::Leaf(new)),
            b: Box::new(Node::Leaf(target)),
        }),
        HALF == 0x3f00_0000u32,
{
}

/// Where there is no room, or nothing to split, there is no new pane.
pub proof fn law_a_split_needs_a_pane_and_room(
    s: SessionView,
    bars: Bars,
    shell: Seq<char>,
    target: Option<u64>,
    dir: Dir,
    cmd: Option<Seq<char>>,
    cwd: Option<Seq<char>>,
)
    ensures
        splitting_in(s, bars, shell, target, dir, cmd, cwd, false).1 is Err,
        splitting_in(s, bars, shell, target, dir, cmd, cwd, false).0.panes == s.panes,
        splitting_in(s, bars, shell, target, dir, cmd, cwd, false).0.tabs == s.tabs,
        target is Some && !s.has_pane(target->Some_0) ==> splitting_in(
            s,
            bars,
            shell,
            target,
            dir,
            cmd,
            cwd,
            true,
        ) == (s, Err::<u64, SessionErrorView>(SessionErrorView::NoSuchPane)),
        target is None && s.front_pane() is None ==> splitting_in(
            s,
            bars,
            shell,
            target,
            dir,
            cmd,
            cwd,
            true,
        ) == (s, Err::<u64, SessionErrorView>(SessionErrorView::NoPane)),
        target is None && s.front_pane() is Some ==> splitting_in(
            s,
            bars,
            shell,
            None,
            dir,
            cmd,
            cwd,
            true,
        ) == splitting_in(s, bars, shell, s.front_pane(), dir, cmd, cwd, true),
{
}

// -- closing -----------------------------------------------------------------

/// Closing one of several panes takes it out and stops its program. The others stay in their order;
/// where it was in front the first of them is, and where it was zoomed nothing is.
pub proof fn law_closing_one_of_several_panes(s: SessionView, bars: Bars, i: int, k: int)
    requires
        s.wf(),
        0 <= i < s.panes.len(),
        0 <= k < s.tabs.len(),
        s.tabs[k].id == s.panes[i].tab,
        s.tabs[k].layout.tree is Some,
        leaving_out(s.tabs[k].layout.order(), s.panes[i].id).len() > 0,
    ensures
        ({
            let pane = s.panes[i].id;
            let t = pane_closed(s, bars, pane);
            let left = leaving_out(s.tabs[k].layout.order(), pane);
            &&& t.panes == s.panes.remove(i)
            &&& t.effects == s.effects.push(EffectView::Kill(pane))
            &&& t.tabs.len() == s.tabs.len()
            &&& t.tabs[k].layout.order() == left
            &&& t.tabs[k].id == s.tabs[k].id && t.tabs[k].name == s.tabs[k].name
            &&& s.tabs[k].focused_pane == Some(pane) ==> t.tabs[k].focused_pane == Some(left[0])
            &&& s.tabs[k].focused_pane != Some(pane) ==> t.tabs[k].focused_pane
                == s.tabs[k].focused_pane
            &&& forall|j: int| 0 <= j < s.tabs.len() && j != k ==> #[trigger] t.tabs[j] == s.tabs[j]
            &&& t.spaces == s.spaces && t.focused_space == s.focused_space
            &&& s.view.zoom == Some(pane) ==> t.view.zoom is None
            &&& s.view.zoom != Some(pane) ==> t.view.zoom == s.view.zoom
        }),
{
    let pane = s.panes[i].id;
    lemma_pane_at(s, i);
    lemma_tab_at(s, k);
    law_closing_keeps_the_others_in_order(s.tabs[k].layout.tree->Some_0, pane);
    let tree = s.tabs[k].layout.tree->Some_0;
    assert(tree.without(pane) is Some);
}

/// What is left out is gone, and the rest is in its order.
pub proof fn law_leaving_out_one(s: Seq<u64>, x: u64, t: u64)
    ensures
        !leaving_out(s, x).contains(x),
        leaving_out(s.push(t), x) == (if t == x {
            leaving_out(s, x)
        } else {
            leaving_out(s, x).push(t)
        }),
    decreases s.len(),
{
    assert(s.push(t).drop_last() =~= s);
    if s.len() > 0 {
        law_leaving_out_one(s.drop_last(), x, t);
        let r = leaving_out(s.drop_last(), x);
        let all = leaving_out(s, x);
        if all.contains(x) {
            let i = choose|i: int| 0 <= i < all.len() && all[i] == x;
            if i < r.len() {
                assert(r[i] == x);
            }
        }
    }
}

/// Closing the tab in front of a space puts the one behind it in front, or the one before it where
/// it was the last; closing another changes nothing about that.
pub proof fn law_the_next_tab_comes_to_the_front(sp: SpaceView, at: int)
    requires
        0 <= at < sp.tabs.len(),
        sp.tabs.no_duplicates(),
    ensures
        ({
            let tab = sp.tabs[at];
            let after = space_without_tab(sp, tab);
            &&& after.tabs == sp.tabs.remove(at)
            &&& after.id == sp.id && after.name == sp.name && after.cwd == sp.cwd
            &&& sp.focused_tab != Some(tab) ==> after.focused_tab == sp.focused_tab
            &&& sp.focused_tab == Some(tab) && at + 1 < sp.tabs.len() ==> after.focused_tab == Some(
                sp.tabs[at + 1],
            )
            &&& sp.focused_tab == Some(tab) && at + 1 == sp.tabs.len() && at > 0
                ==> after.focused_tab == Some(sp.tabs[at - 1])
            &&& sp.focused_tab == Some(tab) && sp.tabs.len() == 1 ==> after.focused_tab is None
        }),
{
    let tab = sp.tabs[at];
    lemma_left_out_is_removed(sp.tabs, at);
    assert forall|j: int| 0 <= j < at implies !id_is(tab)(#[trigger] sp.tabs[j]) by {
        assert(sp.tabs[j] != sp.tabs[at]);
    }
    lemma_first_where_is(sp.tabs, id_is(tab), at);
    sp.tabs.remove_ensures(at);
}

proof fn lemma_left_out_is_removed(s: Seq<u64>, at: int)
    requires
        0 <= at < s.len(),
        s.no_duplicates(),
    ensures
        leaving_out(s, s[at]) == s.remove(at),
    decreases s.len(),
{
    let x = s[at];
    let t = s.drop_last();
    assert(t.no_duplicates()) by {
        assert forall|i: int, j: int| 0 <= i < t.len() && 0 <= j < t.len() && i != j implies t[i]
            != t[j] by {
            assert(t[i] == s[i] && t[j] == s[j]);
        }
    }
    if at == s.len() - 1 {
        lemma_nothing_left_out(t, x);
        assert(s.remove(at) =~= t);
    } else {
        assert(t[at] == x);
        lemma_left_out_is_removed(t, at);
        assert(s.last() != x);
        assert(s.remove(at) =~= t.remove(at).push(s.last()));
    }
}

proof fn lemma_nothing_left_out(s: Seq<u64>, x: u64)
    requires
        forall|i: int| 0 <= i < s.len() ==> #[trigger] s[i] != x,
    ensures
        leaving_out(s, x) == s,
    decreases s.len(),
{
    if s.len() > 0 {
        assert(s[s.len() - 1] != x);
        let t = s.drop_last();
        assert forall|i: int| 0 <= i < t.len() implies #[trigger] t[i] != x by {
            assert(t[i] == s[i]);
        }
        lemma_nothing_left_out(t, x);
        assert(t.push(s.last()) =~= s);
    }
}

/// Closing the space in front puts the one behind it in front, or the one before it where it was
/// the last; closing another changes nothing about that. Its tabs and panes go with it.
pub proof fn law_the_next_space_comes_to_the_front(s: SessionView, bars: Bars, i: int)
    requires
        s.wf(),
        0 <= i < s.spaces.len(),
    ensures
        ({
            let id = s.spaces[i].id;
            let t = space_closed(s, bars, id);
            &&& t.spaces == s.spaces.remove(i)
            &&& s.focused_space != Some(id) ==> t.focused_space == s.focused_space
            &&& s.focused_space == Some(id) && i + 1 < s.spaces.len() ==> t.focused_space == Some(
                s.spaces[i + 1].id,
            )
            &&& s.focused_space == Some(id) && i + 1 == s.spaces.len() && i > 0 ==> t.focused_space
                == Some(s.spaces[i - 1].id)
            &&& s.focused_space == Some(id) && s.spaces.len() == 1 ==> t.focused_space is None
        }),
{
    lemma_space_at(s, i);
    s.spaces.remove_ensures(i);
}

/// A pane that has ended is reaped, and no other.
pub proof fn law_only_what_ended_is_reaped(ps: Seq<PaneView>, k: int) -> (i: int)
    requires
        0 <= k < dead(ps).len(),
    ensures
        0 <= i < ps.len(),
        ps[i].id == dead(ps)[k],
        ps[i].life.exited,
{
    lemma_pick_sound(ps, |p: PaneView| p.life.exited, |p: PaneView| p.id, k)
}

// -- going -------------------------------------------------------------------

/// The next space is the one behind the one in front, and the first behind the last; the previous
/// one the other way round.
pub proof fn law_spaces_are_stepped_through_in_order(
    s: SessionView,
    bars: Bars,
    shell: Seq<char>,
    facts: Facts,
    i: int,
)
    requires
        s.wf(),
        0 <= i < s.spaces.len(),
        s.focused_space == Some(s.spaces[i].id),
    ensures
        ({
            let n = s.spaces.len();
            let next = commanded(s, bars, shell, Cmd::NextSpace, facts).0;
            let prev = commanded(s, bars, shell, Cmd::PrevSpace, facts).0;
            &&& next.spaces == s.spaces && prev.spaces == s.spaces
            &&& i + 1 < n ==> next.focused_space == Some(s.spaces[i + 1].id)
            &&& i + 1 == n ==> next.focused_space == Some(s.spaces[0].id)
            &&& i > 0 ==> prev.focused_space == Some(s.spaces[i - 1].id)
            &&& i == 0 ==> prev.focused_space == Some(s.spaces[n - 1].id)
        }),
{
    lemma_space_at(s, i);
    lemma_steps(i, s.spaces.len() as int);
}

proof fn lemma_steps(i: int, n: int)
    requires
        0 <= i < n,
    ensures
        i + 1 < n ==> (i + 1) % n == i + 1,
        i + 1 == n ==> (i + 1) % n == 0,
        i > 0 ==> (i - 1) % n == i - 1,
        i == 0 ==> (i - 1) % n == n - 1,
{
    if i + 1 < n {
        vstd::arithmetic::div_mod::lemma_small_mod((i + 1) as nat, n as nat);
    } else {
        vstd::arithmetic::div_mod::lemma_mod_self_0(n);
    }
    if i > 0 {
        vstd::arithmetic::div_mod::lemma_small_mod((i - 1) as nat, n as nat);
    } else {
        vstd::arithmetic::div_mod::lemma_fundamental_div_mod_converse(-1, n, -1, n - 1);
    }
}

/// And so the tabs of the space in front: the next is the one behind, and the first behind the last.
#[verifier::spinoff_prover]
#[verifier::rlimit(40)]
pub proof fn law_the_next_tab_is_the_one_behind(
    s: SessionView,
    bars: Bars,
    shell: Seq<char>,
    facts: Facts,
    i: int,
    at: int,
)
    requires
        s.wf(),
        0 <= i < s.spaces.len(),
        s.focused_space == Some(s.spaces[i].id),
        s.spaces[i].tabs.no_duplicates(),
        0 <= at < s.spaces[i].tabs.len(),
        s.spaces[i].focused_tab == Some(s.spaces[i].tabs[at]),
    ensures
        ({
            let tabs = s.spaces[i].tabs;
            let next = commanded(s, bars, shell, Cmd::NextTab, facts).0;
            &&& next.spaces[i].tabs == tabs
            &&& next.focused_space == s.focused_space
            &&& at + 1 < tabs.len() ==> next.spaces[i].focused_tab == Some(tabs[at + 1])
            &&& at + 1 == tabs.len() ==> next.spaces[i].focused_tab == Some(tabs[0])
        }),
{
    let tabs = s.spaces[i].tabs;
    lemma_space_at(s, i);
    lemma_steps(at, tabs.len() as int);
    assert forall|j: int| 0 <= j < at implies !id_is(tabs[at])(#[trigger] tabs[j]) by {
        assert(tabs[j] != tabs[at]);
    }
    lemma_first_where_is(tabs, id_is(tabs[at]), at);
}

/// The previous tab is the one before, and the last before the first.
#[verifier::spinoff_prover]
#[verifier::rlimit(40)]
pub proof fn law_the_previous_tab_is_the_one_before(
    s: SessionView,
    bars: Bars,
    shell: Seq<char>,
    facts: Facts,
    i: int,
    at: int,
)
    requires
        s.wf(),
        0 <= i < s.spaces.len(),
        s.focused_space == Some(s.spaces[i].id),
        s.spaces[i].tabs.no_duplicates(),
        0 <= at < s.spaces[i].tabs.len(),
        s.spaces[i].focused_tab == Some(s.spaces[i].tabs[at]),
    ensures
        ({
            let tabs = s.spaces[i].tabs;
            let prev = commanded(s, bars, shell, Cmd::PrevTab, facts).0;
            &&& prev.spaces[i].tabs == tabs
            &&& prev.focused_space == s.focused_space
            &&& at > 0 ==> prev.spaces[i].focused_tab == Some(tabs[at - 1])
            &&& at == 0 ==> prev.spaces[i].focused_tab == Some(tabs[tabs.len() - 1])
        }),
{
    let tabs = s.spaces[i].tabs;
    lemma_space_at(s, i);
    lemma_steps(at, tabs.len() as int);
    assert forall|j: int| 0 <= j < at implies !id_is(tabs[at])(#[trigger] tabs[j]) by {
        assert(tabs[j] != tabs[at]);
    }
    lemma_first_where_is(tabs, id_is(tabs[at]), at);
}

/// A tab is gone to by its number, counted from nought, where there is one.
pub proof fn law_a_tab_is_gone_to_by_its_number(
    s: SessionView,
    bars: Bars,
    shell: Seq<char>,
    facts: Facts,
    i: int,
    at: usize,
)
    requires
        s.wf(),
        0 <= i < s.spaces.len(),
        s.focused_space == Some(s.spaces[i].id),
    ensures
        ({
            let t = commanded(s, bars, shell, Cmd::GotoTab(at), facts).0;
            &&& at < s.spaces[i].tabs.len() ==> t.spaces[i].focused_tab == Some(
                s.spaces[i].tabs[at as int],
            )
            &&& at >= s.spaces[i].tabs.len() ==> t.spaces[i] == s.spaces[i]
            &&& t.focused_space == s.focused_space
        }),
{
    lemma_space_at(s, i);
}

/// Going to a pane, a tab or a space puts it in front, and its tab and space with it; nothing else
/// moves.
pub proof fn law_going_there_puts_it_in_front(
    s: SessionView,
    bars: Bars,
    shell: Seq<char>,
    facts: Facts,
    p: int,
    k: int,
    i: int,
)
    requires
        s.wf(),
        0 <= p < s.panes.len(),
        0 <= k < s.tabs.len(),
        0 <= i < s.spaces.len(),
        s.panes[p].tab == s.tabs[k].id,
        s.panes[p].space == s.spaces[i].id,
        s.tabs[k].space == s.spaces[i].id,
    ensures
        ({
            let pane = s.panes[p].id;
            let (a, said) = commanded(s, bars, shell, Cmd::FocusPane(pane), facts);
            let b = commanded(s, bars, shell, Cmd::FocusTab(s.tabs[k].id), facts).0;
            let c = commanded(s, bars, shell, Cmd::FocusSpace(s.spaces[i].id), facts).0;
            &&& a.focused_space == Some(s.spaces[i].id) && a.spaces[i].focused_tab == Some(
                s.tabs[k].id,
            ) && a.tabs[k].focused_pane == Some(pane)
            &&& said.seen == Some(pane) && said.problem is None
            &&& a.panes == s.panes
            &&& b.focused_space == Some(s.spaces[i].id) && b.spaces[i].focused_tab == Some(
                s.tabs[k].id,
            ) && b.tabs == s.tabs
            &&& c.focused_space == Some(s.spaces[i].id) && c.spaces == s.spaces && c.tabs == s.tabs
        }),
{
    lemma_pane_at(s, p);
    lemma_tab_at(s, k);
    lemma_space_at(s, i);
}

/// Zooming fills the screen with the pane in front, and again undoes it. The bars at the sides open
/// and close.
pub proof fn law_what_is_toggled(s: SessionView, bars: Bars, shell: Seq<char>, facts: Facts)
    ensures
        ({
            let z = commanded(s, bars, shell, Cmd::ToggleZoom, facts).0;
            let a = commanded(s, bars, shell, Cmd::ToggleSidebar, facts).0;
            let b = commanded(s, bars, shell, Cmd::ToggleBus, facts).0;
            &&& s.front_pane() is Some && s.view.zoom != s.front_pane() ==> z.view.zoom
                == s.front_pane()
            &&& s.front_pane() is Some && s.view.zoom == s.front_pane() ==> z.view.zoom is None
            &&& s.front_pane() is None ==> z == s
            &&& a.view.sidebar_open == !s.view.sidebar_open && a.view.bus_open == s.view.bus_open
            &&& b.view.bus_open == !s.view.bus_open && b.view.sidebar_open == s.view.sidebar_open
            &&& a.panes == s.panes && b.panes == s.panes && z.panes == s.panes
        }),
{
}

/// Moving goes to the neighbour there is, where nothing is zoomed.
pub proof fn law_moving_goes_to_the_neighbour(s: SessionView, next: u64, k: int)
    requires
        s.wf(),
        0 <= k < s.tabs.len(),
        s.front_tab() == Some(s.tabs[k].id),
        s.tabs[k].focused_pane is Some,
    ensures
        s.view.zoom is None ==> moved_to(s, Some(next)).0.tabs[k].focused_pane == Some(next)
            && moved_to(s, Some(next)).1,
        s.view.zoom is Some ==> moved_to(s, Some(next)) == (s, false),
        moved_to(s, None) == (s, false),
{
    lemma_tab_at(s, k);
}

// -- whom to look at ---------------------------------------------------------

/// An agent wants a person where it is blocked or done, and not while it works or is idle.
pub proof fn law_who_wants_a_person()
    ensures
        AgentState::Blocked.wants_you(),
        AgentState::Done.wants_you(),
        !AgentState::Working.wants_you(),
        !AgentState::Idle.wants_you(),
{
}

/// Those who want a person are asked after one behind the other: the next is the one behind the
/// one in front, and the first behind the last; and the first where the one in front is not among
/// them.
pub proof fn law_those_who_want_a_person_are_walked_through(s: SessionView, at: int)
    requires
        attention(s).no_duplicates(),
        attention(s).len() > 1,
    ensures
        0 <= at < attention(s).len() && s.front_pane() == Some(attention(s)[at])
            ==> next_to_look_at(s) == Some(
            attention(s)[if at + 1 < attention(s).len() {
                at + 1
            } else {
                0
            }],
        ),
        s.front_pane() is None || !attention(s).contains(s.front_pane()->Some_0)
            ==> next_to_look_at(s) == Some(attention(s)[0]),
{
    let order = attention(s);
    let n = order.len() as int;
    if 0 <= at < n && s.front_pane() == Some(order[at]) {
        assert forall|j: int| 0 <= j < at implies !id_is(order[at])(#[trigger] order[j]) by {
            assert(order[j] != order[at]);
        }
        lemma_first_where_is(order, id_is(order[at]), at);
        lemma_steps(at, n);
        assert(order[(at + 1) % n] != order[at]);
    } else if s.front_pane() is None || !order.contains(s.front_pane()->Some_0) {
        if let Some(c) = s.front_pane() {
            assert forall|j: int| 0 <= j < n implies !id_is(c)(#[trigger] order[j]) by {
                assert(order.contains(order[j]));
            }
            lemma_first_where_is(order, id_is(c), n);
        }
        vstd::arithmetic::div_mod::lemma_small_mod(0, n as nat);
        assert(order.contains(order[0]));
    }
}

/// They are the panes with such an agent, in the order of spaces, tabs and panes.
pub proof fn law_who_is_asked_after(s: SessionView, k: int) -> (i: int)
    requires
        0 <= k < attention(s).len(),
    ensures
        ({
            let all = panes_in_order(s, s.spaces.len() as int);
            &&& 0 <= i < all.len()
            &&& all[i] == attention(s)[k]
            &&& wants_you(s, attention(s)[k])
        }),
{
    lemma_pick_sound(
        panes_in_order(s, s.spaces.len() as int),
        |p: u64| wants_you(s, p),
        |p: u64| p,
        k,
    )
}

/// Jumping goes there, and where nobody wants a person it says so.
pub proof fn law_jumping_goes_to_whoever_wants_a_person(
    s: SessionView,
    bars: Bars,
    shell: Seq<char>,
    facts: Facts,
)
    ensures
        ({
            let (t, said) = commanded(s, bars, shell, Cmd::JumpAttention, facts);
            &&& next_to_look_at(s) matches Some(p) ==> t == pane_focused(s, p).0 && said.seen
                == Some(p)
            &&& next_to_look_at(s) is None ==> t == s && said.problem == Some(
                (Level::Info, "no agent needs attention"@),
            )
        }),
{
}

// -- small things ------------------------------------------------------------

/// A pane is called what it is told, or nothing where that is empty; it gets the role it is given;
/// it is pinned where it was not; and scrolling is done where the pane is. Nothing else changes.
pub proof fn law_a_pane_is_what_it_is_told(
    s: SessionView,
    bars: Bars,
    shell: Seq<char>,
    facts: Facts,
    i: int,
    name: String,
    role: Option<String>,
    lines: i32,
)
    requires
        s.wf(),
        0 <= i < s.panes.len(),
    ensures
        ({
            let pane = s.panes[i].id;
            let a = commanded(s, bars, shell, Cmd::RenamePane { pane, name }, facts).0;
            let b = commanded(s, bars, shell, Cmd::SetPaneRole { pane, role }, facts).0;
            let c = commanded(s, bars, shell, Cmd::TogglePanePinned(pane), facts).0;
            let d = commanded(s, bars, shell, Cmd::Scroll { pane, lines }, facts);
            &&& name@.len() > 0 ==> a.panes[i].name == Some(name@)
            &&& name@.len() == 0 ==> a.panes[i].name is None
            &&& a.panes[i].life == s.panes[i].life && a.panes[i].cmd == s.panes[i].cmd
            &&& b.panes[i].life.role == opt_text(role) && b.panes[i].name == s.panes[i].name
            &&& c.panes[i].life.pinned == !s.panes[i].life.pinned
            &&& d.0 == s && d.1.act == Some(PaneAct::Scroll { pane, lines })
            &&& forall|j: int|
                0 <= j < s.panes.len() && j != i ==> #[trigger] a.panes[j] == s.panes[j]
                    && b.panes[j] == s.panes[j] && c.panes[j] == s.panes[j]
        }),
{
    lemma_pane_at(s, i);
}

/// A new name is given where there is one; a tab gets it as it is.
pub proof fn law_a_tab_is_renamed(s: SessionView, k: int, name: Seq<char>)
    requires
        s.wf(),
        0 <= k < s.tabs.len(),
    ensures
        trimmed(name).len() > 0 ==> tab_renamed(s, s.tabs[k].id, name).1 && tab_renamed(
            s,
            s.tabs[k].id,
            name,
        ).0.tabs == s.tabs.update(k, TabView { name, ..s.tabs[k] }),
        trimmed(name).len() == 0 ==> tab_renamed(s, s.tabs[k].id, name) == (s, false),
{
    lemma_tab_at(s, k);
}

/// A space gets its new name as it is, unless another has it already.
pub proof fn law_a_space_is_renamed(s: SessionView, i: int, name: Seq<char>)
    requires
        s.wf(),
        0 <= i < s.spaces.len(),
    ensures
        ({
            let (t, done) = space_renamed(s, s.spaces[i].id, name);
            &&& trimmed(name).len() == 0 ==> t == s && !done
            &&& trimmed(name).len() > 0 ==> done && t.spaces.len() == s.spaces.len()
            &&& trimmed(name).len() > 0 && (forall|j: int|
                0 <= j < s.spaces.len() && j != i ==> (#[trigger] s.spaces[j]).name != name)
                ==> t.spaces[i].name == name
            &&& trimmed(name).len() > 0 && (exists|j: int|
                0 <= j < s.spaces.len() && j != i && (#[trigger] s.spaces[j]).name == name)
                ==> t.spaces[i].name == unique_name(s.spaces, name)
            &&& t.spaces[i].tabs == s.spaces[i].tabs && t.spaces[i].cwd == s.spaces[i].cwd
            &&& forall|j: int|
                0 <= j < s.spaces.len() && j != i ==> #[trigger] t.spaces[j] == s.spaces[j]
        }),
{
    lemma_space_at(s, i);
    lemma_first_where(s.spaces, named(name));
    let k = first_where(s.spaces, named(name));
    if exists|j: int| 0 <= j < s.spaces.len() && j != i && (#[trigger] s.spaces[j]).name == name {
        let j = choose|j: int|
            0 <= j < s.spaces.len() && j != i && (#[trigger] s.spaces[j]).name == name;
        assert(named(name)(s.spaces[j]));
        assert(k < s.spaces.len());
        assert(named(name)(s.spaces[k]));
        if k == i {
            if j < i {
                assert(s.spaces[j].name != s.spaces[i].name);
            } else {
                assert(s.spaces[i].name != s.spaces[j].name);
            }
        }
        if k < i {
            assert(s.spaces[k].id < s.spaces[i].id);
        } else {
            assert(s.spaces[i].id < s.spaces[k].id);
        }
    } else if k < s.spaces.len() {
        assert(named(name)(s.spaces[k]));
    }
}

// -- room --------------------------------------------------------------------

/// Where the regions are. With more than four rows the tabs have the first and the status the last;
/// the sidebar is at the left, as wide as it is set and a third of the screen at most, and the bus
/// so at the right; the panes have the rest.
pub proof fn law_where_the_regions_are(
    bars: Bars,
    cols: u16,
    rows: u16,
    has_tabs: bool,
    view: ViewState,
)
    requires
        rows > 4,
        bars.tab_bar,
        bars.status_bar,
        has_tabs,
    ensures
        ({
            let c = chrome_of(bars, cols, rows, has_tabs, view);
            let third = cols / 3;
            let side = if view.sidebar_width <= third {
                view.sidebar_width
            } else {
                third
            };
            let bus = if view.bus_width <= third {
                view.bus_width
            } else {
                third
            };
            &&& c.tabbar == Rect { x: 0, y: 0, w: cols, h: 1 }
            &&& c.status == Rect { x: 0, y: (rows - 1) as u16, w: cols, h: 1 }
            &&& c.panes.y == 1 && c.panes.h == rows - 2
            &&& !view.sidebar_open ==> c.sidebar.w == 0 && c.panes.x == 0
            &&& side < 14 ==> c.sidebar.w == 0 && c.panes.x == 0
            &&& !view.bus_open ==> c.bus.w == 0 && c.panes.x + c.panes.w == cols
            &&& view.sidebar_open && side >= 14 ==> c.sidebar.x == 0 && c.sidebar.w == side
                && c.panes.x == side && c.sidebar.y == 1
            &&& view.bus_open && cols - c.sidebar.w > bus + 20 ==> c.bus.w == bus && c.bus.x == cols
                - bus && c.panes.x + c.panes.w == cols - bus
        }),
{
}

/// A pane has its cell, less a border of one where panes have titles; and all the room where it is
/// zoomed.
pub proof fn law_a_pane_has_its_cell(
    s: SessionView,
    bars: Bars,
    tiles: Seq<(u64, Rect)>,
    i: int,
)
    requires
        s.front_tab() is Some,
        0 <= i < tiles.len(),
    ensures
        s.view.zoom is None ==> rects_of(s, bars, tiles).len() == tiles.len() && rects_of(
            s,
            bars,
            tiles,
        )[i] == framed(bars, tiles[i].0, tiles[i].1),
        s.view.zoom is Some && s.in_front().contains(s.view.zoom->Some_0) ==> rects_of(
            s,
            bars,
            tiles,
        ) == seq![framed(bars, s.view.zoom->Some_0, s.chrome.panes)],
        !bars.pane_titles ==> framed(bars, tiles[i].0, tiles[i].1).2 == tiles[i].1,
        bars.pane_titles && tiles[i].1.w >= 2 && tiles[i].1.h >= 2 ==> framed(
            bars,
            tiles[i].0,
            tiles[i].1,
        ).2.w == tiles[i].1.w - 2 && framed(bars, tiles[i].0, tiles[i].1).2.h == tiles[i].1.h - 2,
{
}

/// A program is told its size where that changed: two columns and one row at least.
pub proof fn law_a_program_is_told_its_size(s: SessionView, i: int, cols: u16, rows: u16)
    requires
        s.wf(),
        0 <= i < s.panes.len(),
        cols >= 2,
        rows >= 1,
    ensures
        ({
            let t = resized(s, s.panes[i].id, cols, rows);
            &&& t.panes[i].life.cols == cols && t.panes[i].life.rows == rows
            &&& s.panes[i].life.cols == cols && s.panes[i].life.rows == rows ==> t == s
            &&& !(s.panes[i].life.cols == cols && s.panes[i].life.rows == rows) ==> t.effects
                == s.effects.push(EffectView::Resize { pane: s.panes[i].id, cols, rows })
            &&& resized(s, s.panes[i].id, 0, 0).panes[i].life.cols == 2
            &&& resized(s, s.panes[i].id, 0, 0).panes[i].life.rows == 1
        }),
{
    lemma_pane_at(s, i);
}

/// A new pane has the next number, and the one after it is next then.
pub proof fn law_a_number_is_given_once(
    s: SessionView,
    space: u64,
    tab: u64,
    cmd: Seq<char>,
    cwd: Seq<char>,
)
    requires
        s.next_pane < u64::MAX,
    ensures
        ({
            let t = spawned(s, space, tab, cmd, cwd);
            &&& t.next_pane == s.next_pane + 1
            &&& t.panes.len() == s.panes.len() + 1
            &&& t.panes.last().id == s.next_pane && t.panes.last().cmd == cmd && t.panes.last().cwd
                == cwd && t.panes.last().space == space && t.panes.last().tab == tab
            &&& t.panes.last().life.agent is None && !t.panes.last().life.exited
                && t.panes.last().life.spawned_by is None && t.panes.last().life.role is None
                && !t.panes.last().life.pinned
            &&& t.next_tab == s.next_tab && t.next_space == s.next_space && t.tabs == s.tabs
                && t.spaces == s.spaces
        }),
{
}

} // verus!
