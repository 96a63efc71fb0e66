//! What is kept of a session over a restart and a handover, and what a rule starts.

use crate::agent::{recorded, ActivityView, AgentClass, Call};
use crate::engine::EngineView;
use crate::firing::{carried_out, stamped, DeedView, started_by_rule};
use crate::handoff::{adopted, number_of, rebuilt, revived, HAgent, HNode, HPane};
use crate::layout::{Axis, Node};
use crate::persist::{
    command_back, dir_or, leaf_back, node_saved, pane_saved, place_in, saved, saved_leaves,
    SavedNodeView, SavedPaneView, WishesView,
};
use crate::proto::Dir;
use crate::seqs::{count_where, lemma_first_where, lemma_first_where_is};
use crate::state::{id_is, pane_is, space_is, Bars, PaneView, SessionView, splitting};
use crate::text::{opt_text, texts};
use crate::triggers::{TriggerView, WhatView};
use vstd::prelude::*;

verus! {

// -- saving ------------------------------------------------------------------

/// A pane is saved with what it runs, where, its name, and the agent in it with its session.
pub proof fn law_a_pane_is_saved_as_it_is(s: SessionView, shell: Seq<char>, i: int)
    requires
        s.wf(),
        0 <= i < s.panes.len(),
    ensures
        ({
            let p = s.panes[i];
            let x = pane_saved(s, shell, p.id);
            &&& x.cmd == p.cmd && x.cwd == p.cwd && x.name == p.name
            &&& p.life.agent is None ==> x.agent_kind is None && x.agent_session is None
            &&& p.life.agent is Some ==> x.agent_kind == Some(p.life.agent->Some_0.kind)
                && x.agent_session == p.life.agent->Some_0.session_id
        }),
{
    let id = s.panes[i].id;
    assert forall|j: int| 0 <= j < i implies !pane_is(id)(#[trigger] s.panes[j]) by {
        assert(s.panes[j].id < s.panes[i].id);
    }
    lemma_first_where_is(s.panes, pane_is(id), i);
}

/// A tree is saved with its splits as they are, and each pane in its place.
pub proof fn law_a_tree_is_saved_as_it_is(s: SessionView, shell: Seq<char>, n: Node)
    ensures
        n matches Node::Leaf(id) ==> node_saved(s, shell, n) == SavedNodeView::Leaf(
            pane_saved(s, shell, id),
        ),
        n matches Node::Split { axis, ratio, a, b } ==> node_saved(s, shell, n) == (
        SavedNodeView::Split {
            horizontal: axis == Axis::Horizontal,
            ratio,
            a: Box::new(node_saved(s, shell, *a)),
            b: Box::new(node_saved(s, shell, *b)),
        }),
        saved_leaves(node_saved(s, shell, n)).len() == n.leaves().len(),
        forall|i: int|
            0 <= i < n.leaves().len() ==> #[trigger] saved_leaves(node_saved(s, shell, n))[i]
                == pane_saved(s, shell, n.leaves()[i]),
    decreases n,
{
    if let Node::Split { axis, ratio, a, b } = n {
        law_a_tree_is_saved_as_it_is(s, shell, *a);
        law_a_tree_is_saved_as_it_is(s, shell, *b);
    }
}

/// A space is saved with its name and its directory, and the whole with every space in its order,
/// which of them is in front, and when it was last looked at.
pub proof fn law_every_space_is_saved(s: SessionView, shell: Seq<char>, seen: u64, i: int)
    requires
        s.wf(),
        0 <= i < s.spaces.len(),
    ensures
        ({
            let t = saved(s, shell, seen);
            &&& t.version == 1
            &&& t.last_seen == seen
            &&& t.spaces.len() == s.spaces.len()
            &&& t.spaces[i].name == s.spaces[i].name && t.spaces[i].cwd == s.spaces[i].cwd
            &&& s.focused_space is None ==> t.focused_space is None
            &&& s.focused_space == Some(s.spaces[i].id) ==> t.focused_space == Some(i as usize)
        }),
{
    let id = s.spaces[i].id;
    assert forall|j: int| 0 <= j < i implies !space_is(id)(#[trigger] s.spaces[j]) by {
        assert(s.spaces[j].id < s.spaces[i].id);
    }
    lemma_first_where_is(s.spaces, space_is(id), i);
}

/// A place in a list is where the first of it stands.
pub proof fn law_a_place_is_where_it_stands(s: Seq<u64>, i: int, x: u64)
    ensures
        0 <= i < s.len() && (forall|j: int| 0 <= j < i ==> #[trigger] s[j] != s[i]) ==> place_in(
            s,
            Some(s[i]),
        ) == Some(i as usize) && number_of(s, s[i]) == i,
        !s.contains(x) ==> place_in(s, Some(x)) is None && number_of(s, x) == 0,
        place_in(s, None) is None,
{
    if 0 <= i < s.len() && (forall|j: int| 0 <= j < i ==> #[trigger] s[j] != s[i]) {
        lemma_first_where_is(s, id_is(s[i]), i);
    }
    lemma_first_where(s, id_is(x));
    let k = crate::seqs::first_where(s, id_is(x));
    if k < s.len() {
        assert(id_is(x)(s[k]));
        assert(s[k] == x);
    }
}

// -- bringing back -----------------------------------------------------------

/// A pane without an agent runs what it ran. One with an agent takes its session up again, where
/// that is wanted and known how, and is a shell otherwise.
pub proof fn law_what_a_pane_runs_again(
    restore: bool,
    usual: Seq<char>,
    shell: Seq<char>,
    leaf: SavedPaneView,
)
    ensures
        leaf.agent_kind is None ==> command_back(restore, usual, shell, leaf) == leaf.cmd,
        leaf.agent_kind is Some && !restore ==> command_back(restore, usual, shell, leaf) == shell,
        leaf.agent_kind is Some && leaf.agent_session is None ==> command_back(
            restore,
            usual,
            shell,
            leaf,
        ) == shell,
        restore && leaf.agent_kind == Some("codex"@) && leaf.agent_session is Some ==> command_back(
            restore,
            usual,
            shell,
            leaf,
        ) == "codex resume "@ + leaf.agent_session->Some_0,
        restore && usual != "codex"@ && leaf.agent_kind == Some(usual) && leaf.agent_session is Some
            ==> command_back(restore, usual, shell, leaf) == usual + " --resume "@
            + leaf.agent_session->Some_0,
        leaf.agent_kind is Some && leaf.agent_kind != Some("codex"@) && leaf.agent_kind != Some(
            usual,
        ) ==> command_back(restore, usual, shell, leaf) == shell,
{
}

/// A directory that is gone is replaced by the other.
pub proof fn law_a_directory_that_is_gone_is_replaced(
    dirs: Seq<Seq<char>>,
    path: Seq<char>,
    other: Seq<char>,
)
    ensures
        dirs.contains(path) ==> dir_or(dirs, path, other) == path,
        !dirs.contains(path) ==> dir_or(dirs, path, other) == other,
{
}

/// A pane that comes back has its command, its directory and its name, in the tab it was in.
pub proof fn law_a_pane_comes_back_as_it_was(
    s: SessionView,
    w: WishesView,
    space: u64,
    tab: u64,
    leaf: SavedPaneView,
    cwd: Seq<char>,
)
    requires
        s.next_pane < u64::MAX,
    ensures
        ({
            let t = leaf_back(s, w, space, tab, leaf, cwd);
            let p = t.panes.last();
            &&& t.panes.len() == s.panes.len() + 1
            &&& p.id == s.next_pane && p.space == space && p.tab == tab
            &&& p.cmd == command_back(w.restore_agents, w.usual, w.shell, leaf)
            &&& p.cwd == (if w.dirs.contains(leaf.cwd) {
                leaf.cwd
            } else {
                cwd
            })
            &&& leaf.name is Some ==> p.name == leaf.name
            &&& t.next_pane == s.next_pane + 1
            &&& forall|i: int| 0 <= i < s.panes.len() ==> #[trigger] t.panes[i] == s.panes[i]
        }),
{
}

// -- handing over ------------------------------------------------------------

/// A number stands for the pane that is listed under it, and a tree with a number that stands for
/// none is refused for that number.
pub proof fn law_a_number_stands_for_its_pane(ids: Seq<Option<u64>>, i: usize)
    ensures
        (i as int) < ids.len() && ids[i as int] is Some ==> rebuilt(HNode::Leaf(i), ids) == Ok::<
            _,
            usize,
        >(Node::Leaf(ids[i as int]->Some_0)),
        (i as int) >= ids.len() || ids[i as int] is None ==> rebuilt(HNode::Leaf(i), ids) == Err::<
            Node,
            _,
        >(i),
{
}

/// The agent that a successor starts with is the one there was: its name, kind, state, session and
/// what was queued for it. Only its clock and its counters begin anew.
pub proof fn law_an_agent_outlives_the_handover(a: HAgent, now: u64)
    ensures
        ({
            let r = revived(a, now);
            &&& r.kind == a.kind@ && r.name == a.name@ && r.state == a.state && r.seen == a.seen
            &&& r.authority == a.authority@ && r.reason == a.reason@
            &&& r.session_id == opt_text(a.session_id) && r.queued == texts(a.queued@)
            &&& r.since == now && r.class == AgentClass::Agent
            &&& r.activity.turns == 0 && r.activity.tools == 0 && r.activity.errors == 0
                && r.activity.files == 0
            &&& r.nudged_since is None && r.alerted_since is None && r.question is None
        }),
{
}

/// The pane that a successor starts with is the one there was: its size, title, role, who started
/// it, and whether it is pinned or takes board work.
pub proof fn law_a_pane_outlives_the_handover(h: HPane, now: u64)
    ensures
        ({
            let r = adopted(h, now);
            &&& r.title == opt_text(h.title) && r.cols == h.cols && r.rows == h.rows
            &&& r.role == opt_text(h.role) && r.board == h.board && r.pinned == h.pinned
            &&& r.spawned_by == h.spawned_by && r.spawned_by_pane == h.spawned_by_pane
            &&& !r.exited && !r.succeeded && !r.handover_told && r.succession_depth == 0
            &&& h.agent is None <==> r.agent is None
            &&& h.agent is Some ==> r.agent == Some(revived(h.agent->Some_0, now))
        }),
{
}

// -- rules that start something ----------------------------------------------

/// A pane that a rule started carries the rule's number and has the name the rule gives; all else
/// stays.
pub proof fn law_a_pane_carries_its_rules_number(
    s: SessionView,
    i: int,
    name: Option<Seq<char>>,
    id: u64,
)
    requires
        s.wf(),
        0 <= i < s.panes.len(),
    ensures
        ({
            let t = stamped(s, s.panes[i].id, name, id);
            &&& t.panes[i].life.spawned_by == Some(id) && t.panes[i].name == name
            &&& t.panes[i].cmd == s.panes[i].cmd && t.panes[i].id == s.panes[i].id
                && t.panes[i].life.agent == s.panes[i].life.agent
            &&& forall|j: int|
                0 <= j < s.panes.len() && j != i ==> #[trigger] t.panes[j] == s.panes[j]
        }),
{
    let id2 = s.panes[i].id;
    assert forall|j: int| 0 <= j < i implies !pane_is(id2)(#[trigger] s.panes[j]) by {
        assert(s.panes[j].id < s.panes[i].id);
    }
    lemma_first_where_is(s.panes, pane_is(id2), i);
}

/// A rule that sends a message hands it on as it is and changes nothing. One that puts work on the
/// board does not with the board off, and one that starts an agent does not where as many run as
/// may.
pub proof fn law_a_rule_is_carried_out_as_it_says(
    e: EngineView,
    t: TriggerView,
    board_on: bool,
    cap: usize,
    bars: Bars,
    shell: Seq<char>,
    fits: bool,
    now: u64,
)
    requires
        count_where(
            e.session.panes,
            |p: PaneView| p.life.spawned_by is Some && !p.life.exited,
        ) <= usize::MAX,
    ensures
        ({
            let (after, r) = carried_out(e, t, board_on, cap, bars, shell, fits, now);
            let live = count_where(
                e.session.panes,
                |p: PaneView| p.life.spawned_by is Some && !p.life.exited,
            );
            &&& t.what matches WhatView::Send { to, body } ==> after == e && r == Ok::<
                _,
                Seq<char>,
            >(DeedView::Send { to, body })
            &&& t.what is Task && !board_on ==> after == e && r is Err
            &&& t.what is Spawn && live >= cap ==> after == e && r is Err
            &&& t.what is Task ==> after.session == e.session
            &&& t.what is Spawn ==> after.board == e.board
        }),
{
    let p = |p: PaneView| p.life.spawned_by is Some && !p.life.exited;
    assert(crate::succession::self_started() =~= p);
}

// -- trees -------------------------------------------------------------------

/// A new pane takes half of the one it stands beside: to its left or above it comes first, to its
/// right or below it second; side by side for left and right, one over the other for up and down.
pub proof fn law_a_new_pane_takes_half(p: u64, new: u64, dir: Dir)
    ensures
        ({
            let t = Node::Leaf(p).divided(p, dir, new);
            &&& t is Split && t->ratio == 0x3f00_0000
            &&& dir == Dir::Left || dir == Dir::Right ==> t->axis == Axis::Horizontal
            &&& dir == Dir::Up || dir == Dir::Down ==> t->axis == Axis::Vertical
            &&& dir == Dir::Left || dir == Dir::Up ==> t.leaves() == seq![new, p]
            &&& dir == Dir::Right || dir == Dir::Down ==> t.leaves() == seq![p, new]
        }),
{
    reveal_with_fuel(Node::leaves, 3);
    let t = Node::Leaf(p).divided(p, dir, new);
    if dir == Dir::Left || dir == Dir::Up {
        assert(t.leaves() =~= seq![new, p]);
    } else {
        assert(t.leaves() =~= seq![p, new]);
    }
}

/// What is beside a pane that closes takes the whole of their split, on whichever side it stands;
/// a tree that the pane is not in stays.
pub proof fn law_what_is_beside_takes_the_whole(axis: Axis, ratio: u32, p: u64, n: Node)
    requires
        !n.leaves().contains(p),
    ensures
        n.without(p) == Some(n),
        Node::Leaf(p).without(p) is None,
        (Node::Split { axis, ratio, a: Box::new(Node::Leaf(p)), b: Box::new(n) }).without(p) == Some(
            n,
        ),
        (Node::Split { axis, ratio, a: Box::new(n), b: Box::new(Node::Leaf(p)) }).without(p) == Some(
            n,
        ),
    decreases n,
{
    reveal_with_fuel(Node::without, 2);
    if let Node::Split { axis: _, ratio: _, a, b } = n {
        if a.leaves().contains(p) {
            let k = choose|k: int| 0 <= k < a.leaves().len() && a.leaves()[k] == p;
            assert(n.leaves()[k] == p);
        }
        if b.leaves().contains(p) {
            let k = choose|k: int| 0 <= k < b.leaves().len() && b.leaves()[k] == p;
            assert(n.leaves()[a.leaves().len() + k] == p);
        }
        law_what_is_beside_takes_the_whole(axis, ratio, p, *a);
        law_what_is_beside_takes_the_whole(axis, ratio, p, *b);
    } else {
        assert(n.leaves()[0] == n->Leaf_0);
    }
}

/// A call counts one more call, and a file the first time it is touched.
pub proof fn law_a_call_is_counted(touched: Seq<Seq<char>>, a: ActivityView, c: Call)
    requires
        a.tools < u32::MAX,
        touched.len() < u32::MAX,
    ensures
        ({
            let (t, b) = recorded(touched, a, c);
            &&& b.tools == a.tools + 1 && b.turns == a.turns && b.errors == a.errors
            &&& c.tool is Some ==> b.last_tool == c.tool
            &&& c.tool is None ==> b.last_tool == a.last_tool
            &&& c.file is Some && !touched.contains(c.file->Some_0) ==> t == touched.push(
                c.file->Some_0,
            ) && b.files == touched.len() + 1
            &&& c.file is None || touched.contains(c.file->Some_0) ==> t == touched && b.files
                == a.files
        }),
{
}

/// An agent that a rule starts comes up to the right of the pane in front, running what the rule
/// says, and carries the rule's number; it is looked at soon.
pub proof fn law_an_agent_that_a_rule_starts(
    e: EngineView,
    bars: Bars,
    shell: Seq<char>,
    id: u64,
    cmd: Seq<char>,
    name: Option<Seq<char>>,
    fits: bool,
)
    ensures
        ({
            let (s, r) = splitting(e.session, bars, shell, None, Dir::Right, Some(cmd), fits);
            let (t, out) = started_by_rule(e, bars, shell, id, cmd, name, fits);
            &&& r is Ok ==> out is Ok && t.session == stamped(s, r->Ok_0, name, id) && t.detect_soon
                && t.dirty_shape
            &&& r is Err ==> out is Err && t.session == s
            &&& t.board == e.board && t.triggers == e.triggers && t.events == e.events
        }),
{
}

/// Work that a rule puts on the board is told of.
pub proof fn law_work_that_a_rule_places_is_told_of(
    e: EngineView,
    t: TriggerView,
    cap: usize,
    bars: Bars,
    shell: Seq<char>,
    fits: bool,
    now: u64,
)
    requires
        t.what is Task,
        carried_out(e, t, true, cap, bars, shell, fits, now).1 is Ok,
    ensures
        carried_out(e, t, true, cap, bars, shell, fits, now).0.dirty_shape,
        carried_out(e, t, true, cap, bars, shell, fits, now).1->Ok_0 is Done,
{
}

} // verus!
