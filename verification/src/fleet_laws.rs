//! Who may start an agent, with what, and what an agent's reports come to.

use crate::fleet::{
    brief_of, command_for, last_lines, occupant_of, outfitting, reported, spawn_planned,
    state_named, tooled, turned, works_in, worktree_wanted, DoingsView, SpawnPlanView,
    agent_finished, space_name_of,
};
use crate::proto::{AgentState, Dir};
use crate::rpc::{called, pane_named_by, ArgView, Code, FaultView, RequestView};
use crate::seqs::{count_where, lemma_first_where, lemma_first_where_is};
use crate::state::{pane_is, PaneView, SessionView, space_is};
use crate::succession::{profile_is, ProfileView};
use crate::text::{decimal, replaced_all, trimmed};
use crate::engine::EngineView;
use crate::control::{Context, Rules};
use crate::tasks::adding;
use vstd::prelude::*;

verus! {

/// An argument is the first of its name, and is what it is given as.
pub proof fn law_an_argument_is_what_it_is_given_as(q: RequestView, i: int)
    requires
        0 <= i < q.params.len(),
        forall|j: int| 0 <= j < i ==> (#[trigger] q.params[j]).0 != q.params[i].0,
    ensures
        ({
            let key = q.params[i].0;
            let v = q.params[i].1;
            &&& q.get(key) == Some(v)
            &&& v matches ArgView::Text(t) ==> q.text(key) == Some(t) && q.whole(key) is None
                && q.flag(key) is None
            &&& v matches ArgView::Whole(n) ==> q.whole(key) == Some(n) && q.text(key) is None
                && q.flag(key) is None
            &&& v matches ArgView::Whole(n) ==> (n <= 0x7fff_ffff_ffff_ffff ==> q.number(key)
                == Some(n as i64))
            &&& v matches ArgView::Whole(n) ==> (n > 0x7fff_ffff_ffff_ffff ==> q.number(key) is None)
            &&& v matches ArgView::Negative(n) ==> q.number(key) == Some(n) && q.whole(key) is None
            &&& v matches ArgView::Flag(b) ==> q.flag(key) == Some(b) && q.is_on(key) == b
            &&& !(v is Flag) ==> !q.is_on(key)
        }),
{
    let key = q.params[i].0;
    assert forall|j: int| 0 <= j < i implies !called(key)(#[trigger] q.params[j]) by {
        assert(q.params[j].0 != q.params[i].0);
    }
    lemma_first_where_is(q.params, called(key), i);
}

/// An argument that is not there is nothing.
pub proof fn law_an_argument_that_is_not_there(q: RequestView, key: Seq<char>, usual: Dir)
    requires
        forall|j: int| 0 <= j < q.params.len() ==> (#[trigger] q.params[j]).0 != key,
    ensures
        q.get(key) is None,
        q.text(key) is None,
        q.whole(key) is None,
        q.number(key) is None,
        q.flag(key) is None,
        !q.is_on(key),
        q.direction(key, usual) == usual,
{
    lemma_first_where(q.params, called(key));
}

/// A direction goes by its word.
pub proof fn law_a_direction_goes_by_its_word(q: RequestView, key: Seq<char>, usual: Dir)
    ensures
        q.text(key) == Some("left"@) ==> q.direction(key, usual) == Dir::Left,
        q.text(key) == Some("right"@) ==> q.direction(key, usual) == Dir::Right,
        q.text(key) == Some("up"@) ==> q.direction(key, usual) == Dir::Up,
        q.text(key) == Some("down"@) ==> q.direction(key, usual) == Dir::Down,
{
    reveal_strlit("left");
    reveal_strlit("right");
    reveal_strlit("up");
    reveal_strlit("down");
    assert("left"@[0] != "right"@[0]);
    assert("left"@[0] != "up"@[0]);
    assert("left"@[0] != "down"@[0]);
    assert("right"@[0] != "up"@[0]);
    assert("right"@[0] != "down"@[0]);
    assert("up"@[0] != "down"@[0]);
}

/// A pane is named by its number, or by a name that is its.
pub proof fn law_a_pane_is_named_by_number_or_name(
    q: RequestView,
    ks: Seq<(Seq<char>, u64)>,
    key: Seq<char>,
    i: int,
)
    ensures
        q.whole(key) matches Some(n) ==> pane_named_by(q, ks, key) == Some(n),
        q.get(key) is None ==> pane_named_by(q, ks, key) is None,
        0 <= i < ks.len() && (forall|j: int| 0 <= j < i ==> (#[trigger] ks[j]).0 != ks[i].0)
            && q.text(key) == Some(ks[i].0) ==> pane_named_by(q, ks, key) == Some(ks[i].1),
        (forall|j: int| 0 <= j < ks.len() ==> Some((#[trigger] ks[j]).0) != q.text(key)) && q.text(
            key,
        ) is Some ==> pane_named_by(q, ks, key) is None,
{
    if q.text(key) is Some {
        let name = q.text(key)->Some_0;
        lemma_first_where(ks, crate::rpc::goes_by(name));
        if 0 <= i < ks.len() && ks[i].0 == name && (forall|j: int|
            0 <= j < i ==> (#[trigger] ks[j]).0 != ks[i].0) {
            lemma_first_where_is(ks, crate::rpc::goes_by(name), i);
        }
    }
}

/// A profile that is asked for is what runs, by its first model; otherwise what was given runs, and
/// otherwise the usual. A profile that is not there is refused.
pub proof fn law_what_an_agent_runs(
    q: RequestView,
    ps: Seq<ProfileView>,
    usual: Seq<char>,
    i: int,
)
    ensures
        q.text("profile"@) is None && q.text("cmd"@) is None ==> command_for(q, ps, usual) == Ok::<_, FaultView>(usual),
        q.text("profile"@) is None && q.text("cmd"@) is Some ==> command_for(q, ps, usual) == Ok::<_, FaultView>(q.text("cmd"@)->Some_0),
        0 <= i < ps.len() && q.text("profile"@) == Some(ps[i].name) && (forall|j: int|
            0 <= j < i ==> (#[trigger] ps[j]).name != ps[i].name) ==> {
            &&& ps[i].order.len() > 0 ==> command_for(q, ps, usual) == Ok::<_, FaultView>(
                replaced_all(ps[i].cmd, "{model}"@, ps[i].order[0]),
            )
            &&& ps[i].order.len() == 0 ==> command_for(q, ps, usual) is Err
        },
        q.text("profile"@) is Some && (forall|j: int|
            0 <= j < ps.len() ==> Some((#[trigger] ps[j]).name) != q.text("profile"@))
            ==> command_for(q, ps, usual) is Err && command_for(q, ps, usual)->Err_0.code
            == Code::Failed,
{
    if q.text("profile"@) is Some {
        let name = q.text("profile"@)->Some_0;
        lemma_first_where(ps, profile_is(name));
        if 0 <= i < ps.len() && ps[i].name == name && (forall|j: int|
            0 <= j < i ==> (#[trigger] ps[j]).name != ps[i].name) {
            lemma_first_where_is(ps, profile_is(name), i);
        }
    }
}

/// A plan is what was asked for: to the right unless told otherwise, under the name that was given,
/// and on account of the pane that asked. An agent is refused where agents have opened as many
/// panes as they may that still run.
pub proof fn law_a_plan_is_what_was_asked_for(
    q: RequestView,
    s: SessionView,
    ks: Seq<(Seq<char>, u64)>,
    ps: Seq<ProfileView>,
    usual: Seq<char>,
    max_fleet: nat,
)
    ensures
        ({
            let live = count_where(
                s.panes,
                |p: PaneView| p.life.spawned_by_pane is Some && !p.life.exited,
            );
            let r = spawn_planned(q, s, ks, ps, usual, max_fleet);
            let by = pane_named_by(q, ks, "from"@);
            let is_agents = by is Some && s.has_pane(by->Some_0);
            &&& command_for(q, ps, usual) is Ok && is_agents && live >= max_fleet ==> r is Err
                && r->Err_0.code == Code::Failed
            &&& r is Ok ==> {
                &&& r->Ok_0.by == if is_agents {
                    by
                } else {
                    None
                }
                &&& r->Ok_0.name == q.text("name"@)
                &&& r->Ok_0.profile == q.text("profile"@)
                &&& r->Ok_0.dir == q.direction("split"@, Dir::Right)
                &&& Ok::<_, FaultView>(r->Ok_0.cmd) == command_for(q, ps, usual)
            }
            &&& q.get("worktree"@) is None && command_for(q, ps, usual) is Ok && (!is_agents || live
                < max_fleet) ==> r is Ok && r->Ok_0.worktree is None
        }),
{
    let p = |p: PaneView| p.life.spawned_by_pane is Some && !p.life.exited;
    assert(crate::fleet::opened_by_agent() =~= p);
}

/// A worktree is named by what was given, or by the agent's name, and stands beside where the pane
/// that asked works.
pub proof fn law_a_worktree_is_named_after_its_agent(q: RequestView, s: SessionView, i: int)
    requires
        s.wf(),
        0 <= i < s.panes.len(),
    ensures
        q.get("worktree"@) == Some(ArgView::Flag(false)) ==> worktree_wanted(
            q,
            s,
            Some(s.panes[i].id),
        ) == Ok::<_, FaultView>(None::<(Seq<char>, Seq<char>)>),
        q.get("worktree"@) == Some(ArgView::Flag(true)) && q.text("name"@) is Some
            ==> worktree_wanted(q, s, Some(s.panes[i].id)) == Ok::<_, FaultView>(
            Some((s.panes[i].cwd, q.text("name"@)->Some_0)),
        ),
        q.get("worktree"@) == Some(ArgView::Flag(true)) && q.text("name"@) is None
            ==> worktree_wanted(q, s, Some(s.panes[i].id)) is Err,
        q.text("worktree"@) is Some ==> worktree_wanted(q, s, Some(s.panes[i].id)) == Ok::<_, FaultView>(
            Some((s.panes[i].cwd, q.text("worktree"@)->Some_0)),
        ),
{
    let id = s.panes[i].id;
    assert forall|j: int| 0 <= j < i implies !pane_is(id)(#[trigger] s.panes[j]) by {
        assert(s.panes[j].id < s.panes[i].id);
    }
    lemma_first_where_is(s.panes, pane_is(id), i);
}

/// A new pane has the name, the profile and the role it was asked for with, takes board work where
/// that was asked for, and is on account of whoever asked. All else of it stays, and every other
/// pane.
pub proof fn law_a_new_agent_is_as_asked(
    s: SessionView,
    i: int,
    plan: SpawnPlanView,
    role: Option<Seq<char>>,
    board: bool,
)
    requires
        s.wf(),
        0 <= i < s.panes.len(),
    ensures
        ({
            let t = outfitting(s, s.panes[i].id, plan, role, board);
            let p = s.panes[i];
            let r = t.panes[i];
            &&& plan.name is Some ==> r.name == plan.name
            &&& plan.name is None ==> r.name == p.name
            &&& plan.profile is Some ==> r.life.model is Some && r.life.model->Some_0.profile
                == plan.profile->Some_0 && r.life.model->Some_0.index == 0
                && r.life.model->Some_0.switched is None
            &&& plan.profile is None ==> r.life.model == p.life.model
            &&& role is Some ==> r.life.role == role
            &&& role is None ==> r.life.role == p.life.role
            &&& board ==> r.life.board
            &&& !board ==> r.life.board == p.life.board
            &&& r.life.spawned_by_pane == plan.by
            &&& r.id == p.id && r.cmd == p.cmd && r.cwd == p.cwd && r.space == p.space && r.tab
                == p.tab && r.life.spawned_by == p.life.spawned_by && r.life.exited
                == p.life.exited && r.life.agent == p.life.agent
            &&& forall|j: int|
                0 <= j < s.panes.len() && j != i ==> #[trigger] t.panes[j] == s.panes[j]
        }),
{
    let id = s.panes[i].id;
    assert forall|j: int| 0 <= j < i implies !pane_is(id)(#[trigger] s.panes[j]) by {
        assert(s.panes[j].id < s.panes[i].id);
    }
    lemma_first_where_is(s.panes, pane_is(id), i);
}

/// An agent's first words are what it was started with, under its name or else its number; blank
/// ones are none.
pub proof fn law_first_words_are_for_the_new_agent(q: RequestView, plan: SpawnPlanView, pane: u64)
    ensures
        q.text("brief"@) is None ==> brief_of(q, plan, pane) is None,
        q.text("brief"@) is Some && trimmed(q.text("brief"@)->Some_0).len() == 0 ==> brief_of(
            q,
            plan,
            pane,
        ) is None,
        q.text("brief"@) is Some && trimmed(q.text("brief"@)->Some_0).len() > 0 ==> {
            let b = brief_of(q, plan, pane);
            &&& b is Some && b->Some_0.1 == q.text("brief"@)->Some_0
            &&& plan.name is Some ==> b->Some_0.0 == plan.name->Some_0
            &&& plan.name is None ==> b->Some_0.0 == decimal(pane as nat)
        },
{
}

/// The pane of a directory is one that works there.
pub proof fn law_whoever_works_somewhere_occupies_it(s: SessionView, path: Seq<char>)
    ensures
        occupant_of(s, path) is None ==> forall|i: int|
            0 <= i < s.panes.len() ==> !crate::paths::same_place((#[trigger] s.panes[i]).cwd, path),
        occupant_of(s, path) is Some ==> exists|i: int|
            0 <= i < s.panes.len() && crate::paths::same_place((#[trigger] s.panes[i]).cwd, path)
                && s.panes[i].id == occupant_of(s, path)->Some_0,
{
    lemma_first_where(s.panes, works_in(path));
    let k = crate::seqs::first_where(s.panes, works_in(path));
    if k < s.panes.len() {
        assert(works_in(path)(s.panes[k]));
    } else {
        assert forall|i: int| 0 <= i < s.panes.len() implies !crate::paths::same_place(
            (#[trigger] s.panes[i]).cwd,
            path,
        ) by {
            assert(!works_in(path)(s.panes[i]));
        }
    }
}

// -- reports -----------------------------------------------------------------

/// A report names one of four states.
pub proof fn law_a_report_names_a_state(q: RequestView)
    ensures
        q.text("state"@) == Some("working"@) ==> state_named(q) == Ok::<_, FaultView>(AgentState::Working),
        q.text("state"@) == Some("blocked"@) ==> state_named(q) == Ok::<_, FaultView>(AgentState::Blocked),
        q.text("state"@) == Some("idle"@) ==> state_named(q) == Ok::<_, FaultView>(AgentState::Idle),
        q.text("state"@) == Some("done"@) ==> state_named(q) == Ok::<_, FaultView>(AgentState::Done),
        q.text("state"@) is None ==> state_named(q) is Err && state_named(q)->Err_0.code
            == Code::BadRequest,
        q.text("state"@) is Some && q.text("state"@)->Some_0 != "working"@ && q.text(
            "state"@,
        )->Some_0 != "blocked"@ && q.text("state"@)->Some_0 != "idle"@ && q.text("state"@)->Some_0
            != "done"@ ==> state_named(q) is Err && state_named(q)->Err_0.code == Code::BadRequest,
{
    reveal_strlit("working");
    reveal_strlit("blocked");
    reveal_strlit("idle");
    reveal_strlit("done");
    assert("working"@[0] != "blocked"@[0]);
    assert("working"@[0] != "idle"@[0]);
    assert("working"@[0] != "done"@[0]);
    assert("blocked"@[0] != "idle"@[0]);
    assert("blocked"@[0] != "done"@[0]);
    assert("idle"@[0] != "done"@[0]);
}

/// A new turn counts one more turn and begins every other count anew.
pub proof fn law_a_new_turn_counts_from_nothing(d: DoingsView)
    requires
        d.activity.turns < u32::MAX,
    ensures
        turned(d).activity.turns == d.activity.turns + 1,
        turned(d).activity.tools == 0,
        turned(d).activity.files == 0,
        turned(d).activity.errors == 0,
        turned(d).activity.last_tool is None,
        turned(d).touched.len() == 0,
{
}

/// A tool call counts one more call, by its name where it has one, and a file the first time.
pub proof fn law_a_tool_call_counts_once(
    d: DoingsView,
    tool: Option<Seq<char>>,
    file: Option<Seq<char>>,
)
    requires
        d.activity.tools < u32::MAX,
        d.touched.len() < u32::MAX,
    ensures
        ({
            let e = tooled(d, tool, file);
            &&& e.activity.tools == d.activity.tools + 1
            &&& e.activity.turns == d.activity.turns && e.activity.errors == d.activity.errors
            &&& tool is Some ==> e.activity.last_tool == tool
            &&& tool is None ==> e.activity.last_tool == d.activity.last_tool
            &&& file is Some ==> e.touched.contains(file->Some_0)
            &&& file is Some && !d.touched.contains(file->Some_0) ==> e.activity.files
                == d.touched.len() + 1 && e.touched.len() == d.touched.len() + 1
            &&& file is None || d.touched.contains(file->Some_0) ==> e.activity.files
                == d.activity.files && e.touched == d.touched
        }),
{
    if file is Some && !d.touched.contains(file->Some_0) {
        assert(d.touched.push(file->Some_0).last() == file->Some_0);
        assert(d.touched.push(file->Some_0)[d.touched.len() as int] == file->Some_0);
    }
}

/// A report does as much as it says: a turn, a call and a failure each count where it says so.
pub proof fn law_a_report_counts_what_it_says(d: DoingsView, q: RequestView)
    requires
        d.activity.tools < u32::MAX,
        d.activity.errors < u32::MAX,
        d.activity.turns < u32::MAX,
    ensures
        ({
            let e = reported(d, q);
            let turn = q.is_on("new_turn"@);
            let tool = q.is_on("counts_tool"@);
            let failed = q.is_on("tool_failed"@);
            &&& !turn && !tool && !failed ==> e == d
            &&& e.activity.turns == d.activity.turns + if turn {
                1int
            } else {
                0int
            }
            &&& e.activity.tools == (if turn {
                0int
            } else {
                d.activity.tools as int
            }) + if tool {
                1int
            } else {
                0int
            }
            &&& e.activity.errors == (if turn {
                0int
            } else {
                d.activity.errors as int
            }) + if failed {
                1int
            } else {
                0int
            }
            &&& tool && q.text("tool"@) is Some ==> e.activity.last_tool == q.text("tool"@)
        }),
{
}

/// The last lines are those at the end.
pub proof fn law_the_last_lines_are_those_at_the_end(all: Seq<Seq<char>>, n: int, k: int)
    requires
        n >= 0,
        0 <= k < last_lines(all, n).len(),
    ensures
        n >= all.len() ==> last_lines(all, n) == all,
        n < all.len() ==> last_lines(all, n).len() == n,
        last_lines(all, n)[k] == all[all.len() - last_lines(all, n).len() + k],
{
}

/// A pane's project is the space that it is in, by name.
pub proof fn law_a_panes_project_is_its_space(s: SessionView, i: int, k: int, other: u64)
    requires
        s.wf(),
        0 <= i < s.panes.len(),
        0 <= k < s.spaces.len(),
        s.panes[i].space == s.spaces[k].id,
    ensures
        space_name_of(s, s.panes[i].id) == Some(s.spaces[k].name),
        !s.has_pane(other) ==> space_name_of(s, other) is None,
{
    let id = s.panes[i].id;
    assert forall|j: int| 0 <= j < i implies !pane_is(id)(#[trigger] s.panes[j]) by {
        assert(s.panes[j].id < s.panes[i].id);
    }
    lemma_first_where_is(s.panes, pane_is(id), i);
    let sp = s.spaces[k].id;
    assert forall|j: int| 0 <= j < k implies !space_is(sp)(#[trigger] s.spaces[j]) by {
        assert(s.spaces[j].id < s.spaces[k].id);
    }
    lemma_first_where_is(s.spaces, space_is(sp), k);
}

/// An agent's first task is put on the board of its project, by whoever started it, where there is
/// a board; it is told what it was given.
pub proof fn law_an_agents_first_task_is_its_projects(
    e: EngineView,
    q: RequestView,
    rules: Rules,
    ctx: Context,
    plan: SpawnPlanView,
    id: u64,
)
    ensures
        ({
            let (t, r) = agent_finished(e, q, rules, ctx, plan, id);
            &&& q.text("task"@) is None ==> r is Ok && r->Ok_0.pane == id && r->Ok_0.task is None
                && r->Ok_0.brief == brief_of(q, plan, id) && t.board == e.board
            &&& q.text("task"@) is Some && !rules.board ==> r is Err && t == e
            &&& q.text("task"@) is Some && rules.board ==> {
                let (b, a) = adding(
                    e.board,
                    q.text("task"@)->Some_0,
                    ctx.sender@,
                    space_name_of(e.session, id),
                    ctx.now,
                );
                &&& t.board == b
                &&& a is Ok ==> r is Ok && r->Ok_0.task == Some(a->Ok_0.id) && r->Ok_0.pane == id
                &&& a is Err ==> r is Err
            }
            &&& r is Ok ==> t.detect_soon && t.dirty_shape
            &&& t.session == e.session
        }),
{
}

} // verus!
