//! Telling an idle agent that there is work on the board.
//!
//! The board is pull-based: whoever is free takes the next task. But an agent that is never
//! told has no reason to look. So one enlisted agent of a project is told, once per idle
//! period, and only of work it could take. Nothing about exclusivity depends on who was told:
//! the claim decides.

use crate::agent::{AgentRuntime, AgentView};
use crate::journal::{called, entry_of};
use crate::proto::AgentState;
use crate::seqs::{
    count_where, first_where, lemma_count_none, lemma_count_take, lemma_first_where_is,
    lemma_pick_sound, lemma_pick_take, pick,
};
use crate::state::{Pane, PaneLifeView, PaneView, Session, SessionView};
use crate::tasks::{listed, Board, BoardView, TaskView};
use crate::text::{as_opt, decimal, number, opt_str, opt_text, own_opt, owned, same_opt, texts};
use vstd::prelude::*;
use vstd::string::*;

verus! {

/// The owners of claimed tasks: they need no more work.
pub open spec fn holders(b: BoardView) -> Seq<Seq<char>> {
    pick(
        b.tasks,
        |t: TaskView| t.is_claimed() && t.owner is Some,
        |t: TaskView| t.owner->Some_0,
    )
}

/// The owners of any task, ever: they stay in the loop.
pub open spec fn workers(b: BoardView) -> Seq<Seq<char>> {
    pick(b.tasks, |t: TaskView| t.owner is Some, |t: TaskView| t.owner->Some_0)
}

/// Whether an agent's state means it is free to take board work.
pub open spec fn eligible(a: AgentView, workers: Seq<Seq<char>>) -> bool {
    a.state == AgentState::Idle || (a.state == AgentState::Done && workers.contains(a.name))
}

/// Whether an agent's state means it is free to take board work.
///
/// `idle` always counts. `done` counts only for an agent that has already owned a task: for
/// anyone else it means that a person has not read the result yet.
pub fn eligible_state(a: &AgentRuntime, board_workers: &[String]) -> (r: bool)
    ensures
        r == eligible(a@, texts(board_workers@)),
{
    match a.state {
        AgentState::Idle => true,
        AgentState::Done => listed(board_workers, a.name.as_str()),
        _ => false,
    }
}

/// The owners of claimed tasks.
fn holding(board: &Board) -> (r: Vec<String>)
    ensures
        texts(r@) == holders(board@),
{
    let ghost p = |t: TaskView| t.is_claimed() && t.owner is Some;
    let ghost f = |t: TaskView| t.owner->Some_0;
    let mut out: Vec<String> = Vec::new();
    let mut i: usize = 0;
    proof {
        assert(texts(out@) =~= pick(board@.tasks.take(0), p, f));
    }
    while i < board.tasks.len()
        invariant
            i <= board.tasks@.len(),
            p == (|t: TaskView| t.is_claimed() && t.owner is Some),
            f == (|t: TaskView| t.owner->Some_0),
            texts(out@) == pick(board@.tasks.take(i as int), p, f),
        decreases board.tasks@.len() - i,
    {
        proof {
            lemma_pick_take(board@.tasks, p, f, i as int);
            assert(board@.tasks[i as int] == board.tasks@[i as int]@);
        }
        if board.tasks[i].is_claimed() {
            if let Some(o) = &board.tasks[i].owner {
                let ghost had = texts(out@);
                out.push(o.clone());
                proof {
                    assert(texts(out@) =~= had.push(o@));
                }
            }
        }
        i = i + 1;
    }
    proof {
        assert(board@.tasks.take(i as int) =~= board@.tasks);
    }
    out
}

/// The owners of any task, ever.
fn working(board: &Board) -> (r: Vec<String>)
    ensures
        texts(r@) == workers(board@),
{
    let ghost p = |t: TaskView| t.owner is Some;
    let ghost f = |t: TaskView| t.owner->Some_0;
    let mut out: Vec<String> = Vec::new();
    let mut i: usize = 0;
    proof {
        assert(texts(out@) =~= pick(board@.tasks.take(0), p, f));
    }
    while i < board.tasks.len()
        invariant
            i <= board.tasks@.len(),
            p == (|t: TaskView| t.owner is Some),
            f == (|t: TaskView| t.owner->Some_0),
            texts(out@) == pick(board@.tasks.take(i as int), p, f),
        decreases board.tasks@.len() - i,
    {
        proof {
            lemma_pick_take(board@.tasks, p, f, i as int);
            assert(board@.tasks[i as int] == board.tasks@[i as int]@);
        }
        if let Some(o) = &board.tasks[i].owner {
            let ghost had = texts(out@);
            out.push(o.clone());
            proof {
                assert(texts(out@) =~= had.push(o@));
            }
        }
        i = i + 1;
    }
    proof {
        assert(board@.tasks.take(i as int) =~= board@.tasks);
    }
    out
}

/// The roles that tasks are for, as text.
pub open spec fn role_views(v: Seq<Option<String>>) -> Seq<Option<Seq<char>>> {
    Seq::new(v.len(), |i: int| opt_text(v[i]))
}

/// Work that an agent with this role may take: its own role's, and what is for nobody in
/// particular.
pub open spec fn suits(role: Option<Seq<char>>) -> spec_fn(Option<Seq<char>>) -> bool {
    |o: Option<Seq<char>>| o is None || o == role
}

/// How much of the work an agent with this role may take.
pub open spec fn offered(offers: Seq<Option<Seq<char>>>, role: Option<Seq<char>>) -> nat {
    count_where(offers, suits(role))
}

/// What is known when somebody is to be told.
pub struct Facts {
    pub space: u64,
    pub holding: Seq<Seq<char>>,
    pub workers: Seq<Seq<char>>,
    /// For each task that waits, the role it is for.
    pub offers: Seq<Option<Seq<char>>>,
}

/// A pane of the project that takes board work and has an agent.
pub open spec fn enlisted(f: Facts, p: PaneView) -> bool {
    p.space == f.space && p.life.board && !p.life.exited && p.life.agent is Some
}

/// A pane whose agent could be told: it volunteered in this project, is free, has nothing
/// queued for it, and holds no task.
pub open spec fn candidate(f: Facts, p: PaneView) -> bool {
    enlisted(f, p) && ({
        let a = p.life.agent->Some_0;
        eligible(a, f.workers) && a.queued.len() == 0 && !f.holding.contains(a.name)
    })
}

/// Whether an agent has been told already, and has not moved since.
pub open spec fn told(a: AgentView) -> bool {
    a.nudged_since == Some(a.since)
}

/// A pane with this role whose agent is busy with a task, or about to be.
pub open spec fn engaged(f: Facts, role: Option<Seq<char>>) -> spec_fn(PaneView) -> bool {
    |p: PaneView|
        enlisted(f, p) && p.life.role == role && ({
            let a = p.life.agent->Some_0;
            f.holding.contains(a.name) || (told(a) && eligible(a, f.workers))
        })
}

/// Whether to tell the agent of a pane: it could be told, it has not been, and there is more
/// work for its role than there are agents on it.
pub open spec fn wakeable(s: SessionView, f: Facts, p: PaneView) -> bool {
    candidate(f, p) && !told(p.life.agent->Some_0) && offered(f.offers, p.life.role) > count_where(
        s.panes,
        engaged(f, p.life.role),
    )
}

/// Whether one pane is to be told before another: general hands first, then whoever has been
/// idle longest.
pub open spec fn sooner(p: PaneView, q: PaneView) -> bool {
    let a = p.life.agent->Some_0;
    let b = q.life.agent->Some_0;
    (p.life.role is None && q.life.role is Some) || (p.life.role is Some == q.life.role is Some
        && a.since < b.since)
}

/// The pane to tell, among the first `n`.
pub open spec fn chosen(s: SessionView, f: Facts, n: int) -> Option<int>
    decreases n,
{
    if n <= 0 {
        None
    } else {
        let best = chosen(s, f, n - 1);
        let p = s.panes[n - 1];
        if wakeable(s, f, p) && (best is None || sooner(p, s.panes[best->Some_0])) {
            Some(n - 1)
        } else {
            best
        }
    }
}

/// What an agent is told: what it is being offered, not what the board holds.
pub open spec fn nudge_text(waiting: nat, space: Seq<char>, role: Option<Seq<char>>) -> Seq<char> {
    decimal(waiting) + " task"@ + (if waiting == 1 {
        ""@
    } else {
        "s"@
    }) + " on the "@ + space + " board "@ + (match role {
        Some(r) => "for "@ + r,
        None => "waiting"@,
    })
        + ". Run `horde task claim` to take the next one, do it, then `horde task done --result \"<what happened>\"`. Repeat while it keeps returning work."@
}

/// A line for an agent.
#[derive(Debug, Clone, PartialEq, Eq)]
pub struct Nudge {
    pub pane: u64,
    pub name: String,
    pub body: String,
}

/// The same, as text.
pub struct NudgeView {
    pub pane: u64,
    pub name: Seq<char>,
    pub body: Seq<char>,
}

impl View for Nudge {
    type V = NudgeView;

    open spec fn view(&self) -> NudgeView {
        NudgeView { pane: self.pane, name: self.name@, body: self.body@ }
    }
}

/// A pane whose agent has been told.
pub open spec fn woken(p: PaneView) -> PaneView {
    PaneView {
        life: PaneLifeView {
            agent: match p.life.agent {
                Some(a) => Some(AgentView { nudged_since: Some(a.since), ..a }),
                None => None,
            },
            ..p.life
        },
        ..p
    }
}

/// What is known about a project.
pub open spec fn facts_of(b: BoardView, space: u64, offers: Seq<Option<Seq<char>>>) -> Facts {
    Facts { space, holding: holders(b), workers: workers(b), offers }
}

/// The role that a task is for, as the list of those that are for one has it.
pub open spec fn role_for(roles: Seq<(u64, Seq<char>)>, task: u64) -> Option<Seq<char>> {
    let i = first_where(roles, entry_of(task));
    if i < roles.len() {
        Some(roles[i].1)
    } else {
        None
    }
}

/// A task that is offered in a project: open, fresh, and the project's own.
pub open spec fn offered_in(space: Seq<char>, now: u64) -> spec_fn(TaskView) -> bool {
    |t: TaskView| t.is_offered(space, now)
}

/// The role that a task is for.
pub open spec fn for_role(roles: Seq<(u64, Seq<char>)>) -> spec_fn(TaskView) -> Option<Seq<char>> {
    |t: TaskView| role_for(roles, t.id)
}

/// For each task that is offered in a project, the role it is for.
pub open spec fn offers_of(
    b: BoardView,
    space: Seq<char>,
    roles: Seq<(u64, Seq<char>)>,
    now: u64,
) -> Seq<Option<Seq<char>>> {
    pick(b.tasks, offered_in(space, now), for_role(roles))
}

/// What telling one agent of a project does.
pub open spec fn nudging(
    s: SessionView,
    b: BoardView,
    space: u64,
    name: Seq<char>,
    offers: Seq<Option<Seq<char>>>,
) -> (SessionView, Option<NudgeView>) {
    let f = facts_of(b, space, offers);
    match chosen(s, f, s.panes.len() as int) {
        Some(i) if offers.len() > 0 => {
            let p = s.panes[i];
            (
                SessionView { panes: s.panes.update(i, woken(p)), ..s },
                Some(
                    NudgeView {
                        pane: p.id,
                        name: p.life.agent->Some_0.name,
                        body: nudge_text(offered(offers, p.life.role), name, p.life.role),
                    },
                ),
            )
        },
        _ => (s, None),
    }
}

/// The role that a task is for.
fn find_role(roles: &Vec<(u64, String)>, task: u64) -> (r: Option<String>)
    ensures
        opt_text(r) == role_for(called(roles@), task),
{
    let ghost ns = called(roles@);
    let mut i: usize = 0;
    while i < roles.len()
        invariant
            i <= roles@.len(),
            ns == called(roles@),
            forall|j: int| 0 <= j < i ==> !entry_of(task)(#[trigger] ns[j]),
        decreases roles@.len() - i,
    {
        if roles[i].0 == task {
            proof {
                assert(entry_of(task)(ns[i as int]));
                lemma_first_where_is(ns, entry_of(task), i as int);
            }
            return Some(roles[i].1.clone());
        }
        proof {
            assert(!entry_of(task)(ns[i as int]));
        }
        i = i + 1;
    }
    proof {
        lemma_first_where_is(ns, entry_of(task), ns.len() as int);
    }
    None
}

/// For each task that is offered in a project, the role it is for.
fn offering(board: &Board, space: &str, roles: &Vec<(u64, String)>, now: u64) -> (r: Vec<
    Option<String>,
>)
    ensures
        role_views(r@) == offers_of(board@, space@, called(roles@), now),
{
    let ghost p = offered_in(space@, now);
    let ghost f = for_role(called(roles@));
    let mut out: Vec<Option<String>> = Vec::new();
    let mut i: usize = 0;
    proof {
        assert(role_views(out@) =~= pick(board@.tasks.take(0), p, f));
    }
    while i < board.tasks.len()
        invariant
            i <= board.tasks@.len(),
            p == offered_in(space@, now),
            f == for_role(called(roles@)),
            role_views(out@) == pick(board@.tasks.take(i as int), p, f),
        decreases board.tasks@.len() - i,
    {
        let t = &board.tasks[i];
        proof {
            lemma_pick_take(board@.tasks, p, f, i as int);
            assert(board@.tasks[i as int] == t@);
        }
        if t.is_open() && !t.is_stale(now) && same_opt(as_opt(&t.space), Some(space)) {
            let ghost had = role_views(out@);
            let role = find_role(roles, t.id);
            out.push(role);
            proof {
                assert(role_views(out@) =~= had.push(opt_text(role)));
            }
        }
        i = i + 1;
    }
    proof {
        assert(board@.tasks.take(i as int) =~= board@.tasks);
    }
    out
}

/// How much of the work an agent with this role may take.
fn count_offers(offers: &Vec<Option<String>>, role: Option<&str>) -> (r: usize)
    ensures
        r as nat == offered(role_views(offers@), opt_str(role)),
{
    let ghost os = role_views(offers@);
    let ghost p = suits(opt_str(role));
    let mut n: usize = 0;
    let mut i: usize = 0;
    proof {
        assert(os.take(0) =~= Seq::<Option<Seq<char>>>::empty());
    }
    while i < offers.len()
        invariant
            i <= offers@.len(),
            n <= i,
            os == role_views(offers@),
            p == suits(opt_str(role)),
            n as nat == count_where(os.take(i as int), p),
        decreases offers@.len() - i,
    {
        proof {
            lemma_count_take(os, p, i as int);
            assert(os[i as int] == opt_text(offers@[i as int]));
        }
        if offers[i].is_none() || same_opt(as_opt(&offers[i]), role) {
            n = n + 1;
        }
        i = i + 1;
    }
    proof {
        assert(os.take(i as int) =~= os);
    }
    n
}

/// Whether a pane with this role has an agent that is busy with a task, or about to be.
fn is_engaged(
    p: &Pane,
    space: u64,
    role: Option<&str>,
    held: &Vec<String>,
    worked: &Vec<String>,
    Ghost(f): Ghost<Facts>,
) -> (r: bool)
    requires
        f.space == space,
        f.holding == texts(held@),
        f.workers == texts(worked@),
    ensures
        r == engaged(f, opt_str(role))(p@),
{
    if p.space != space || !p.life.board || p.life.exited || !same_opt(
        as_opt(&p.life.role),
        role,
    ) {
        return false;
    }
    match &p.life.agent {
        None => false,
        Some(a) => {
            let was_told = match a.nudged_since {
                Some(x) => x == a.since,
                None => false,
            };
            listed(held.as_slice(), a.name.as_str()) || (was_told && eligible_state(
                a,
                worked.as_slice(),
            ))
        },
    }
}

/// How many agents with this role are on the work already.
fn count_engaged(
    s: &Session,
    space: u64,
    role: Option<&str>,
    held: &Vec<String>,
    worked: &Vec<String>,
    Ghost(f): Ghost<Facts>,
) -> (r: usize)
    requires
        f.space == space,
        f.holding == texts(held@),
        f.workers == texts(worked@),
    ensures
        r as nat == count_where(s@.panes, engaged(f, opt_str(role))),
{
    let ghost p = engaged(f, opt_str(role));
    let mut n: usize = 0;
    let mut i: usize = 0;
    proof {
        assert(s@.panes.take(0) =~= Seq::<PaneView>::empty());
    }
    while i < s.panes.len()
        invariant
            i <= s.panes@.len(),
            n <= i,
            f.space == space,
            f.holding == texts(held@),
            f.workers == texts(worked@),
            p == engaged(f, opt_str(role)),
            n as nat == count_where(s@.panes.take(i as int), p),
        decreases s.panes@.len() - i,
    {
        proof {
            lemma_count_take(s@.panes, p, i as int);
            assert(s@.panes[i as int] == s.panes@[i as int]@);
        }
        if is_engaged(&s.panes[i], space, role, held, worked, Ghost(f)) {
            n = n + 1;
        }
        i = i + 1;
    }
    proof {
        assert(s@.panes.take(i as int) =~= s@.panes);
    }
    n
}

/// Whether to tell the agent of a pane.
fn is_wakeable(
    s: &Session,
    p: &Pane,
    space: u64,
    offers: &Vec<Option<String>>,
    held: &Vec<String>,
    worked: &Vec<String>,
    Ghost(f): Ghost<Facts>,
) -> (r: bool)
    requires
        f.space == space,
        f.holding == texts(held@),
        f.workers == texts(worked@),
        f.offers == role_views(offers@),
    ensures
        r == wakeable(s@, f, p@),
{
    if p.space != space || !p.life.board || p.life.exited {
        return false;
    }
    match &p.life.agent {
        None => false,
        Some(a) => {
            let was_told = match a.nudged_since {
                Some(x) => x == a.since,
                None => false,
            };
            if was_told || !eligible_state(a, worked.as_slice()) || a.queued.len() > 0 || listed(
                held.as_slice(),
                a.name.as_str(),
            ) {
                return false;
            }
            let role = as_opt(&p.life.role);
            count_offers(offers, role) > count_engaged(s, space, role, held, worked, Ghost(f))
        },
    }
}

/// Whether one pane is to be told before another.
fn is_sooner(p: &Pane, q: &Pane) -> (r: bool)
    requires
        p@.life.agent is Some,
        q@.life.agent is Some,
    ensures
        r == sooner(p@, q@),
{
    match (&p.life.agent, &q.life.agent) {
        (Some(a), Some(b)) => {
            let x = p.life.role.is_some();
            let y = q.life.role.is_some();
            (!x && y) || (x == y && a.since < b.since)
        },
        _ => false,
    }
}

/// What is chosen could be told.
proof fn lemma_chosen(s: SessionView, f: Facts, n: int)
    requires
        0 <= n <= s.panes.len(),
    ensures
        chosen(s, f, n) matches Some(i) ==> 0 <= i < n && wakeable(s, f, s.panes[i]),
        chosen(s, f, n) is None ==> forall|i: int|
            0 <= i < n ==> !wakeable(s, f, #[trigger] s.panes[i]),
    decreases n,
{
    if n > 0 {
        lemma_chosen(s, f, n - 1);
    }
}

impl Session {
    /// Tell one enlisted agent in a project that there is work waiting *for it*: open, fresh
    /// tasks of the project's own. `roles` has the tasks that are for one role only.
    pub fn nudge_one(
        &mut self,
        board: &Board,
        space: u64,
        space_name: &str,
        roles: &Vec<(u64, String)>,
        now: u64,
    ) -> (r: Option<Nudge>)
        ensures
            (
                final(self)@,
                match r {
                    Some(n) => Some(n@),
                    None => None,
                },
            ) == nudging(
                old(self)@,
                board@,
                space,
                space_name@,
                offers_of(board@, space_name@, called(roles@), now),
            ),
            old(self)@.wf() ==> final(self)@.wf(),
    {
        let offers = offering(board, space_name, roles, now);
        if offers.len() == 0 {
            return None;
        }
        // An agent already holding a task does not need more.
        let held = holding(board);
        let worked = working(board);
        let ghost f = facts_of(board@, space, role_views(offers@));
        let mut best: Option<usize> = None;
        let mut i: usize = 0;
        while i < self.panes.len()
            invariant
                i <= self.panes@.len(),
                self == old(self),
                f == facts_of(board@, space, role_views(offers@)),
                texts(held@) == f.holding,
                texts(worked@) == f.workers,
                (match best {
                    Some(b) => Some(b as int),
                    None => None,
                }) == chosen(self@, f, i as int),
                best matches Some(b) ==> b < i && self@.panes[b as int].life.agent is Some,
            decreases self.panes@.len() - i,
        {
            let p = &self.panes[i];
            proof {
                assert(self@.panes[i as int] == p@);
            }
            if is_wakeable(self, p, space, &offers, &held, &worked, Ghost(f)) {
                let take = match best {
                    None => true,
                    Some(b) => {
                        proof {
                            assert(self@.panes[b as int] == self.panes@[b as int]@);
                        }
                        is_sooner(p, &self.panes[b])
                    },
                };
                if take {
                    best = Some(i);
                }
            }
            i = i + 1;
        }
        let k: usize = match best {
            Some(b) => b,
            None => {
                return None;
            },
        };
        proof {
            assert(self@.panes[k as int] == self.panes@[k as int]@);
        }
        let pane: u64 = self.panes[k].id;
        let role = own_opt(as_opt(&self.panes[k].life.role));
        let waiting: usize = count_offers(&offers, as_opt(&role));
        let name = match &self.panes[k].life.agent {
            Some(a) => a.name.clone(),
            None => String::new(),
        };
        let ghost before = self@;
        // Marked before anything is sent, so a failure cannot produce a nudge loop.
        if let Some(a) = &mut self.panes[k].life.agent {
            a.nudged_since = Some(a.since);
        }
        proof {
            assert(self@.panes =~= before.panes.update(k as int, woken(before.panes[k as int])));
        }
        let mut body = number(waiting as u64);
        body.append(" task");
        body.append(
            if waiting == 1 {
                ""
            } else {
                "s"
            },
        );
        body.append(" on the ");
        body.append(space_name);
        body.append(" board ");
        let whose = match &role {
            Some(r) => {
                let mut w = owned("for ");
                w.append(r.as_str());
                w
            },
            None => owned("waiting"),
        };
        body.append(whose.as_str());
        body.append(
            ". Run `horde task claim` to take the next one, do it, then `horde task done --result \"<what happened>\"`. Repeat while it keeps returning work.",
        );
        Some(Nudge { pane, name, body })
    }

    /// Tell at most one agent in each project, and only of that project's work. Nothing is said
    /// while nudging is off, or while the board is.
    pub fn nudge_for_tasks(
        &mut self,
        board: &Board,
        board_on: bool,
        task_nudge: bool,
        roles: &Vec<(u64, String)>,
        now: u64,
    ) -> (r: Vec<Nudge>)
        ensures
            (final(self)@, nudge_views(r@)) == (if board_on && task_nudge {
                nudging_all(
                    old(self)@,
                    board@,
                    called(roles@),
                    now,
                    old(self)@.spaces.len() as int,
                )
            } else {
                (old(self)@, Seq::empty())
            }),
            old(self)@.wf() ==> final(self)@.wf(),
    {
        let mut out: Vec<Nudge> = Vec::new();
        proof {
            assert(nudge_views(out@) =~= Seq::<NudgeView>::empty());
        }
        if !board_on || !task_nudge {
            return out;
        }
        let ghost s0 = self@;
        let ghost rs = called(roles@);
        let n: usize = self.spaces.len();
        let mut i: usize = 0;
        while i < n
            invariant
                i <= n,
                n == s0.spaces.len(),
                rs == called(roles@),
                self@.spaces == s0.spaces,
                (self@, nudge_views(out@)) == nudging_all(s0, board@, rs, now, i as int),
                old(self)@.wf() ==> self@.wf(),
            decreases n - i,
        {
            proof {
                assert(self.spaces@.len() == self@.spaces.len());
                assert(self@.spaces[i as int] == self.spaces@[i as int]@);
            }
            let id: u64 = self.spaces[i].id;
            let name = self.spaces[i].name.clone();
            let ghost had = nudge_views(out@);
            match self.nudge_one(board, id, name.as_str(), roles, now) {
                Some(n) => {
                    out.push(n);
                    proof {
                        assert(nudge_views(out@) =~= had.push(n@));
                    }
                },
                None => {},
            }
            i = i + 1;
        }
        out
    }

    /// The roles of the agents enlisted for board work in one project: what decides whether
    /// role-tagged work can be taken by anybody there.
    pub fn roles_enlisted_in(&self, space_name: &str) -> (r: Vec<String>)
        ensures
            texts(r@) == roles_in(self@, space_name@),
    {
        let mut out: Vec<String> = Vec::new();
        let id = match self.find_space_by_name(space_name) {
            Some(id) => id,
            None => {
                proof {
                    assert(texts(out@) =~= roles_in(self@, space_name@));
                }
                return out;
            },
        };
        let ghost p = wears_role(id);
        let ghost f = |p: PaneView| p.life.role->Some_0;
        let mut i: usize = 0;
        proof {
            assert(texts(out@) =~= pick(self@.panes.take(0), p, f));
        }
        while i < self.panes.len()
            invariant
                i <= self.panes@.len(),
                p == wears_role(id),
                f == (|p: PaneView| p.life.role->Some_0),
                texts(out@) == pick(self@.panes.take(i as int), p, f),
            decreases self.panes@.len() - i,
        {
            proof {
                lemma_pick_take(self@.panes, p, f, i as int);
                assert(self@.panes[i as int] == self.panes@[i as int]@);
            }
            let x = &self.panes[i];
            if x.space == id && x.life.board && !x.life.exited && x.life.agent.is_some() {
                if let Some(role) = &x.life.role {
                    let ghost had = texts(out@);
                    out.push(role.clone());
                    proof {
                        assert(texts(out@) =~= had.push(role@));
                    }
                }
            }
            i = i + 1;
        }
        proof {
            assert(self@.panes.take(i as int) =~= self@.panes);
        }
        out
    }
}

/// A pane of this space that takes board work, with an agent and a role.
pub open spec fn wears_role(space: u64) -> spec_fn(PaneView) -> bool {
    |p: PaneView|
        p.space == space && p.life.board && !p.life.exited && p.life.agent is Some && p.life.role is Some
}

/// The roles of the agents enlisted for board work in the project of this name.
pub open spec fn roles_in(s: SessionView, name: Seq<char>) -> Seq<Seq<char>> {
    let i = first_where(s.spaces, crate::state::named(name));
    if crate::state::taken(s.spaces, name) {
        pick(s.panes, wears_role(s.spaces[i].id), |p: PaneView| p.life.role->Some_0)
    } else {
        Seq::empty()
    }
}

/// Nudges, as text.
pub open spec fn nudge_views(v: Seq<Nudge>) -> Seq<NudgeView> {
    Seq::new(v.len(), |i: int| v[i]@)
}

/// What telling one agent in each of the first `n` projects does.
pub open spec fn nudging_all(
    s: SessionView,
    b: BoardView,
    roles: Seq<(u64, Seq<char>)>,
    now: u64,
    n: int,
) -> (SessionView, Seq<NudgeView>)
    decreases n,
{
    if n <= 0 {
        (s, Seq::empty())
    } else {
        let (t, sent) = nudging_all(s, b, roles, now, n - 1);
        let sp = s.spaces[n - 1];
        let (u, one) = nudging(t, b, sp.id, sp.name, offers_of(b, sp.name, roles, now));
        match one {
            Some(x) => (u, sent.push(x)),
            None => (u, sent),
        }
    }
}

// -- laws --------------------------------------------------------------------

/// Whoever is told is in the project the work is in, volunteered for it, is free, holds no
/// task, and has not been told before in this idle period.
pub proof fn law_only_the_free_and_willing_are_told(
    s: SessionView,
    b: BoardView,
    space: u64,
    name: Seq<char>,
    offers: Seq<Option<Seq<char>>>,
)
    requires
        nudging(s, b, space, name, offers).1 is Some,
    ensures
        ({
            let i = chosen(s, facts_of(b, space, offers), s.panes.len() as int)->Some_0;
            let p = s.panes[i];
            let a = p.life.agent->Some_0;
            &&& 0 <= i < s.panes.len()
            &&& nudging(s, b, space, name, offers).1->Some_0.pane == p.id
            &&& p.space == space && p.life.board && !p.life.exited
            &&& eligible(a, workers(b))
            &&& !holders(b).contains(a.name)
            &&& !told(a)
            &&& offered(offers, p.life.role) > 0
        }),
{
    lemma_chosen(s, facts_of(b, space, offers), s.panes.len() as int);
}

/// One task wakes one agent, even across many passes: while as many agents of a role are on
/// the work as there is work for it, nobody of that role is told.
pub proof fn law_work_wakes_no_more_than_it_needs(s: SessionView, f: Facts, p: PaneView)
    requires
        offered(f.offers, p.life.role) <= count_where(s.panes, engaged(f, p.life.role)),
    ensures
        !wakeable(s, f, p),
{
}

/// Being told puts an agent on the work, so that the next pass counts it.
pub proof fn law_being_told_engages(f: Facts, p: PaneView)
    requires
        candidate(f, p),
    ensures
        engaged(f, p.life.role)(woken(p)),
        told(woken(p).life.agent->Some_0),
{
}

/// An agent that was told is not told again until its state moves.
pub proof fn law_one_nudge_per_idle_period(s: SessionView, f: Facts, p: PaneView)
    requires
        p.life.agent matches Some(a) && told(a),
    ensures
        !wakeable(s, f, p),
{
}

proof fn lemma_chosen_is_soonest(s: SessionView, f: Facts, n: int, j: int)
    requires
        0 <= j < n <= s.panes.len(),
        wakeable(s, f, s.panes[j]),
    ensures
        chosen(s, f, n) matches Some(i) && !sooner(s.panes[j], s.panes[i]),
    decreases n,
{
    lemma_chosen(s, f, n - 1);
    if j < n - 1 {
        lemma_chosen_is_soonest(s, f, n - 1, j);
    }
}

/// The one told is the most available: no other that could be told is a more general hand, or
/// as general and idle for longer.
pub proof fn law_the_most_available_is_told(
    s: SessionView,
    b: BoardView,
    space: u64,
    name: Seq<char>,
    offers: Seq<Option<Seq<char>>>,
    j: int,
)
    requires
        offers.len() > 0,
        0 <= j < s.panes.len(),
        wakeable(s, facts_of(b, space, offers), s.panes[j]),
    ensures
        nudging(s, b, space, name, offers).1 is Some,
        ({
            let i = chosen(s, facts_of(b, space, offers), s.panes.len() as int)->Some_0;
            !sooner(s.panes[j], s.panes[i])
        }),
{
    lemma_chosen_is_soonest(s, facts_of(b, space, offers), s.panes.len() as int, j);
}

/// Only open, fresh work of a project wakes an agent of that project: whoever is told is in the
/// project, and there is such a task on the board, for anybody or for the role of whoever is told.
pub proof fn law_only_a_projects_own_work_wakes_its_agents(
    s: SessionView,
    b: BoardView,
    space: u64,
    name: Seq<char>,
    roles: Seq<(u64, Seq<char>)>,
    now: u64,
) -> (at: (int, int))
    requires
        nudging(s, b, space, name, offers_of(b, name, roles, now)).1 is Some,
    ensures
        0 <= at.0 < s.panes.len(),
        nudging(s, b, space, name, offers_of(b, name, roles, now)).1->Some_0.pane
            == s.panes[at.0].id,
        s.panes[at.0].space == space,
        0 <= at.1 < b.tasks.len(),
        b.tasks[at.1].is_open(),
        !b.tasks[at.1].is_stale(now),
        b.tasks[at.1].space == Some(name),
        role_for(roles, b.tasks[at.1].id) is None || role_for(roles, b.tasks[at.1].id)
            == s.panes[at.0].life.role,
{
    let offers = offers_of(b, name, roles, now);
    law_only_the_free_and_willing_are_told(s, b, space, name, offers);
    let i = chosen(s, facts_of(b, space, offers), s.panes.len() as int)->Some_0;
    let role = s.panes[i].life.role;
    if forall|k: int| 0 <= k < offers.len() ==> !suits(role)(#[trigger] offers[k]) {
        lemma_count_none(offers, suits(role));
    }
    let k = choose|k: int| 0 <= k < offers.len() && suits(role)(#[trigger] offers[k]);
    let j = lemma_pick_sound(b.tasks, offered_in(name, now), for_role(roles), k);
    (i, j)
}

/// A board that has nothing open and fresh of a project's own nudges nobody there, whatever else
/// is on it.
pub proof fn law_a_board_with_nothing_to_offer_nudges_nobody(
    s: SessionView,
    b: BoardView,
    space: u64,
    name: Seq<char>,
    roles: Seq<(u64, Seq<char>)>,
    now: u64,
)
    requires
        forall|i: int| 0 <= i < b.tasks.len() ==> !(#[trigger] b.tasks[i]).is_offered(name, now),
    ensures
        nudging(s, b, space, name, offers_of(b, name, roles, now)) == (s, None::<NudgeView>),
{
    let offers = offers_of(b, name, roles, now);
    if offers.len() > 0 {
        let j = lemma_pick_sound(b.tasks, offered_in(name, now), for_role(roles), 0);
        assert(b.tasks[j].is_offered(name, now));
    }
}

} // verus!
