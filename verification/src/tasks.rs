//! A shared task board agents pull work from.
//!
//! The bus lets you push work at a named agent. This is the other direction: put work on a
//! board and let whoever is free take it.
//!
//! Claiming is the only operation that has to be exactly right. Two agents claiming the same
//! task would duplicate work silently, so a claim is a compare-and-set: it succeeds only from
//! `Open`.
//!
//! A task belongs to a project, by the *name* of its space, and is only ever offered to agents
//! in that project. Past [`STALE_AFTER`] an open task stops being offered, rather than
//! vanishing: it can still be claimed by name.
//!
//! The board never touches a file. Every change to a task is queued in `unwritten`, for the
//! log to take, and a board is made again by replaying what a log holds.

use crate::clock::now_millis;
use crate::seqs::{
    count_where, first_where, lemma_count_none, lemma_count_take, lemma_first_where,
    lemma_first_where_is, lemma_pick_take, pick,
};
use crate::text::{
    as_opt, decimal, number, opt_str, opt_text, own_opt, owned, same, same_opt, texts, trim,
    trimmed,
};
use vstd::prelude::*;
use vstd::string::*;

verus! {

/// Tasks kept in memory. Beyond this the oldest finished ones are forgotten.
pub const CAP: usize = 2000;

/// How long, in milliseconds, an open task goes on being offered: a day.
pub const STALE_AFTER: u64 = 86_400_000;

#[derive(Debug, Clone, Copy, PartialEq, Eq, Structural)]
pub enum TaskState {
    Open,
    Claimed,
    Done,
    /// Given up on. Kept rather than deleted so the record of the attempt survives.
    Dropped,
}

impl TaskState {
    /// The word for a state.
    pub open spec fn word_spec(self) -> Seq<char> {
        match self {
            TaskState::Open => "open"@,
            TaskState::Claimed => "claimed"@,
            TaskState::Done => "done"@,
            TaskState::Dropped => "dropped"@,
        }
    }

    /// The sign for a state.
    pub open spec fn glyph_spec(self) -> Seq<char> {
        match self {
            TaskState::Open => "○"@,
            TaskState::Claimed => "◐"@,
            TaskState::Done => "●"@,
            TaskState::Dropped => "✕"@,
        }
    }

    /// For error text: "already claimed by builder".
    pub fn word(&self) -> (r: &'static str)
        ensures
            r@ == self.word_spec(),
    {
        match self {
            TaskState::Open => "open",
            TaskState::Claimed => "claimed",
            TaskState::Done => "done",
            TaskState::Dropped => "dropped",
        }
    }

    pub fn glyph(&self) -> (r: &'static str)
        ensures
            r@ == self.glyph_spec(),
    {
        match self {
            TaskState::Open => "○",
            TaskState::Claimed => "◐",
            TaskState::Done => "●",
            TaskState::Dropped => "✕",
        }
    }
}

#[derive(Debug, Clone, PartialEq, Eq)]
pub struct Task {
    pub id: u64,
    pub text: String,
    pub state: TaskState,
    /// Unix millis.
    pub created: u64,
    /// Who added it. `user` when it came from outside a pane.
    pub by: String,
    /// Which project it belongs to, by space *name*. `None` is claimable by anyone.
    pub space: Option<String>,
    /// Agent holding it, once claimed.
    pub owner: Option<String>,
    pub claimed_at: Option<u64>,
    pub done_at: Option<u64>,
    /// Whatever the agent said when finishing.
    pub result: Option<String>,
}

/// A task, as text and numbers.
pub struct TaskView {
    pub id: u64,
    pub text: Seq<char>,
    pub state: TaskState,
    pub created: u64,
    pub by: Seq<char>,
    pub space: Option<Seq<char>>,
    pub owner: Option<Seq<char>>,
    pub claimed_at: Option<u64>,
    pub done_at: Option<u64>,
    pub result: Option<Seq<char>>,
}

impl View for Task {
    type V = TaskView;

    open spec fn view(&self) -> TaskView {
        TaskView {
            id: self.id,
            text: self.text@,
            state: self.state,
            created: self.created,
            by: self.by@,
            space: opt_text(self.space),
            owner: opt_text(self.owner),
            claimed_at: self.claimed_at,
            done_at: self.done_at,
            result: opt_text(self.result),
        }
    }
}

impl TaskView {
    pub open spec fn is_open(self) -> bool {
        self.state == TaskState::Open
    }

    pub open spec fn is_claimed(self) -> bool {
        self.state == TaskState::Claimed
    }

    /// Neither open nor claimed.
    pub open spec fn is_finished(self) -> bool {
        !self.is_open() && !self.is_claimed()
    }

    /// Open for longer than a day.
    pub open spec fn is_stale(self, now: u64) -> bool {
        self.is_open() && now - self.created > STALE_AFTER
    }

    /// Its own project, or any when it has no scope.
    pub open spec fn open_to(self, space: Option<Seq<char>>) -> bool {
        self.space is None || self.space == space
    }

    /// What an unnamed claim from `space` may take.
    pub open spec fn takeable(self, space: Option<Seq<char>>, now: u64) -> bool {
        self.is_open() && self.open_to(space) && !self.is_stale(now)
    }

    /// What an agent in `space` is interrupted for.
    pub open spec fn is_offered(self, space: Seq<char>, now: u64) -> bool {
        self.is_open() && !self.is_stale(now) && self.space == Some(space)
    }

    /// Held by `owner`.
    pub open spec fn claimed(self, owner: Seq<char>, now: u64) -> TaskView {
        TaskView {
            state: TaskState::Claimed,
            owner: Some(owner),
            claimed_at: Some(now),
            ..self
        }
    }

    /// Finished, with whatever was said about it. Who finished it is recorded even if they
    /// never claimed it.
    pub open spec fn finished(
        self,
        owner: Seq<char>,
        result: Option<Seq<char>>,
        now: u64,
    ) -> TaskView {
        TaskView {
            state: TaskState::Done,
            done_at: Some(now),
            result: match result {
                Some(r) if trimmed(r).len() > 0 => Some(trimmed(r)),
                _ => None,
            },
            owner: if self.owner is None {
                Some(owner)
            } else {
                self.owner
            },
            ..self
        }
    }

    /// Back on the board, with nobody's name on it.
    pub open spec fn released(self) -> TaskView {
        TaskView { state: TaskState::Open, owner: None, claimed_at: None, ..self }
    }

    /// Given up on.
    pub open spec fn dropped(self, now: u64) -> TaskView {
        TaskView { state: TaskState::Dropped, done_at: Some(now), ..self }
    }
}

impl Task {
    /// A copy.
    pub fn copy(&self) -> (r: Task)
        ensures
            r@ == self@,
    {
        Task {
            id: self.id,
            text: self.text.clone(),
            state: self.state,
            created: self.created,
            by: self.by.clone(),
            space: own_opt(as_opt(&self.space)),
            owner: own_opt(as_opt(&self.owner)),
            claimed_at: self.claimed_at,
            done_at: self.done_at,
            result: own_opt(as_opt(&self.result)),
        }
    }

    pub fn is_open(&self) -> (r: bool)
        ensures
            r == self@.is_open(),
    {
        self.state == TaskState::Open
    }

    /// Open and claimed together are "outstanding": what the board is for.
    pub fn is_claimed(&self) -> (r: bool)
        ensures
            r == self@.is_claimed(),
    {
        self.state == TaskState::Claimed
    }

    /// Too old to go on being offered. See [`STALE_AFTER`].
    pub fn is_stale(&self, now: u64) -> (r: bool)
        ensures
            r == self@.is_stale(now),
    {
        self.is_open() && now.saturating_sub(self.created) > STALE_AFTER
    }

    /// Where it may be taken up: in its own project, or in any when it has no scope.
    pub fn open_to(&self, space: Option<&str>) -> (r: bool)
        ensures
            r == self@.open_to(opt_str(space)),
    {
        match &self.space {
            None => true,
            Some(mine) => same_opt(Some(mine.as_str()), space),
        }
    }
}

/// Why the board refused.
#[derive(Debug, Clone, PartialEq, Eq)]
pub enum TaskError {
    /// A task with nothing in it.
    Empty,
    /// No task has that id.
    NoSuch(u64),
    /// The task is not open any more.
    Taken { id: u64, state: TaskState, owner: Option<String> },
    /// Nothing was named, and the caller holds nothing.
    NoneHeld,
}

/// A refusal, as text and numbers.
pub enum TaskErrorView {
    Empty,
    NoSuch(u64),
    Taken { id: u64, state: TaskState, owner: Option<Seq<char>> },
    NoneHeld,
}

impl View for TaskError {
    type V = TaskErrorView;

    open spec fn view(&self) -> TaskErrorView {
        match *self {
            TaskError::Empty => TaskErrorView::Empty,
            TaskError::NoSuch(id) => TaskErrorView::NoSuch(id),
            TaskError::Taken { id, state, owner } => TaskErrorView::Taken {
                id,
                state,
                owner: opt_text(owner),
            },
            TaskError::NoneHeld => TaskErrorView::NoneHeld,
        }
    }
}

impl TaskErrorView {
    /// The sentence a person is shown.
    pub open spec fn message(self) -> Seq<char> {
        match self {
            TaskErrorView::Empty => "a task needs a description"@,
            TaskErrorView::NoSuch(id) => "no task #"@ + decimal(id as nat),
            TaskErrorView::Taken { id, state, owner } => {
                let start = "task #"@ + decimal(id as nat) + " is already "@ + state.word_spec();
                match owner {
                    Some(o) => start + " by "@ + o,
                    None => start,
                }
            },
            TaskErrorView::NoneHeld =>
                "you have no claimed task — claim one first, or name an id"@,
        }
    }
}

impl TaskError {
    /// The sentence a person is shown.
    pub fn message(&self) -> (r: String)
        ensures
            r@ == self@.message(),
    {
        match self {
            TaskError::Empty => owned("a task needs a description"),
            TaskError::NoSuch(id) => {
                let mut m = owned("no task #");
                m.append(number(*id).as_str());
                m
            },
            TaskError::Taken { id, state, owner } => {
                let mut m = owned("task #");
                m.append(number(*id).as_str());
                m.append(" is already ");
                m.append(state.word());
                if let Some(o) = owner {
                    m.append(" by ");
                    m.append(o.as_str());
                }
                m
            },
            TaskError::NoneHeld => owned(
                "you have no claimed task — claim one first, or name an id",
            ),
        }
    }
}

/// The tasks in order of id, and what the log has yet to be told.
pub struct Board {
    pub tasks: Vec<Task>,
    pub next_id: u64,
    pub unwritten: Vec<Task>,
}

/// A board, as values.
pub struct BoardView {
    pub tasks: Seq<TaskView>,
    pub next_id: u64,
    pub unwritten: Seq<TaskView>,
}

/// Tasks, as values.
pub open spec fn views(ts: Seq<Task>) -> Seq<TaskView> {
    Seq::new(ts.len(), |i: int| ts[i]@)
}

/// In order of id, each id once.
pub open spec fn by_id(ts: Seq<TaskView>) -> bool {
    forall|i: int, j: int| 0 <= i < j < ts.len() ==> (#[trigger] ts[i]).id < (#[trigger] ts[j]).id
}

impl View for Board {
    type V = BoardView;

    open spec fn view(&self) -> BoardView {
        BoardView {
            tasks: views(self.tasks@),
            next_id: self.next_id,
            unwritten: views(self.unwritten@),
        }
    }
}

impl BoardView {
    /// Ids are in order and unique, and the next one is new.
    pub open spec fn wf(self) -> bool {
        &&& by_id(self.tasks)
        &&& forall|i: int| 0 <= i < self.tasks.len() ==> (#[trigger] self.tasks[i]).id < self.next_id
    }

    /// Where the task with this id is, or the number of tasks.
    pub open spec fn find(self, id: u64) -> int {
        first_where(self.tasks, |t: TaskView| t.id == id)
    }

    /// One task put in another's place, and the log told.
    pub open spec fn put(self, i: int, t: TaskView) -> BoardView {
        BoardView {
            tasks: self.tasks.update(i, t),
            unwritten: self.unwritten.push(t),
            ..self
        }
    }

    /// Every task that `p` accepts replaced by what `f` makes of it, and the log told.
    pub open spec fn put_all(
        self,
        p: spec_fn(TaskView) -> bool,
        f: spec_fn(TaskView) -> TaskView,
    ) -> BoardView {
        BoardView {
            tasks: replaced(self.tasks, p, f),
            unwritten: self.unwritten + pick(self.tasks, p, f),
            ..self
        }
    }
}

/// Every task that `p` accepts replaced by what `f` makes of it.
pub open spec fn replaced(
    ts: Seq<TaskView>,
    p: spec_fn(TaskView) -> bool,
    f: spec_fn(TaskView) -> TaskView,
) -> Seq<TaskView> {
    Seq::new(
        ts.len(),
        |i: int|
            if p(ts[i]) {
                f(ts[i])
            } else {
                ts[i]
            },
    )
}

/// A finished task.
pub open spec fn over() -> spec_fn(TaskView) -> bool {
    |t: TaskView| t.is_finished()
}

/// While there are too many tasks, the oldest finished one is forgotten. Work that is open or
/// claimed always stays.
pub open spec fn trimmed_to_cap(ts: Seq<TaskView>) -> Seq<TaskView>
    decreases ts.len(),
{
    let k = first_where(ts, over());
    if ts.len() > CAP && 0 <= k < ts.len() {
        trimmed_to_cap(ts.remove(k))
    } else {
        ts
    }
}

// -- replay ------------------------------------------------------------------

/// The task written under its id, in order: in place of an earlier one with the same id, or
/// before the first with a larger one.
pub open spec fn written(ts: Seq<TaskView>, t: TaskView) -> Seq<TaskView> {
    let k = first_where(ts, |x: TaskView| x.id >= t.id);
    if k < ts.len() && ts[k].id == t.id {
        ts.update(k, t)
    } else {
        ts.insert(k, t)
    }
}

/// What a log of task entries comes to: later entries for an id supersede earlier ones, and
/// the tasks stand in order of id.
pub open spec fn replayed(log: Seq<TaskView>) -> Seq<TaskView>
    decreases log.len(),
{
    if log.len() == 0 {
        Seq::empty()
    } else {
        written(replayed(log.drop_last()), log.last())
    }
}

/// Where a task is in a list, and a task's index by a predicate, by position.
fn position(tasks: &Vec<Task>, id: u64) -> (r: usize)
    ensures
        r == first_where(views(tasks@), |t: TaskView| t.id == id),
        r <= tasks@.len(),
{
    let ghost p = |t: TaskView| t.id == id;
    let mut i: usize = 0;
    while i < tasks.len() && tasks[i].id != id
        invariant
            i <= tasks@.len(),
            p == (|t: TaskView| t.id == id),
            forall|j: int| 0 <= j < i ==> !p(#[trigger] views(tasks@)[j]),
        decreases tasks@.len() - i,
    {
        i = i + 1;
    }
    proof {
        lemma_first_where_is(views(tasks@), p, i as int);
    }
    i
}

/// Writing a task keeps the order of ids.
proof fn lemma_written_by_id(ts: Seq<TaskView>, t: TaskView)
    requires
        by_id(ts),
    ensures
        by_id(written(ts, t)),
        forall|i: int|
            0 <= i < written(ts, t).len() ==> (#[trigger] written(ts, t)[i] == t || exists|j: int|
                0 <= j < ts.len() && ts[j] == written(ts, t)[i]),
{
    let p = |x: TaskView| x.id >= t.id;
    lemma_first_where(ts, p);
    let k = first_where(ts, p);
    let w = written(ts, t);
    if k < ts.len() && ts[k].id == t.id {
        assert forall|i: int| 0 <= i < w.len() implies (#[trigger] w[i] == t || exists|j: int|
            0 <= j < ts.len() && ts[j] == w[i]) by {
            if i != k {
                assert(ts[i] == w[i]);
            }
        }
    } else {
        ts.insert_ensures(k, t);
        assert forall|i: int, j: int| 0 <= i < j < w.len() implies (#[trigger] w[i]).id < (
        #[trigger] w[j]).id by {
            if i < k {
                assert(!p(ts[i]));
            }
            if j == k {
            } else if i == k {
                assert(w[j] == ts[j - 1]);
                assert(p(ts[k]));
            } else if j < k {
            } else {
                assert(w[j] == ts[j - 1]);
                if i > k {
                    assert(w[i] == ts[i - 1]);
                }
            }
        }
        assert forall|i: int| 0 <= i < w.len() implies (#[trigger] w[i] == t || exists|j: int|
            0 <= j < ts.len() && ts[j] == w[i]) by {
            if i < k {
                assert(ts[i] == w[i]);
            } else if i > k {
                assert(ts[i - 1] == w[i]);
            }
        }
    }
}

/// A replayed log is in order of id.
pub proof fn lemma_replayed_by_id(log: Seq<TaskView>)
    ensures
        by_id(replayed(log)),
    decreases log.len(),
{
    if log.len() > 0 {
        lemma_replayed_by_id(log.drop_last());
        lemma_written_by_id(replayed(log.drop_last()), log.last());
    }
}

/// Every replayed task is an entry of the log.
pub proof fn lemma_replayed_from(log: Seq<TaskView>, i: int) -> (k: int)
    requires
        0 <= i < replayed(log).len(),
    ensures
        0 <= k < log.len(),
        log[k] == replayed(log)[i],
    decreases log.len(),
{
    let before = log.drop_last();
    lemma_replayed_by_id(before);
    lemma_written_by_id(replayed(before), log.last());
    if replayed(log)[i] == log.last() {
        log.len() - 1
    } else {
        let j = choose|j: int|
            0 <= j < replayed(before).len() && replayed(before)[j] == replayed(log)[i];
        let k = lemma_replayed_from(before, j);
        assert(before[k] == log[k]);
        k
    }
}

/// Replay the entries of a log. Later entries for an id supersede earlier ones, so the final
/// state of each task is whatever was written last.
pub fn replay(entries: Vec<Task>) -> (r: Vec<Task>)
    ensures
        views(r@) == replayed(views(entries@)),
{
    let mut out: Vec<Task> = Vec::new();
    let ghost log = views(entries@);
    let mut i: usize = 0;
    proof {
        assert(views(out@) =~= replayed(log.take(0)));
    }
    while i < entries.len()
        invariant
            i <= entries@.len(),
            log == views(entries@),
            views(out@) == replayed(log.take(i as int)),
        decreases entries@.len() - i,
    {
        let t = entries[i].copy();
        let ghost before = views(out@);
        let ghost p = |x: TaskView| x.id >= t.id;
        let mut k: usize = 0;
        while k < out.len() && out[k].id < t.id
            invariant
                k <= out@.len(),
                before == views(out@),
                p == (|x: TaskView| x.id >= t.id),
                forall|j: int| 0 <= j < k ==> !p(#[trigger] before[j]),
            decreases out@.len() - k,
        {
            k = k + 1;
        }
        proof {
            lemma_first_where_is(before, p, k as int);
            assert(log.take(i as int + 1).drop_last() =~= log.take(i as int));
            assert(log.take(i as int + 1).last() == log[i as int]);
        }
        if k < out.len() && out[k].id == t.id {
            out.set(k, t);
            proof {
                assert(views(out@) =~= before.update(k as int, t@));
            }
        } else {
            out.insert(k, t);
            proof {
                assert(views(out@) =~= before.insert(k as int, t@));
            }
        }
        i = i + 1;
    }
    proof {
        assert(log.take(log.len() as int) =~= log);
    }
    out
}

// -- the board ---------------------------------------------------------------

/// A new task, as it goes on the board.
pub open spec fn new_task(
    id: u64,
    text: Seq<char>,
    by: Seq<char>,
    space: Option<Seq<char>>,
    now: u64,
) -> TaskView {
    TaskView {
        id,
        text: trimmed(text),
        state: TaskState::Open,
        created: now,
        by,
        space,
        owner: None,
        claimed_at: None,
        done_at: None,
        result: None,
    }
}

/// The result of an operation, as values.
pub open spec fn outcome(r: Result<Task, TaskError>) -> Result<TaskView, TaskErrorView> {
    match r {
        Ok(t) => Ok(t@),
        Err(e) => Err(e@),
    }
}

/// The result of a claim, as values.
pub open spec fn claim_outcome(r: Result<Option<Task>, TaskError>) -> Result<
    Option<TaskView>,
    TaskErrorView,
> {
    match r {
        Ok(Some(t)) => Ok(Some(t@)),
        Ok(None) => Ok(None),
        Err(e) => Err(e@),
    }
}

/// What adding a task does.
pub open spec fn adding(
    b: BoardView,
    text: Seq<char>,
    by: Seq<char>,
    space: Option<Seq<char>>,
    now: u64,
) -> (BoardView, Result<TaskView, TaskErrorView>) {
    if trimmed(text).len() == 0 {
        (b, Err(TaskErrorView::Empty))
    } else {
        let t = new_task(b.next_id, text, by, space, now);
        (
            BoardView {
                tasks: trimmed_to_cap(b.tasks.push(t)),
                next_id: (b.next_id + 1) as u64,
                unwritten: b.unwritten.push(t),
            },
            Ok(t),
        )
    }
}

/// Which task an unnamed claim takes: the oldest that may be taken.
pub open spec fn next_up(b: BoardView, space: Option<Seq<char>>, now: u64) -> int {
    first_where(b.tasks, |t: TaskView| t.takeable(space, now))
}

/// What a claim does.
pub open spec fn claiming(
    b: BoardView,
    owner: Seq<char>,
    id: Option<u64>,
    space: Option<Seq<char>>,
    now: u64,
) -> (BoardView, Result<Option<TaskView>, TaskErrorView>) {
    match id {
        Some(id) => {
            let i = b.find(id);
            if i >= b.tasks.len() {
                (b, Err(TaskErrorView::NoSuch(id)))
            } else if !b.tasks[i].is_open() {
                (
                    b,
                    Err(
                        TaskErrorView::Taken {
                            id,
                            state: b.tasks[i].state,
                            owner: b.tasks[i].owner,
                        },
                    ),
                )
            } else {
                let t = b.tasks[i].claimed(owner, now);
                (b.put(i, t), Ok(Some(t)))
            }
        },
        None => {
            let i = next_up(b, space, now);
            if i >= b.tasks.len() {
                (b, Ok(None))
            } else {
                let t = b.tasks[i].claimed(owner, now);
                (b.put(i, t), Ok(Some(t)))
            }
        },
    }
}

/// Which task the owner means when it names none: the oldest it holds.
pub open spec fn held_by(b: BoardView, owner: Seq<char>) -> int {
    first_where(b.tasks, |t: TaskView| t.is_claimed() && t.owner == Some(owner))
}

/// What finishing does.
pub open spec fn finishing(
    b: BoardView,
    owner: Seq<char>,
    id: Option<u64>,
    result: Option<Seq<char>>,
    now: u64,
) -> (BoardView, Result<TaskView, TaskErrorView>) {
    let i = match id {
        Some(id) => b.find(id),
        None => held_by(b, owner),
    };
    if i >= b.tasks.len() {
        (
            b,
            Err(
                match id {
                    Some(id) => TaskErrorView::NoSuch(id),
                    None => TaskErrorView::NoneHeld,
                },
            ),
        )
    } else {
        let t = b.tasks[i].finished(owner, result, now);
        (b.put(i, t), Ok(t))
    }
}

/// What releasing or dropping one task does.
pub open spec fn releasing(b: BoardView, id: u64, drop_it: bool, now: u64) -> (
    BoardView,
    Result<TaskView, TaskErrorView>,
) {
    let i = b.find(id);
    if i >= b.tasks.len() {
        (b, Err(TaskErrorView::NoSuch(id)))
    } else {
        let t = if drop_it {
            b.tasks[i].dropped(now)
        } else {
            b.tasks[i].released()
        };
        (b.put(i, t), Ok(t))
    }
}

/// What a clearing sweeps up. Naming no project means all of them, and an unscoped task
/// clears with whichever project is named.
pub open spec fn cleared(
    space: Option<Seq<char>>,
    claimed_too: bool,
) -> spec_fn(TaskView) -> bool {
    |t: TaskView|
        (t.is_open() || (claimed_too && t.is_claimed())) && (space is None || t.space is None
            || t.space == space)
}

/// A task that is dropped at `now`.
pub open spec fn drop_at(now: u64) -> spec_fn(TaskView) -> TaskView {
    |t: TaskView| t.dropped(now)
}

/// Claimed by somebody other than the user, who is not among the living.
pub open spec fn orphaned(live: Seq<Seq<char>>) -> spec_fn(TaskView) -> bool {
    |t: TaskView|
        t.is_claimed() && (match t.owner {
            Some(o) => o != "user"@ && !live.contains(o),
            None => false,
        })
}

/// A task that is put back.
pub open spec fn give_back() -> spec_fn(TaskView) -> TaskView {
    |t: TaskView| t.released()
}

/// Whether a name is in a list.
pub fn listed(names: &[String], name: &str) -> (r: bool)
    ensures
        r == texts(names@).contains(name@),
{
    let mut i: usize = 0;
    while i < names.len()
        invariant
            i <= names@.len(),
            forall|j: int| 0 <= j < i ==> texts(names@)[j] != name@,
        decreases names@.len() - i,
    {
        if same(names[i].as_str(), name) {
            proof {
                assert(texts(names@)[i as int] == name@);
            }
            return true;
        }
        i = i + 1;
    }
    false
}

/// Forgetting one task keeps the order of ids.
proof fn lemma_remove_by_id(ts: Seq<TaskView>, k: int)
    requires
        by_id(ts),
        0 <= k < ts.len(),
    ensures
        by_id(ts.remove(k)),
        forall|i: int| 0 <= i < ts.remove(k).len() ==> ts.contains(#[trigger] ts.remove(k)[i]),
{
    ts.remove_ensures(k);
    let u = ts.remove(k);
    assert forall|i: int, j: int| 0 <= i < j < u.len() implies (#[trigger] u[i]).id < (
    #[trigger] u[j]).id by {
        let a = if i < k { i } else { i + 1 };
        let b = if j < k { j } else { j + 1 };
        assert(u[i] == ts[a] && u[j] == ts[b]);
    }
    assert forall|i: int| 0 <= i < u.len() implies ts.contains(#[trigger] u[i]) by {
        let a = if i < k { i } else { i + 1 };
        assert(u[i] == ts[a]);
    }
}

impl Board {
    /// A board as the entries of its log leave it.
    pub fn new(entries: Vec<Task>) -> (r: Board)
        requires
            forall|i: int| 0 <= i < entries@.len() ==> (#[trigger] entries@[i]).id < u64::MAX,
        ensures
            r@.wf(),
            r@.tasks == replayed(views(entries@)),
            r@.unwritten.len() == 0,
            r@.tasks.len() == 0 ==> r@.next_id == 1,
            r@.tasks.len() > 0 ==> r@.next_id == r@.tasks.last().id + 1,
    {
        let ghost log = views(entries@);
        let tasks = replay(entries);
        proof {
            lemma_replayed_by_id(log);
            assert forall|i: int| 0 <= i < tasks@.len() implies (#[trigger] tasks@[i]).id
                < u64::MAX by {
                let k = lemma_replayed_from(log, i);
                assert(log[k].id == entries@[k].id);
                assert(views(tasks@)[i] == tasks@[i]@);
            }
        }
        let n: usize = tasks.len();
        let next_id: u64 = if n == 0 {
            1
        } else {
            tasks[n - 1].id + 1
        };
        let b = Board { tasks, next_id, unwritten: Vec::new() };
        proof {
            assert(b@.unwritten =~= Seq::<TaskView>::empty());
            assert forall|i: int| 0 <= i < b@.tasks.len() implies (#[trigger] b@.tasks[i]).id
                < b@.next_id by {
                if i < b@.tasks.len() - 1 {
                    assert(b@.tasks[i].id < b@.tasks[b@.tasks.len() - 1].id);
                }
            }
        }
        b
    }

    /// What the log has not been told yet, which is then taken as told.
    pub fn take_unwritten(&mut self) -> (r: Vec<Task>)
        ensures
            views(r@) == old(self)@.unwritten,
            final(self)@ == (BoardView { unwritten: Seq::empty(), ..old(self)@ }),
    {
        let mut out: Vec<Task> = Vec::new();
        core::mem::swap(&mut self.unwritten, &mut out);
        proof {
            assert(self@.unwritten =~= Seq::<TaskView>::empty());
        }
        out
    }

    pub fn all(&self) -> (r: &[Task])
        ensures
            r@ == self.tasks@,
            views(r@) == self@.tasks,
    {
        self.tasks.as_slice()
    }

    /// The task with this id.
    pub fn get(&self, id: u64) -> (r: Option<&Task>)
        ensures
            match r {
                Some(t) => self@.find(id) < self@.tasks.len() && t@ == self@.tasks[self@.find(id)],
                None => self@.find(id) == self@.tasks.len(),
            },
    {
        let i: usize = position(&self.tasks, id);
        if i < self.tasks.len() {
            Some(&self.tasks[i])
        } else {
            None
        }
    }

    pub fn open_count(&self) -> (r: usize)
        ensures
            r as nat == count_where(self@.tasks, |t: TaskView| t.is_open()),
    {
        let ghost p = |t: TaskView| t.is_open();
        let mut n: usize = 0;
        let mut i: usize = 0;
        proof {
            assert(self@.tasks.take(0) =~= Seq::<TaskView>::empty());
        }
        while i < self.tasks.len()
            invariant
                i <= self.tasks@.len(),
                n <= i,
                p == (|t: TaskView| t.is_open()),
                n as nat == count_where(self@.tasks.take(i as int), p),
            decreases self.tasks@.len() - i,
        {
            proof {
                lemma_count_take(self@.tasks, p, i as int);
            }
            if self.tasks[i].is_open() {
                n = n + 1;
            }
            i = i + 1;
        }
        proof {
            assert(self@.tasks.take(i as int) =~= self@.tasks);
        }
        n
    }

    pub fn claimed_count(&self) -> (r: usize)
        ensures
            r as nat == count_where(self@.tasks, |t: TaskView| t.is_claimed()),
    {
        let ghost p = |t: TaskView| t.is_claimed();
        let mut n: usize = 0;
        let mut i: usize = 0;
        proof {
            assert(self@.tasks.take(0) =~= Seq::<TaskView>::empty());
        }
        while i < self.tasks.len()
            invariant
                i <= self.tasks@.len(),
                n <= i,
                p == (|t: TaskView| t.is_claimed()),
                n as nat == count_where(self@.tasks.take(i as int), p),
            decreases self.tasks@.len() - i,
        {
            proof {
                lemma_count_take(self@.tasks, p, i as int);
            }
            if self.tasks[i].is_claimed() {
                n = n + 1;
            }
            i = i + 1;
        }
        proof {
            assert(self@.tasks.take(i as int) =~= self@.tasks);
        }
        n
    }

    /// Put one task in place of another of the same id, and tell the log.
    fn put(&mut self, i: usize, t: Task)
        requires
            old(self)@.wf(),
            i < old(self).tasks@.len(),
            t@.id == old(self)@.tasks[i as int].id,
        ensures
            final(self)@ == old(self)@.put(i as int, t@),
            final(self)@.wf(),
    {
        self.unwritten.push(t.copy());
        self.tasks.set(i, t);
        proof {
            assert(self@.tasks =~= old(self)@.put(i as int, t@).tasks);
            assert(self@.unwritten =~= old(self)@.put(i as int, t@).unwritten);
        }
    }

    /// Add a task that is not on the board, and forget finished work where there is too much.
    fn record(&mut self, task: Task)
        requires
            old(self)@.wf(),
            task@.id >= old(self)@.next_id,
            task@.id < u64::MAX,
        ensures
            final(self)@ == (BoardView {
                tasks: trimmed_to_cap(old(self)@.tasks.push(task@)),
                next_id: (task@.id + 1) as u64,
                unwritten: old(self)@.unwritten.push(task@),
            }),
            final(self)@.wf(),
    {
        let ghost whole = self@.tasks.push(task@);
        self.unwritten.push(task.copy());
        self.next_id = task.id + 1;
        self.tasks.push(task);
        proof {
            assert(self@.tasks =~= whole);
            assert(self@.unwritten =~= old(self)@.unwritten.push(task@));
        }
        // Forget finished work first; anything open or claimed still matters.
        while self.tasks.len() > CAP
            invariant_except_break
                trimmed_to_cap(self@.tasks) == trimmed_to_cap(whole),
            invariant
                self@.wf(),
                self@.unwritten == old(self)@.unwritten.push(task@),
                self@.next_id == task@.id + 1,
            ensures
                self@.tasks == trimmed_to_cap(whole),
            decreases self.tasks@.len(),
        {
            let mut k: usize = 0;
            while k < self.tasks.len() && (self.tasks[k].is_open() || self.tasks[k].is_claimed())
                invariant
                    k <= self.tasks@.len(),
                    forall|j: int| 0 <= j < k ==> !over()(#[trigger] self@.tasks[j]),
                decreases self.tasks@.len() - k,
            {
                k = k + 1;
            }
            proof {
                lemma_first_where_is(self@.tasks, over(), k as int);
            }
            if k == self.tasks.len() {
                break;
            }
            let ghost before = self@.tasks;
            proof {
                lemma_remove_by_id(before, k as int);
            }
            self.tasks.remove(k);
            proof {
                assert(self@.tasks =~= before.remove(k as int));
            }
        }
    }

    /// [`Board::add`], at a given time.
    pub fn add_at(&mut self, text: &str, by: &str, space: Option<&str>, now: u64) -> (r: Result<
        Task,
        TaskError,
    >)
        requires
            old(self)@.wf(),
            old(self)@.next_id < u64::MAX,
        ensures
            (final(self)@, outcome(r)) == adding(old(self)@, text@, by@, opt_str(space), now),
            final(self)@.wf(),
    {
        let text = trim(text);
        if text.as_str().is_empty() {
            return Err(TaskError::Empty);
        }
        let task = Task {
            id: self.next_id,
            text,
            state: TaskState::Open,
            created: now,
            by: owned(by),
            space: own_opt(space),
            owner: None,
            claimed_at: None,
            done_at: None,
            result: None,
        };
        let out = task.copy();
        self.record(task);
        Ok(out)
    }

    /// Put a task on the board.
    pub fn add(&mut self, text: &str, by: &str, space: Option<&str>) -> (r: Result<
        Task,
        TaskError,
    >)
        requires
            old(self)@.wf(),
            old(self)@.next_id < u64::MAX,
        ensures
            exists|now: u64|
                (final(self)@, outcome(r)) == #[trigger] adding(
                    old(self)@,
                    text@,
                    by@,
                    opt_str(space),
                    now,
                ),
            final(self)@.wf(),
    {
        let now = now_millis();
        self.add_at(text, by, space, now)
    }

    /// [`Board::claim`], at a given time.
    pub fn claim_at(
        &mut self,
        owner: &str,
        id: Option<u64>,
        space: Option<&str>,
        now: u64,
    ) -> (r: Result<Option<Task>, TaskError>)
        requires
            old(self)@.wf(),
        ensures
            (final(self)@, claim_outcome(r)) == claiming(
                old(self)@,
                owner@,
                id,
                opt_str(space),
                now,
            ),
            final(self)@.wf(),
    {
        let i: usize = match id {
            Some(id) => {
                let i: usize = position(&self.tasks, id);
                if i == self.tasks.len() {
                    return Err(TaskError::NoSuch(id));
                }
                // A compare-and-set, not a write: whoever got here first keeps it.
                let t = &self.tasks[i];
                if !t.is_open() {
                    return Err(
                        TaskError::Taken {
                            id,
                            state: t.state,
                            owner: own_opt(as_opt(&t.owner)),
                        },
                    );
                }
                i
            },
            None => {
                let ghost p = |t: TaskView| t.takeable(opt_str(space), now);
                let mut i: usize = 0;
                while i < self.tasks.len() && !(self.tasks[i].is_open() && self.tasks[i].open_to(
                    space,
                ) && !self.tasks[i].is_stale(now))
                    invariant
                        i <= self.tasks@.len(),
                        p == (|t: TaskView| t.takeable(opt_str(space), now)),
                        forall|j: int| 0 <= j < i ==> !p(#[trigger] self@.tasks[j]),
                    decreases self.tasks@.len() - i,
                {
                    i = i + 1;
                }
                proof {
                    lemma_first_where_is(self@.tasks, p, i as int);
                }
                if i == self.tasks.len() {
                    return Ok(None);
                }
                i
            },
        };
        proof {
            lemma_first_where(self@.tasks, |t: TaskView| t.id == id->Some_0);
        }
        let mut t = self.tasks[i].copy();
        t.state = TaskState::Claimed;
        t.owner = Some(owned(owner));
        t.claimed_at = Some(now);
        let out = t.copy();
        self.put(i, t);
        Ok(Some(out))
    }

    /// Take the oldest open task in `space`, or a specific one by id.
    ///
    /// Scope and staleness bind the unnamed claim only. `Ok(None)` is "nothing to do".
    pub fn claim(&mut self, owner: &str, id: Option<u64>, space: Option<&str>) -> (r: Result<
        Option<Task>,
        TaskError,
    >)
        requires
            old(self)@.wf(),
        ensures
            exists|now: u64|
                (final(self)@, claim_outcome(r)) == #[trigger] claiming(
                    old(self)@,
                    owner@,
                    id,
                    opt_str(space),
                    now,
                ),
            final(self)@.wf(),
    {
        let now = now_millis();
        self.claim_at(owner, id, space, now)
    }

    /// [`Board::done`], at a given time.
    pub fn done_at(&mut self, owner: &str, id: Option<u64>, result: Option<&str>, now: u64) -> (r:
        Result<Task, TaskError>)
        requires
            old(self)@.wf(),
        ensures
            (final(self)@, outcome(r)) == finishing(
                old(self)@,
                owner@,
                id,
                opt_str(result),
                now,
            ),
            final(self)@.wf(),
    {
        let i: usize = match id {
            Some(id) => {
                let i: usize = position(&self.tasks, id);
                if i == self.tasks.len() {
                    return Err(TaskError::NoSuch(id));
                }
                i
            },
            None => {
                let ghost p = |t: TaskView| t.is_claimed() && t.owner == Some(owner@);
                let mut i: usize = 0;
                while i < self.tasks.len() && !(self.tasks[i].is_claimed() && same_opt(
                    as_opt(&self.tasks[i].owner),
                    Some(owner),
                ))
                    invariant
                        i <= self.tasks@.len(),
                        p == (|t: TaskView| t.is_claimed() && t.owner == Some(owner@)),
                        forall|j: int| 0 <= j < i ==> !p(#[trigger] self@.tasks[j]),
                    decreases self.tasks@.len() - i,
                {
                    i = i + 1;
                }
                proof {
                    lemma_first_where_is(self@.tasks, p, i as int);
                }
                if i == self.tasks.len() {
                    return Err(TaskError::NoneHeld);
                }
                i
            },
        };
        let mut t = self.tasks[i].copy();
        t.state = TaskState::Done;
        t.done_at = Some(now);
        t.result = match result {
            Some(said) => {
                let said = trim(said);
                if said.as_str().is_empty() {
                    None
                } else {
                    Some(said)
                }
            },
            None => None,
        };
        if t.owner.is_none() {
            t.owner = Some(owned(owner));
        }
        let out = t.copy();
        self.put(i, t);
        Ok(out)
    }

    /// Finish a task. `id` defaults to the caller's own claimed task.
    pub fn done(&mut self, owner: &str, id: Option<u64>, result: Option<&str>) -> (r: Result<
        Task,
        TaskError,
    >)
        requires
            old(self)@.wf(),
        ensures
            exists|now: u64|
                (final(self)@, outcome(r)) == #[trigger] finishing(
                    old(self)@,
                    owner@,
                    id,
                    opt_str(result),
                    now,
                ),
            final(self)@.wf(),
    {
        let now = now_millis();
        self.done_at(owner, id, result, now)
    }

    /// [`Board::release`], at a given time.
    pub fn release_at(&mut self, id: u64, drop_it: bool, now: u64) -> (r: Result<Task, TaskError>)
        requires
            old(self)@.wf(),
        ensures
            (final(self)@, outcome(r)) == releasing(old(self)@, id, drop_it, now),
            final(self)@.wf(),
    {
        let i: usize = position(&self.tasks, id);
        if i == self.tasks.len() {
            return Err(TaskError::NoSuch(id));
        }
        let mut t = self.tasks[i].copy();
        if drop_it {
            t.state = TaskState::Dropped;
            t.done_at = Some(now);
        } else {
            t.state = TaskState::Open;
            t.owner = None;
            t.claimed_at = None;
        }
        let out = t.copy();
        self.put(i, t);
        Ok(out)
    }

    /// Put a claimed task back, or abandon one entirely.
    pub fn release(&mut self, id: u64, drop_it: bool) -> (r: Result<Task, TaskError>)
        requires
            old(self)@.wf(),
        ensures
            exists|now: u64|
                (final(self)@, outcome(r)) == #[trigger] releasing(old(self)@, id, drop_it, now),
            final(self)@.wf(),
    {
        let now = now_millis();
        self.release_at(id, drop_it, now)
    }

    /// [`Board::clear`], at a given time.
    pub fn clear_at(&mut self, space: Option<&str>, claimed_too: bool, now: u64) -> (r: Vec<Task>)
        requires
            old(self)@.wf(),
        ensures
            final(self)@ == old(self)@.put_all(cleared(opt_str(space), claimed_too), drop_at(now)),
            views(r@) == pick(
                old(self)@.tasks,
                cleared(opt_str(space), claimed_too),
                drop_at(now),
            ),
            final(self)@.wf(),
    {
        let ghost p = cleared(opt_str(space), claimed_too);
        let ghost f = drop_at(now);
        let ghost ts = self@.tasks;
        let mut swept: Vec<Task> = Vec::new();
        let mut i: usize = 0;
        proof {
            assert(views(swept@) =~= pick(ts.take(0), p, f));
            assert(self@.unwritten + pick(ts.take(0), p, f) =~= self@.unwritten);
        }
        while i < self.tasks.len()
            invariant
                i <= self.tasks@.len(),
                ts == old(self)@.tasks,
                p == cleared(opt_str(space), claimed_too),
                f == drop_at(now),
                self@.tasks.len() == ts.len(),
                forall|j: int| i <= j < ts.len() ==> #[trigger] self@.tasks[j] == ts[j],
                forall|j: int|
                    0 <= j < i ==> #[trigger] self@.tasks[j] == (if p(ts[j]) {
                        f(ts[j])
                    } else {
                        ts[j]
                    }),
                views(swept@) == pick(ts.take(i as int), p, f),
                self@.unwritten == old(self)@.unwritten + pick(ts.take(i as int), p, f),
                self@.next_id == old(self)@.next_id,
            decreases ts.len() - i,
        {
            let t = &self.tasks[i];
            proof {
                assert(self@.tasks[i as int] == ts[i as int]);
                lemma_pick_take(ts, p, f, i as int);
            }
            let in_state = t.is_open() || (claimed_too && t.is_claimed());
            let in_space = match space {
                None => true,
                Some(want) => t.space.is_none() || same_opt(as_opt(&t.space), Some(want)),
            };
            if in_state && in_space {
                let ghost was = self@;
                let ghost had = views(swept@);
                let mut d = t.copy();
                d.state = TaskState::Dropped;
                d.done_at = Some(now);
                swept.push(d.copy());
                self.unwritten.push(d.copy());
                self.tasks.set(i, d);
                proof {
                    assert(views(swept@) =~= had.push(d@));
                    assert(self@.tasks =~= was.tasks.update(i as int, d@));
                    assert(self@.unwritten =~= was.unwritten.push(d@));
                    assert(self@.unwritten =~= old(self)@.unwritten + pick(
                        ts.take(i as int + 1),
                        p,
                        f,
                    ));
                }
            }
            i = i + 1;
        }
        proof {
            assert(ts.take(i as int) =~= ts);
            assert(self@.tasks =~= replaced(ts, p, f));
        }
        swept
    }

    /// Drop every open task, optionally only one project's, and claimed ones too on request.
    ///
    /// `space` of `None` means *every* project. Recorded as `dropped` rather than deleted,
    /// because the log is the record.
    pub fn clear(&mut self, space: Option<&str>, claimed_too: bool) -> (r: Vec<Task>)
        requires
            old(self)@.wf(),
        ensures
            exists|now: u64|
                {
                    &&& final(self)@ == old(self)@.put_all(
                        cleared(opt_str(space), claimed_too),
                        #[trigger] drop_at(now),
                    )
                    &&& views(r@) == pick(
                        old(self)@.tasks,
                        cleared(opt_str(space), claimed_too),
                        drop_at(now),
                    )
                },
            final(self)@.wf(),
    {
        let now = now_millis();
        self.clear_at(space, claimed_too, now)
    }

    /// [`Board::offered_to`], at a given time.
    pub fn offered_to_at(&self, space: &str, now: u64) -> (r: usize)
        ensures
            r as nat == count_where(self@.tasks, |t: TaskView| t.is_offered(space@, now)),
    {
        let ghost p = |t: TaskView| t.is_offered(space@, now);
        let mut n: usize = 0;
        let mut i: usize = 0;
        proof {
            assert(self@.tasks.take(0) =~= Seq::<TaskView>::empty());
        }
        while i < self.tasks.len()
            invariant
                i <= self.tasks@.len(),
                n <= i,
                p == (|t: TaskView| t.is_offered(space@, now)),
                n as nat == count_where(self@.tasks.take(i as int), p),
            decreases self.tasks@.len() - i,
        {
            proof {
                lemma_count_take(self@.tasks, p, i as int);
            }
            let t = &self.tasks[i];
            if t.is_open() && !t.is_stale(now) && same_opt(as_opt(&t.space), Some(space)) {
                n = n + 1;
            }
            i = i + 1;
        }
        proof {
            assert(self@.tasks.take(i as int) =~= self@.tasks);
        }
        n
    }

    /// How many open, fresh tasks name `space`.
    ///
    /// Stricter than [`Task::open_to`] on purpose: offering goes and interrupts an agent, so
    /// it demands the project be named.
    pub fn offered_to(&self, space: &str) -> (r: usize)
        ensures
            exists|now: u64|
                r as nat == #[trigger] offered_count(self@, space@, now),
    {
        let now = now_millis();
        let n: usize = self.offered_to_at(space, now);
        proof {
            assert(n as nat == offered_count(self@, space@, now));
        }
        n
    }

    /// Hand back any task whose owner is no longer among the live claimants.
    ///
    /// Phrased as "who is still here" rather than "who left": a pane that closes before it was
    /// ever named leaves no departure to notice. `user` is exempt.
    pub fn reclaim_absent(&mut self, live: &[String]) -> (r: Vec<Task>)
        requires
            old(self)@.wf(),
        ensures
            final(self)@ == old(self)@.put_all(orphaned(texts(live@)), give_back()),
            views(r@) == pick(old(self)@.tasks, orphaned(texts(live@)), give_back()),
            final(self)@.wf(),
    {
        let ghost p = orphaned(texts(live@));
        let ghost f = give_back();
        let ghost ts = self@.tasks;
        let mut back: Vec<Task> = Vec::new();
        let mut i: usize = 0;
        proof {
            assert(views(back@) =~= pick(ts.take(0), p, f));
            assert(self@.unwritten + pick(ts.take(0), p, f) =~= self@.unwritten);
        }
        while i < self.tasks.len()
            invariant
                i <= self.tasks@.len(),
                ts == old(self)@.tasks,
                p == orphaned(texts(live@)),
                f == give_back(),
                self@.tasks.len() == ts.len(),
                forall|j: int| i <= j < ts.len() ==> #[trigger] self@.tasks[j] == ts[j],
                forall|j: int|
                    0 <= j < i ==> #[trigger] self@.tasks[j] == (if p(ts[j]) {
                        f(ts[j])
                    } else {
                        ts[j]
                    }),
                views(back@) == pick(ts.take(i as int), p, f),
                self@.unwritten == old(self)@.unwritten + pick(ts.take(i as int), p, f),
                self@.next_id == old(self)@.next_id,
            decreases ts.len() - i,
        {
            let t = &self.tasks[i];
            proof {
                assert(self@.tasks[i as int] == ts[i as int]);
                lemma_pick_take(ts, p, f, i as int);
            }
            let gone = match &t.owner {
                Some(o) => !same(o.as_str(), "user") && !listed(live, o.as_str()),
                None => false,
            };
            if t.is_claimed() && gone {
                let ghost was = self@;
                let ghost had = views(back@);
                let mut d = t.copy();
                d.state = TaskState::Open;
                d.owner = None;
                d.claimed_at = None;
                back.push(d.copy());
                self.unwritten.push(d.copy());
                self.tasks.set(i, d);
                proof {
                    assert(views(back@) =~= had.push(d@));
                    assert(self@.tasks =~= was.tasks.update(i as int, d@));
                    assert(self@.unwritten =~= was.unwritten.push(d@));
                    assert(self@.unwritten =~= old(self)@.unwritten + pick(
                        ts.take(i as int + 1),
                        p,
                        f,
                    ));
                }
            }
            i = i + 1;
        }
        proof {
            assert(ts.take(i as int) =~= ts);
            assert(self@.tasks =~= replaced(ts, p, f));
        }
        back
    }

    /// Age a task, so staleness can be tested without waiting a day.
    pub fn backdate_for_test(&mut self, id: u64, by_millis: u64)
        requires
            old(self)@.wf(),
        ensures
            ({
                let b = old(self)@;
                let i = b.find(id);
                final(self)@ == (if i < b.tasks.len() {
                    BoardView {
                        tasks: b.tasks.update(
                            i,
                            TaskView {
                                created: (if b.tasks[i].created < by_millis {
                                    0
                                } else {
                                    b.tasks[i].created - by_millis
                                }) as u64,
                                ..b.tasks[i]
                            },
                        ),
                        ..b
                    }
                } else {
                    b
                })
            }),
            final(self)@.wf(),
    {
        let i: usize = position(&self.tasks, id);
        if i < self.tasks.len() {
            let mut t = self.tasks[i].copy();
            t.created = t.created.saturating_sub(by_millis);
            self.tasks.set(i, t);
            proof {
                assert(self@.tasks =~= old(self)@.tasks.update(i as int, t@));
            }
        }
    }
}

/// How many tasks are offered to agents in a project.
pub open spec fn offered_count(b: BoardView, space: Seq<char>, now: u64) -> nat {
    count_where(b.tasks, |t: TaskView| t.is_offered(space, now))
}

// -- laws --------------------------------------------------------------------

proof fn lemma_find(b: BoardView, i: int)
    requires
        b.wf(),
        0 <= i < b.tasks.len(),
    ensures
        b.find(b.tasks[i].id) == i,
{
    let id = b.tasks[i].id;
    let p = |t: TaskView| t.id == id;
    assert forall|j: int| 0 <= j < i implies !p(#[trigger] b.tasks[j]) by {
        assert(b.tasks[j].id < b.tasks[i].id);
    }
    lemma_first_where_is(b.tasks, p, i);
}

/// Two agents never hold the same task: once a claim has taken one, no other claim gets it.
/// Claiming it by name is refused with the name of whoever holds it, and an unnamed claim
/// passes over it.
pub proof fn law_claim_is_exclusive(
    b: BoardView,
    owner: Seq<char>,
    id: Option<u64>,
    space: Option<Seq<char>>,
    now: u64,
    other: Seq<char>,
    other_space: Option<Seq<char>>,
    later: u64,
)
    requires
        b.wf(),
        claiming(b, owner, id, space, now).1 matches Ok(Some(_)),
    ensures
        ({
            let (after, r) = claiming(b, owner, id, space, now);
            let t = r->Ok_0->Some_0;
            &&& t.owner == Some(owner)
            &&& claiming(after, other, Some(t.id), other_space, later).1 == Err::<
                Option<TaskView>,
                _,
            >(
                TaskErrorView::Taken { id: t.id, state: TaskState::Claimed, owner: Some(owner) },
            )
            &&& claiming(after, other, Some(t.id), other_space, later).0 == after
            &&& claiming(after, other, None, other_space, later).1 matches Ok(Some(u)) ==> u.id
                != t.id
        }),
{
    let (after, r) = claiming(b, owner, id, space, now);
    let t = r->Ok_0->Some_0;
    let i = match id {
        Some(id) => b.find(id),
        None => next_up(b, space, now),
    };
    match id {
        Some(id) => {
            lemma_first_where(b.tasks, |t: TaskView| t.id == id);
        },
        None => {
            lemma_first_where(b.tasks, |t: TaskView| t.takeable(space, now));
        },
    }
    assert(after.tasks[i] == t);
    assert(after.wf());
    lemma_find(after, i);
    let j = next_up(after, other_space, later);
    let p = |t: TaskView| t.takeable(other_space, later);
    lemma_first_where(after.tasks, p);
    if j < after.tasks.len() {
        assert(p(after.tasks[j]));
        assert(j != i);
        if j < i {
            assert(after.tasks[j].id < after.tasks[i].id);
        } else {
            assert(after.tasks[i].id < after.tasks[j].id);
        }
    }
}

/// An unnamed claim takes the oldest task it may take, never one of another project and never
/// a stale one; and it comes back with nothing exactly when there is no such task.
pub proof fn law_unnamed_claim_takes_the_oldest(
    b: BoardView,
    owner: Seq<char>,
    space: Option<Seq<char>>,
    now: u64,
)
    requires
        b.wf(),
    ensures
        claiming(b, owner, None, space, now).1 is Ok,
        claiming(b, owner, None, space, now).1->Ok_0 matches Some(t) ==> {
            let i = next_up(b, space, now);
            &&& 0 <= i < b.tasks.len()
            &&& b.tasks[i].id == t.id
            &&& b.tasks[i].is_open()
            &&& !b.tasks[i].is_stale(now)
            &&& b.tasks[i].space is None || b.tasks[i].space == space
        },
        claiming(b, owner, None, space, now).1->Ok_0 matches Some(t) ==> forall|j: int|
            0 <= j < b.tasks.len() && (#[trigger] b.tasks[j]).takeable(space, now) ==> t.id
                <= b.tasks[j].id,
        claiming(b, owner, None, space, now).1->Ok_0 is None <==> forall|j: int|
            0 <= j < b.tasks.len() ==> !(#[trigger] b.tasks[j]).takeable(space, now),
{
    let p = |t: TaskView| t.takeable(space, now);
    lemma_first_where(b.tasks, p);
    let i = next_up(b, space, now);
    if i < b.tasks.len() {
        assert(p(b.tasks[i]));
        assert forall|j: int|
            0 <= j < b.tasks.len() && (#[trigger] b.tasks[j]).takeable(space, now) implies b.tasks[i].id
            <= b.tasks[j].id by {
            if j < i {
                assert(!p(b.tasks[j]));
            } else if j > i {
                assert(b.tasks[i].id < b.tasks[j].id);
            }
        }
    } else {
        assert forall|j: int| 0 <= j < b.tasks.len() implies !(#[trigger] b.tasks[j]).takeable(
            space,
            now,
        ) by {
            assert(!p(b.tasks[j]));
        }
    }
}

/// Work that is offered can be had: while a project is offered anything, an unnamed claim from
/// there gets a task.
pub proof fn law_offered_work_can_be_claimed(
    b: BoardView,
    owner: Seq<char>,
    space: Seq<char>,
    now: u64,
)
    requires
        offered_count(b, space, now) > 0,
    ensures
        claiming(b, owner, None, Some(space), now).1 matches Ok(Some(_)),
{
    let p = |t: TaskView| t.takeable(Some(space), now);
    let q = |t: TaskView| t.is_offered(space, now);
    lemma_first_where(b.tasks, p);
    if next_up(b, Some(space), now) >= b.tasks.len() {
        assert forall|j: int| 0 <= j < b.tasks.len() implies !q(#[trigger] b.tasks[j]) by {
            assert(!p(b.tasks[j]));
        }
        lemma_count_none(b.tasks, q);
    }
}

/// Stale is not deleted: any open task, however old and wherever from, can be claimed by name.
pub proof fn law_open_work_can_be_claimed_by_name(
    b: BoardView,
    i: int,
    owner: Seq<char>,
    space: Option<Seq<char>>,
    now: u64,
)
    requires
        b.wf(),
        0 <= i < b.tasks.len(),
        b.tasks[i].is_open(),
    ensures
        claiming(b, owner, Some(b.tasks[i].id), space, now) == (
            b.put(i, b.tasks[i].claimed(owner, now)),
            Ok::<Option<TaskView>, TaskErrorView>(Some(b.tasks[i].claimed(owner, now))),
        ),
{
    lemma_find(b, i);
}

/// Clearing everywhere leaves nothing open, and nothing claimed either where that was asked.
pub proof fn law_clearing_everywhere_leaves_nothing_open(b: BoardView, claimed_too: bool, now: u64)
    ensures
        ({
            let after = b.put_all(cleared(None, claimed_too), drop_at(now));
            forall|i: int|
                0 <= i < after.tasks.len() ==> !(#[trigger] after.tasks[i]).is_open() && (
                claimed_too ==> !after.tasks[i].is_claimed())
        }),
{
}

/// Clearing one project leaves every task of another as it was.
pub proof fn law_clearing_a_project_spares_the_others(
    b: BoardView,
    space: Seq<char>,
    claimed_too: bool,
    now: u64,
    i: int,
)
    requires
        0 <= i < b.tasks.len(),
        b.tasks[i].space matches Some(s) && s != space,
    ensures
        b.put_all(cleared(Some(space), claimed_too), drop_at(now)).tasks[i] == b.tasks[i],
{
}

/// What a person at the keyboard holds is never taken back, and neither is the work of an
/// agent that is still there.
pub proof fn law_reclaiming_spares_the_user_and_the_living(
    b: BoardView,
    live: Seq<Seq<char>>,
    i: int,
)
    requires
        0 <= i < b.tasks.len(),
        b.tasks[i].owner matches Some(o) && (o == "user"@ || live.contains(o)),
    ensures
        b.put_all(orphaned(live), give_back()).tasks[i] == b.tasks[i],
{
}

/// After a reclaiming, whoever holds a task is the user or is there; and doing it again with
/// the same list changes nothing.
pub proof fn law_reclaimed_work_is_open_again(b: BoardView, live: Seq<Seq<char>>)
    ensures
        ({
            let after = b.put_all(orphaned(live), give_back());
            &&& forall|i: int|
                0 <= i < after.tasks.len() && (#[trigger] after.tasks[i]).is_claimed()
                    && after.tasks[i].owner is Some ==> after.tasks[i].owner->Some_0 == "user"@
                    || live.contains(after.tasks[i].owner->Some_0)
            &&& after.put_all(orphaned(live), give_back()).tasks == after.tasks
        }),
{
    let after = b.put_all(orphaned(live), give_back());
    assert(after.put_all(orphaned(live), give_back()).tasks =~= after.tasks);
}

/// However much is forgotten to keep the board within its size, every open or claimed task
/// stays.
pub proof fn law_outstanding_work_is_never_forgotten(ts: Seq<TaskView>, t: TaskView)
    requires
        ts.contains(t),
        t.is_open() || t.is_claimed(),
    ensures
        trimmed_to_cap(ts).contains(t),
    decreases ts.len(),
{
    let k = first_where(ts, over());
    lemma_first_where(ts, over());
    if ts.len() > CAP && 0 <= k < ts.len() {
        let i = choose|i: int| 0 <= i < ts.len() && ts[i] == t;
        assert(over()(ts[k]));
        ts.remove_ensures(k);
        if i < k {
            assert(ts.remove(k)[i] == t);
        } else {
            assert(ts.remove(k)[i - 1] == t);
        }
        law_outstanding_work_is_never_forgotten(ts.remove(k), t);
    }
}

/// A board over its size holds outstanding work only.
pub proof fn law_board_is_over_its_cap_only_with_outstanding_work(ts: Seq<TaskView>, i: int)
    requires
        trimmed_to_cap(ts).len() > CAP,
        0 <= i < trimmed_to_cap(ts).len(),
    ensures
        !trimmed_to_cap(ts)[i].is_finished(),
    decreases ts.len(),
{
    let k = first_where(ts, over());
    lemma_first_where(ts, over());
    if ts.len() > CAP && 0 <= k < ts.len() {
        law_board_is_over_its_cap_only_with_outstanding_work(ts.remove(k), i);
    } else {
        assert(!over()(ts[i]));
    }
}

/// A new task gets an id that no task on the board has, and the ids never restart.
pub proof fn law_ids_never_restart(
    b: BoardView,
    text: Seq<char>,
    by: Seq<char>,
    space: Option<Seq<char>>,
    now: u64,
)
    requires
        b.wf(),
        b.next_id < u64::MAX,
        trimmed(text).len() > 0,
    ensures
        ({
            let (after, r) = adding(b, text, by, space, now);
            &&& r is Ok
            &&& forall|i: int|
                0 <= i < b.tasks.len() ==> (#[trigger] b.tasks[i]).id < (r->Ok_0).id
            &&& after.next_id > (r->Ok_0).id
            &&& after.next_id > b.next_id
        }),
{
}

/// The last entry for an id is the one that counts: whatever a log holds for an id, replaying
/// gives the last of it.
pub proof fn law_last_entry_wins(log: Seq<TaskView>, k: int)
    requires
        0 <= k < log.len(),
        forall|j: int| k < j < log.len() ==> (#[trigger] log[j]).id != log[k].id,
    ensures
        replayed(log).contains(log[k]),
    decreases log.len(),
{
    let before = log.drop_last();
    let t = log.last();
    let ts = replayed(before);
    let p = |x: TaskView| x.id >= t.id;
    lemma_first_where(ts, p);
    let at = first_where(ts, p);
    lemma_replayed_by_id(before);
    if k == log.len() - 1 {
        if at < ts.len() && ts[at].id == t.id {
            assert(replayed(log)[at] == t);
        } else {
            ts.insert_ensures(at, t);
            assert(replayed(log)[at] == t);
        }
    } else {
        assert(log[log.len() - 1].id != log[k].id);
        assert(before[k] == log[k]);
        assert forall|j: int| k < j < before.len() implies (#[trigger] before[j]).id
            != before[k].id by {
            assert(before[j] == log[j]);
        }
        law_last_entry_wins(before, k);
        let i = choose|i: int| 0 <= i < ts.len() && ts[i] == log[k];
        if at < ts.len() && ts[at].id == t.id {
            assert(i != at);
            assert(replayed(log)[i] == log[k]);
        } else {
            ts.insert_ensures(at, t);
            if i < at {
                assert(replayed(log)[i] == log[k]);
            } else {
                assert(replayed(log)[i + 1] == log[k]);
            }
        }
    }
}

/// Whether a log, with what it has yet to be told, comes to what is on the board.
pub open spec fn in_step(b: BoardView, log: Seq<TaskView>) -> bool {
    replayed(log + b.unwritten) == b.tasks
}

/// Writing a task that is on the board puts it in its own place.
proof fn lemma_written_in_place(ts: Seq<TaskView>, i: int, t: TaskView)
    requires
        by_id(ts),
        0 <= i < ts.len(),
        ts[i].id == t.id,
    ensures
        written(ts, t) == ts.update(i, t),
{
    let p = |x: TaskView| x.id >= t.id;
    assert forall|j: int| 0 <= j < i implies !p(#[trigger] ts[j]) by {
        assert(ts[j].id < ts[i].id);
    }
    lemma_first_where_is(ts, p, i);
}

/// Writing a task newer than all others puts it last.
proof fn lemma_written_last(ts: Seq<TaskView>, t: TaskView)
    requires
        forall|i: int| 0 <= i < ts.len() ==> (#[trigger] ts[i]).id < t.id,
    ensures
        written(ts, t) == ts.push(t),
{
    let p = |x: TaskView| x.id >= t.id;
    lemma_first_where_is(ts, p, ts.len() as int);
    assert(ts.insert(ts.len() as int, t) =~= ts.push(t));
}

/// A change to one task keeps the log in step with the board: what is read back after it is
/// what was written.
pub proof fn law_log_keeps_step_with_a_change(
    b: BoardView,
    log: Seq<TaskView>,
    i: int,
    t: TaskView,
)
    requires
        b.wf(),
        in_step(b, log),
        0 <= i < b.tasks.len(),
        t.id == b.tasks[i].id,
    ensures
        in_step(b.put(i, t), log),
{
    let whole = log + b.unwritten;
    assert(log + b.unwritten.push(t) =~= whole.push(t));
    assert(whole.push(t).drop_last() =~= whole);
    lemma_written_in_place(b.tasks, i, t);
}

/// So do a claim, a finish and a release.
pub proof fn law_log_keeps_step_with_claims(
    b: BoardView,
    log: Seq<TaskView>,
    owner: Seq<char>,
    id: Option<u64>,
    space: Option<Seq<char>>,
    said: Option<Seq<char>>,
    number: u64,
    drop_it: bool,
    now: u64,
)
    requires
        b.wf(),
        in_step(b, log),
    ensures
        in_step(claiming(b, owner, id, space, now).0, log),
        in_step(finishing(b, owner, id, said, now).0, log),
        in_step(releasing(b, number, drop_it, now).0, log),
{
    if let Some(id) = id {
        lemma_first_where(b.tasks, |t: TaskView| t.id == id);
    }
    lemma_first_where(b.tasks, |t: TaskView| t.takeable(space, now));
    lemma_first_where(b.tasks, |t: TaskView| t.is_claimed() && t.owner == Some(owner));
    lemma_first_where(b.tasks, |t: TaskView| t.id == number);
    let i = match id {
        Some(id) => b.find(id),
        None => next_up(b, space, now),
    };
    if i < b.tasks.len() {
        law_log_keeps_step_with_a_change(b, log, i, b.tasks[i].claimed(owner, now));
    }
    let j = match id {
        Some(id) => b.find(id),
        None => held_by(b, owner),
    };
    if j < b.tasks.len() {
        law_log_keeps_step_with_a_change(b, log, j, b.tasks[j].finished(owner, said, now));
    }
    let k = b.find(number);
    if k < b.tasks.len() {
        law_log_keeps_step_with_a_change(b, log, k, b.tasks[k].dropped(now));
        law_log_keeps_step_with_a_change(b, log, k, b.tasks[k].released());
    }
}

/// A new task is read back too, as long as nothing had to be forgotten for it.
pub proof fn law_log_keeps_step_with_a_new_task(
    b: BoardView,
    log: Seq<TaskView>,
    text: Seq<char>,
    by: Seq<char>,
    space: Option<Seq<char>>,
    now: u64,
)
    requires
        b.wf(),
        in_step(b, log),
        b.next_id < u64::MAX,
        b.tasks.len() < CAP,
    ensures
        in_step(adding(b, text, by, space, now).0, log),
{
    let t = new_task(b.next_id, text, by, space, now);
    let whole = log + b.unwritten;
    assert(log + b.unwritten.push(t) =~= whole.push(t));
    assert(whole.push(t).drop_last() =~= whole);
    lemma_written_last(b.tasks, t);
}

/// The first `n` tasks replaced, the rest as they were.
spec fn half_replaced(
    ts: Seq<TaskView>,
    p: spec_fn(TaskView) -> bool,
    f: spec_fn(TaskView) -> TaskView,
    n: int,
) -> Seq<TaskView> {
    Seq::new(
        ts.len(),
        |i: int|
            if i < n && p(ts[i]) {
                f(ts[i])
            } else {
                ts[i]
            },
    )
}

proof fn lemma_half_replaced(
    ts: Seq<TaskView>,
    p: spec_fn(TaskView) -> bool,
    f: spec_fn(TaskView) -> TaskView,
    n: int,
)
    requires
        by_id(ts),
        forall|t: TaskView| (#[trigger] f(t)).id == t.id,
        0 <= n < ts.len(),
    ensures
        p(ts[n]) ==> written(half_replaced(ts, p, f, n), f(ts[n])) == half_replaced(
            ts,
            p,
            f,
            n + 1,
        ),
        !p(ts[n]) ==> half_replaced(ts, p, f, n) == half_replaced(ts, p, f, n + 1),
{
    let before = half_replaced(ts, p, f, n);
    let after = half_replaced(ts, p, f, n + 1);
    assert forall|i: int| 0 <= i < ts.len() implies (#[trigger] before[i]).id == ts[i].id by {}
    assert forall|i: int, j: int| 0 <= i < j < before.len() implies (#[trigger] before[i]).id < (
    #[trigger] before[j]).id by {
        assert(ts[i].id < ts[j].id);
    }
    if p(ts[n]) {
        lemma_written_in_place(before, n, f(ts[n]));
        assert(before.update(n, f(ts[n])) =~= after);
    } else {
        assert(before =~= after);
    }
}

proof fn lemma_replaced_prefix(
    b: BoardView,
    log: Seq<TaskView>,
    p: spec_fn(TaskView) -> bool,
    f: spec_fn(TaskView) -> TaskView,
    n: int,
)
    requires
        b.wf(),
        in_step(b, log),
        forall|t: TaskView| (#[trigger] f(t)).id == t.id,
        0 <= n <= b.tasks.len(),
    ensures
        replayed(log + b.unwritten + pick(b.tasks.take(n), p, f)) == half_replaced(
            b.tasks,
            p,
            f,
            n,
        ),
    decreases n,
{
    let ts = b.tasks;
    let whole = log + b.unwritten;
    if n == 0 {
        assert(whole + pick(ts.take(0), p, f) =~= whole);
        assert(half_replaced(ts, p, f, 0) =~= ts);
    } else {
        lemma_replaced_prefix(b, log, p, f, n - 1);
        lemma_pick_take(ts, p, f, n - 1);
        lemma_half_replaced(ts, p, f, n - 1);
        let so_far = whole + pick(ts.take(n - 1), p, f);
        if p(ts[n - 1]) {
            let t = f(ts[n - 1]);
            assert(whole + pick(ts.take(n), p, f) =~= so_far.push(t));
            assert(so_far.push(t).drop_last() =~= so_far);
        }
    }
}

/// And so do a clearing and a reclaiming, however many tasks they touch.
pub proof fn law_log_keeps_step_with_a_sweep(
    b: BoardView,
    log: Seq<TaskView>,
    space: Option<Seq<char>>,
    claimed_too: bool,
    live: Seq<Seq<char>>,
    now: u64,
)
    requires
        b.wf(),
        in_step(b, log),
    ensures
        in_step(b.put_all(cleared(space, claimed_too), drop_at(now)), log),
        in_step(b.put_all(orphaned(live), give_back()), log),
{
    let n = b.tasks.len() as int;
    let p = cleared(space, claimed_too);
    let q = orphaned(live);
    lemma_replaced_prefix(b, log, p, drop_at(now), n);
    lemma_replaced_prefix(b, log, q, give_back(), n);
    assert(b.tasks.take(n) =~= b.tasks);
    assert(half_replaced(b.tasks, p, drop_at(now), n) =~= replaced(b.tasks, p, drop_at(now)));
    assert(half_replaced(b.tasks, q, give_back(), n) =~= replaced(b.tasks, q, give_back()));
    assert(log + (b.unwritten + pick(b.tasks, p, drop_at(now))) =~= log + b.unwritten + pick(
        b.tasks,
        p,
        drop_at(now),
    ));
    assert(log + (b.unwritten + pick(b.tasks, q, give_back())) =~= log + b.unwritten + pick(
        b.tasks,
        q,
        give_back(),
    ));
}

/// Writing tasks that stand in order of id, each into a log of its own, gives them back.
proof fn lemma_replayed_is_itself(ts: Seq<TaskView>)
    requires
        by_id(ts),
    ensures
        replayed(ts) == ts,
    decreases ts.len(),
{
    if ts.len() > 0 {
        let before = ts.drop_last();
        assert forall|i: int, j: int| 0 <= i < j < before.len() implies (#[trigger] before[i]).id < (
        #[trigger] before[j]).id by {
            assert(ts[i].id < ts[j].id);
        }
        lemma_replayed_is_itself(before);
        assert forall|i: int| 0 <= i < before.len() implies (#[trigger] before[i]).id
            < ts.last().id by {
            assert(ts[i].id < ts[ts.len() - 1].id);
        }
        lemma_written_last(before, ts.last());
        assert(before.push(ts.last()) =~= ts);
    } else {
        assert(replayed(ts) =~= ts);
    }
}

/// A log that is put aside costs the board nothing: one that is begun anew with what is on the
/// board reads back as the board, open work and finished work alike.
pub proof fn law_a_rotated_log_reads_back(b: BoardView)
    requires
        b.wf(),
    ensures
        replayed(b.tasks) == b.tasks,
        in_step(BoardView { unwritten: Seq::empty(), ..b }, b.tasks),
{
    lemma_replayed_is_itself(b.tasks);
    assert(b.tasks + Seq::<TaskView>::empty() =~= b.tasks);
}

/// Something done with a board and its log.
pub enum BoardStep {
    Add { text: Seq<char>, by: Seq<char>, space: Option<Seq<char>>, now: u64 },
    Claim { owner: Seq<char>, id: Option<u64>, space: Option<Seq<char>>, now: u64 },
    Done { owner: Seq<char>, id: Option<u64>, said: Option<Seq<char>>, now: u64 },
    Release { id: u64, drop_it: bool, now: u64 },
    Clear { space: Option<Seq<char>>, claimed_too: bool, now: u64 },
    Reclaim { live: Seq<Seq<char>> },
    /// The log is told what it has yet to be told.
    Write,
    /// The log is put aside, and another begun with what is on the board.
    Rotate,
}

/// What a step does to a board and its log.
pub open spec fn stepped(b: BoardView, log: Seq<TaskView>, st: BoardStep) -> (
    BoardView,
    Seq<TaskView>,
) {
    match st {
        BoardStep::Add { text, by, space, now } => (adding(b, text, by, space, now).0, log),
        BoardStep::Claim { owner, id, space, now } => (claiming(b, owner, id, space, now).0, log),
        BoardStep::Done { owner, id, said, now } => (finishing(b, owner, id, said, now).0, log),
        BoardStep::Release { id, drop_it, now } => (releasing(b, id, drop_it, now).0, log),
        BoardStep::Clear { space, claimed_too, now } => (
            b.put_all(cleared(space, claimed_too), drop_at(now)),
            log,
        ),
        BoardStep::Reclaim { live } => (b.put_all(orphaned(live), give_back()), log),
        BoardStep::Write => (BoardView { unwritten: Seq::empty(), ..b }, log + b.unwritten),
        BoardStep::Rotate => (BoardView { unwritten: Seq::empty(), ..b }, b.tasks),
    }
}

/// What a run of steps does to a board and its log.
pub open spec fn ran(b: BoardView, log: Seq<TaskView>, steps: Seq<BoardStep>) -> (
    BoardView,
    Seq<TaskView>,
)
    decreases steps.len(),
{
    if steps.len() == 0 {
        (b, log)
    } else {
        let (before, written) = ran(b, log, steps.drop_last());
        stepped(before, written, steps.last())
    }
}

/// A task in another's place keeps the board sound.
proof fn lemma_put_wf(b: BoardView, i: int, t: TaskView)
    requires
        b.wf(),
        0 <= i < b.tasks.len(),
        t.id == b.tasks[i].id,
    ensures
        b.put(i, t).wf(),
{
    let after = b.put(i, t).tasks;
    assert forall|x: int, y: int| 0 <= x < y < after.len() implies (#[trigger] after[x]).id < (
    #[trigger] after[y]).id by {
        assert(after[x].id == b.tasks[x].id);
        assert(after[y].id == b.tasks[y].id);
    }
    assert forall|x: int| 0 <= x < after.len() implies (#[trigger] after[x]).id < b.next_id by {
        assert(after[x].id == b.tasks[x].id);
    }
}

/// A sweep keeps the board sound.
proof fn lemma_put_all_wf(
    b: BoardView,
    p: spec_fn(TaskView) -> bool,
    f: spec_fn(TaskView) -> TaskView,
)
    requires
        b.wf(),
        forall|t: TaskView| (#[trigger] f(t)).id == t.id,
    ensures
        b.put_all(p, f).wf(),
{
    let after = b.put_all(p, f).tasks;
    assert forall|x: int, y: int| 0 <= x < y < after.len() implies (#[trigger] after[x]).id < (
    #[trigger] after[y]).id by {
        assert(after[x].id == b.tasks[x].id);
        assert(after[y].id == b.tasks[y].id);
    }
    assert forall|x: int| 0 <= x < after.len() implies (#[trigger] after[x]).id < b.next_id by {
        assert(after[x].id == b.tasks[x].id);
    }
}

/// A claim, a finish and a release keep the board sound, and its size.
proof fn lemma_claims_wf(b: BoardView, st: BoardStep)
    requires
        b.wf(),
        st is Claim || st is Done || st is Release,
    ensures
        stepped(b, Seq::empty(), st).0.wf(),
        stepped(b, Seq::empty(), st).0.tasks.len() == b.tasks.len(),
        stepped(b, Seq::empty(), st).0.next_id == b.next_id,
{
    match st {
        BoardStep::Claim { owner, id, space, now } => {
            if let Some(n) = id {
                lemma_first_where(b.tasks, |t: TaskView| t.id == n);
            }
            lemma_first_where(b.tasks, |t: TaskView| t.takeable(space, now));
            let i = match id {
                Some(id) => b.find(id),
                None => next_up(b, space, now),
            };
            if i < b.tasks.len() {
                lemma_put_wf(b, i, b.tasks[i].claimed(owner, now));
            }
        },
        BoardStep::Done { owner, id, said, now } => {
            if let Some(n) = id {
                lemma_first_where(b.tasks, |t: TaskView| t.id == n);
            }
            lemma_first_where(b.tasks, |t: TaskView| t.is_claimed() && t.owner == Some(owner));
            let i = match id {
                Some(id) => b.find(id),
                None => held_by(b, owner),
            };
            if i < b.tasks.len() {
                lemma_put_wf(b, i, b.tasks[i].finished(owner, said, now));
            }
        },
        BoardStep::Release { id, drop_it, now } => {
            lemma_first_where(b.tasks, |t: TaskView| t.id == id);
            let i = b.find(id);
            if i < b.tasks.len() {
                lemma_put_wf(b, i, b.tasks[i].dropped(now));
                lemma_put_wf(b, i, b.tasks[i].released());
            }
        },
        _ => {},
    }
}

/// One step keeps a board sound and its log in step with it.
proof fn lemma_stepped(b: BoardView, log: Seq<TaskView>, st: BoardStep)
    requires
        b.wf(),
        in_step(b, log),
        st is Add ==> b.next_id < u64::MAX && b.tasks.len() < CAP,
    ensures
        ({
            let (after, written) = stepped(b, log, st);
            let more = if st is Add {
                1int
            } else {
                0
            };
            &&& after.wf()
            &&& in_step(after, written)
            &&& after.next_id <= b.next_id + more
            &&& after.tasks.len() <= b.tasks.len() + more
        }),
{
    match st {
        BoardStep::Add { text, by, space, now } => {
            law_log_keeps_step_with_a_new_task(b, log, text, by, space, now);
            let after = adding(b, text, by, space, now).0;
            if trimmed(text).len() > 0 {
                let t = new_task(b.next_id, text, by, space, now);
                assert(after.tasks == b.tasks.push(t));
                assert forall|x: int, y: int| 0 <= x < y < after.tasks.len() implies (
                #[trigger] after.tasks[x]).id < (#[trigger] after.tasks[y]).id by {
                    if y < b.tasks.len() {
                        assert(b.tasks[x].id < b.tasks[y].id);
                    } else {
                        assert(b.tasks[x].id < b.next_id);
                    }
                }
            }
        },
        BoardStep::Claim { owner, id, space, now } => {
            law_log_keeps_step_with_claims(b, log, owner, id, space, None, 0, false, now);
            lemma_claims_wf(b, st);
        },
        BoardStep::Done { owner, id, said, now } => {
            law_log_keeps_step_with_claims(b, log, owner, id, None, said, 0, false, now);
            lemma_claims_wf(b, st);
        },
        BoardStep::Release { id, drop_it, now } => {
            law_log_keeps_step_with_claims(b, log, Seq::empty(), None, None, None, id, drop_it, now);
            lemma_claims_wf(b, st);
        },
        BoardStep::Clear { space, claimed_too, now } => {
            law_log_keeps_step_with_a_sweep(b, log, space, claimed_too, Seq::empty(), now);
            lemma_put_all_wf(b, cleared(space, claimed_too), drop_at(now));
        },
        BoardStep::Reclaim { live } => {
            law_log_keeps_step_with_a_sweep(b, log, None, false, live, 0);
            lemma_put_all_wf(b, orphaned(live), give_back());
        },
        BoardStep::Write => {
            assert(log + b.unwritten + Seq::<TaskView>::empty() =~= log + b.unwritten);
        },
        BoardStep::Rotate => {
            law_a_rotated_log_reads_back(b);
        },
    }
}

/// A step that adds.
pub open spec fn adds() -> spec_fn(BoardStep) -> bool {
    |st: BoardStep| st is Add
}

/// Whatever is done with a board that starts empty, and whenever its log is written or put aside,
/// the log and what it has yet to be told read back as the board: each id once, the last entry of
/// it, in order. No more is added than a board holds, beyond which finished work is forgotten.
pub proof fn law_a_board_reads_back_whatever_was_done(steps: Seq<BoardStep>)
    requires
        count_where(steps, adds()) <= CAP,
    ensures
        ({
            let empty = BoardView { tasks: Seq::empty(), next_id: 1, unwritten: Seq::empty() };
            let (after, log) = ran(empty, Seq::empty(), steps);
            &&& after.wf()
            &&& in_step(after, log)
            &&& after.tasks.len() <= count_where(steps, adds())
            &&& after.next_id <= 1 + count_where(steps, adds())
        }),
    decreases steps.len(),
{
    let empty = BoardView { tasks: Seq::empty(), next_id: 1, unwritten: Seq::empty() };
    if steps.len() == 0 {
        assert(Seq::<TaskView>::empty() + Seq::<TaskView>::empty() =~= Seq::<TaskView>::empty());
        assert(replayed(Seq::<TaskView>::empty()) =~= Seq::<TaskView>::empty());
    } else {
        law_a_board_reads_back_whatever_was_done(steps.drop_last());
        let (before, log) = ran(empty, Seq::empty(), steps.drop_last());
        lemma_stepped(before, log, steps.last());
    }
}

/// A log that has been told everything is read back as the board it is of, and the next task of
/// what is read gets an id one above the largest.
pub proof fn law_a_board_is_what_its_log_says(b: BoardView, log: Seq<TaskView>, read: BoardView)
    requires
        in_step(b, log),
        b.unwritten.len() == 0,
        // As reading a log leaves a board.
        read.tasks == replayed(log),
        read.tasks.len() == 0 ==> read.next_id == 1,
        read.tasks.len() > 0 ==> read.next_id == read.tasks.last().id + 1,
    ensures
        read.tasks == b.tasks,
        b.tasks.len() > 0 ==> read.next_id == b.tasks.last().id + 1,
{
    assert(log + b.unwritten =~= log);
}

} // verus!
