//! What the board promises of a task, field by field: what each operation changes, and what it
//! leaves as it was.

use crate::seqs::{lemma_count_none, lemma_count_some, lemma_first_where, lemma_first_where_is};
use crate::tasks::{
    adding, by_id, claiming, cleared, drop_at, finishing, give_back, held_by, next_up,
    offered_count, orphaned, over, releasing, trimmed_to_cap, BoardView, TaskErrorView, TaskState,
    TaskView,
};
use crate::text::trimmed;
use vstd::prelude::*;

verus! {

proof fn lemma_at(b: BoardView, i: int)
    requires
        b.wf(),
        0 <= i < b.tasks.len(),
    ensures
        b.find(b.tasks[i].id) == i,
{
    let id = b.tasks[i].id;
    let p = |t: TaskView| t.id == id;
    assert forall|j: int| 0 <= j < i implies !p(#[trigger] b.tasks[j]) by {
        assert(b.tasks[j].id < b.tasks[i].id);
    }
    lemma_first_where_is(b.tasks, p, i);
}

/// Two boards that differ in one task at most.
pub open spec fn all_but(before: BoardView, after: BoardView, i: int) -> bool {
    &&& after.next_id == before.next_id
    &&& after.tasks.len() == before.tasks.len()
    &&& forall|j: int| 0 <= j < before.tasks.len() && j != i ==> #[trigger] after.tasks[j]
        == before.tasks[j]
}

/// What a task is whoever holds it: its number, its text, who asked for it and when, and the
/// project it belongs to.
pub open spec fn same_work(a: TaskView, b: TaskView) -> bool {
    &&& a.id == b.id
    &&& a.text == b.text
    &&& a.created == b.created
    &&& a.by == b.by
    &&& a.space == b.space
}

/// Putting a task back changes only who holds it: it is open, in nobody's name, and everything
/// else about it and about every other task is as it was.
pub proof fn law_putting_work_back_changes_only_who_holds_it(b: BoardView, i: int, now: u64)
    requires
        b.wf(),
        0 <= i < b.tasks.len(),
    ensures
        ({
            let (after, r) = releasing(b, b.tasks[i].id, false, now);
            let t = after.tasks[i];
            &&& all_but(b, after, i)
            &&& same_work(t, b.tasks[i])
            &&& t.state == TaskState::Open
            &&& t.owner is None
            &&& t.claimed_at is None
            &&& t.done_at == b.tasks[i].done_at
            &&& t.result == b.tasks[i].result
            &&& r == Ok::<TaskView, TaskErrorView>(t)
            &&& after.unwritten == b.unwritten.push(t)
        }),
{
    lemma_at(b, i);
}

/// Giving up on a task says so and when, and keeps whose it was.
pub proof fn law_giving_up_keeps_the_record(b: BoardView, i: int, now: u64)
    requires
        b.wf(),
        0 <= i < b.tasks.len(),
    ensures
        ({
            let (after, r) = releasing(b, b.tasks[i].id, true, now);
            let t = after.tasks[i];
            &&& all_but(b, after, i)
            &&& same_work(t, b.tasks[i])
            &&& t.state == TaskState::Dropped
            &&& t.done_at == Some(now)
            &&& t.owner == b.tasks[i].owner
            &&& t.claimed_at == b.tasks[i].claimed_at
            &&& t.result == b.tasks[i].result
            &&& r == Ok::<TaskView, TaskErrorView>(t)
            &&& after.unwritten == b.unwritten.push(t)
        }),
{
    lemma_at(b, i);
}

/// Taking work back from agents that are gone changes only who holds it, and only for tasks that
/// somebody who is gone has claimed.
pub proof fn law_taking_work_back_changes_only_who_holds_it(
    b: BoardView,
    live: Seq<Seq<char>>,
    i: int,
)
    requires
        0 <= i < b.tasks.len(),
    ensures
        ({
            let after = b.put_all(orphaned(live), give_back());
            let (t, u) = (b.tasks[i], after.tasks[i]);
            let gone = t.state == TaskState::Claimed && (t.owner matches Some(o) && o != "user"@
                && !live.contains(o));
            &&& after.tasks.len() == b.tasks.len()
            &&& after.next_id == b.next_id
            &&& same_work(u, t)
            &&& u.done_at == t.done_at
            &&& u.result == t.result
            &&& gone ==> u.state == TaskState::Open && u.owner is None && u.claimed_at is None
            &&& !gone ==> u == t
        }),
{
}

/// What a person at the keyboard has claimed is not taken back, whoever is there.
pub proof fn law_the_user_never_goes_away(b: BoardView, live: Seq<Seq<char>>, i: int)
    requires
        0 <= i < b.tasks.len(),
        b.tasks[i].owner == Some("user"@),
    ensures
        b.put_all(orphaned(live), give_back()).tasks[i] == b.tasks[i],
{
}

/// A claim puts a name and a time on a task, and changes nothing else.
pub proof fn law_a_claim_changes_only_who_holds_it(
    b: BoardView,
    owner: Seq<char>,
    id: Option<u64>,
    space: Option<Seq<char>>,
    now: u64,
)
    requires
        b.wf(),
        claiming(b, owner, id, space, now).1 matches Ok(Some(_)),
    ensures
        ({
            let (after, r) = claiming(b, owner, id, space, now);
            let t = r->Ok_0->Some_0;
            exists|i: int|
                #![trigger b.tasks[i]]
                {
                    &&& 0 <= i < b.tasks.len()
                    &&& all_but(b, after, i)
                    &&& after.tasks[i] == t
                    &&& same_work(t, b.tasks[i])
                    &&& b.tasks[i].state == TaskState::Open
                    &&& t.state == TaskState::Claimed
                    &&& t.owner == Some(owner)
                    &&& t.claimed_at == Some(now)
                    &&& t.done_at == b.tasks[i].done_at
                    &&& t.result == b.tasks[i].result
                    &&& id is Some ==> Some(t.id) == id
                    &&& after.unwritten == b.unwritten.push(t)
                }
        }),
{
    let i = match id {
        Some(id) => b.find(id),
        None => next_up(b, space, now),
    };
    match id {
        Some(id) => {
            lemma_first_where(b.tasks, |t: TaskView| t.id == id);
        },
        None => {
            lemma_first_where(b.tasks, |t: TaskView| t.takeable(space, now));
        },
    }
    let (after, r) = claiming(b, owner, id, space, now);
    assert(after.tasks[i] == r->Ok_0->Some_0);
    assert(b.tasks[i].state == TaskState::Open);
}

/// A claim by number gets an open task, wherever it belongs and however old it is, and nothing
/// else.
pub proof fn law_a_claim_by_number(
    b: BoardView,
    owner: Seq<char>,
    id: u64,
    space: Option<Seq<char>>,
    now: u64,
)
    requires
        b.wf(),
    ensures
        ({
            let (after, r) = claiming(b, owner, Some(id), space, now);
            &&& r is Ok ==> exists|i: int|
                0 <= i < b.tasks.len() && (#[trigger] b.tasks[i]).id == id && b.tasks[i].state
                    == TaskState::Open
            &&& r is Ok ==> r->Ok_0 is Some
            &&& r is Err ==> after == b && forall|i: int|
                0 <= i < b.tasks.len() && (#[trigger] b.tasks[i]).id == id ==> b.tasks[i].state
                    != TaskState::Open
        }),
{
    let p = |t: TaskView| t.id == id;
    lemma_first_where(b.tasks, p);
    let k = b.find(id);
    if k < b.tasks.len() {
        assert(p(b.tasks[k]));
        assert forall|i: int| 0 <= i < b.tasks.len() && (#[trigger] b.tasks[i]).id == id implies i
            == k by {
            if i < k {
                assert(b.tasks[i].id < b.tasks[k].id);
            } else if k < i {
                assert(b.tasks[k].id < b.tasks[i].id);
            }
        }
    } else {
        assert forall|i: int| 0 <= i < b.tasks.len() implies (#[trigger] b.tasks[i]).id != id by {
            assert(!p(b.tasks[i]));
        }
    }
}

/// A claim that names no task gets one of its own project or of none, that has been open for a
/// day at most; of those the one with the lowest number. It gets nothing only where there is none.
pub proof fn law_an_unnamed_claim_stays_in_its_project(
    b: BoardView,
    owner: Seq<char>,
    space: Option<Seq<char>>,
    now: u64,
)
    requires
        b.wf(),
    ensures
        ({
            let (after, r) = claiming(b, owner, None, space, now);
            &&& r is Ok
            &&& r->Ok_0 matches Some(t) ==> (t.space is None || t.space == space) && now
                - t.created <= 86_400_000
            &&& forall|j: int|
                0 <= j < b.tasks.len() && (#[trigger] b.tasks[j]).state == TaskState::Open && (
                b.tasks[j].space is None || b.tasks[j].space == space) && now - b.tasks[j].created
                    <= 86_400_000 ==> (r->Ok_0 matches Some(t) && t.id <= b.tasks[j].id)
        }),
{
    let p = |t: TaskView| t.takeable(space, now);
    lemma_first_where(b.tasks, p);
    let k = next_up(b, space, now);
    if k < b.tasks.len() {
        assert(p(b.tasks[k]));
    }
    assert forall|j: int|
        0 <= j < b.tasks.len() && (#[trigger] b.tasks[j]).state == TaskState::Open && (
        b.tasks[j].space is None || b.tasks[j].space == space) && now - b.tasks[j].created
            <= 86_400_000 implies k < b.tasks.len() && b.tasks[k].id <= b.tasks[j].id by {
        assert(p(b.tasks[j]));
        if k > j {
            assert(!p(b.tasks[j]));
        } else if k < j {
            assert(b.tasks[k].id < b.tasks[j].id);
        }
    }
}

/// A task of one project is never taken by an unnamed claim from another, neither before nor after
/// it was put back.
pub proof fn law_work_stays_in_its_project(
    b: BoardView,
    i: int,
    owner: Seq<char>,
    other: Option<Seq<char>>,
    now: u64,
    later: u64,
)
    requires
        b.wf(),
        0 <= i < b.tasks.len(),
        b.tasks[i].space is Some,
        b.tasks[i].space != other,
    ensures
        claiming(b, owner, None, other, later).1 matches Ok(Some(t)) ==> t.id != b.tasks[i].id,
        ({
            let back = releasing(b, b.tasks[i].id, false, now).0;
            claiming(back, owner, None, other, later).1 matches Ok(Some(t)) ==> t.id
                != b.tasks[i].id
        }),
{
    law_putting_work_back_changes_only_who_holds_it(b, i, now);
    let back = releasing(b, b.tasks[i].id, false, now).0;
    lemma_spared(b, i, owner, other, later);
    assert(by_id(back.tasks)) by {
        assert forall|x: int, y: int| 0 <= x < y < back.tasks.len() implies (
        #[trigger] back.tasks[x]).id < (#[trigger] back.tasks[y]).id by {
            assert(b.tasks[x].id < b.tasks[y].id);
        }
    }
    lemma_spared(back, i, owner, other, later);
}

proof fn lemma_spared(
    b: BoardView,
    i: int,
    owner: Seq<char>,
    other: Option<Seq<char>>,
    later: u64,
)
    requires
        by_id(b.tasks),
        0 <= i < b.tasks.len(),
        b.tasks[i].space is Some,
        b.tasks[i].space != other,
    ensures
        claiming(b, owner, None, other, later).1 matches Ok(Some(t)) ==> t.id != b.tasks[i].id,
{
    let p = |t: TaskView| t.takeable(other, later);
    lemma_first_where(b.tasks, p);
    let k = next_up(b, other, later);
    if k < b.tasks.len() {
        assert(p(b.tasks[k]));
        assert(k != i);
        if k < i {
            assert(b.tasks[k].id < b.tasks[i].id);
        } else {
            assert(b.tasks[i].id < b.tasks[k].id);
        }
    }
}

/// And work that is put back can be had again where it belongs: a claim from its own project gets
/// a task, while it is not more than a day old.
pub proof fn law_work_put_back_can_be_had(
    b: BoardView,
    i: int,
    owner: Seq<char>,
    now: u64,
    later: u64,
)
    requires
        b.wf(),
        0 <= i < b.tasks.len(),
        later - b.tasks[i].created <= 86_400_000,
    ensures
        ({
            let back = releasing(b, b.tasks[i].id, false, now).0;
            &&& claiming(back, owner, None, b.tasks[i].space, later).1 matches Ok(Some(t)) && t.id
                <= b.tasks[i].id
            &&& claiming(back, owner, Some(b.tasks[i].id), None, later).1 matches Ok(Some(t))
                && t.id == b.tasks[i].id
            &&& b.tasks[i].space matches Some(p) ==> offered_count(back, p, later) > 0
        }),
{
    law_putting_work_back_changes_only_who_holds_it(b, i, now);
    let back = releasing(b, b.tasks[i].id, false, now).0;
    assert(back.wf()) by {
        assert forall|x: int, y: int| 0 <= x < y < back.tasks.len() implies (
        #[trigger] back.tasks[x]).id < (#[trigger] back.tasks[y]).id by {
            assert(b.tasks[x].id < b.tasks[y].id);
        }
        assert forall|x: int| 0 <= x < back.tasks.len() implies (#[trigger] back.tasks[x]).id
            < back.next_id by {
            assert(b.tasks[x].id < b.next_id);
        }
    }
    law_an_unnamed_claim_stays_in_its_project(back, owner, b.tasks[i].space, later);
    assert(back.tasks[i].state == TaskState::Open);
    lemma_at(back, i);
    if let Some(p) = b.tasks[i].space {
        let q = |t: TaskView| t.is_offered(p, later);
        assert(q(back.tasks[i]));
        lemma_count_some(back.tasks, q, i);
    }
}

/// Finishing a task says when and with what, and by whom where nobody had claimed it.
pub proof fn law_finishing_changes_only_how_it_ended(
    b: BoardView,
    i: int,
    owner: Seq<char>,
    result: Option<Seq<char>>,
    now: u64,
)
    requires
        b.wf(),
        0 <= i < b.tasks.len(),
    ensures
        ({
            let (after, r) = finishing(b, owner, Some(b.tasks[i].id), result, now);
            let t = after.tasks[i];
            &&& all_but(b, after, i)
            &&& same_work(t, b.tasks[i])
            &&& t.state == TaskState::Done
            &&& t.done_at == Some(now)
            &&& t.claimed_at == b.tasks[i].claimed_at
            &&& b.tasks[i].owner is Some ==> t.owner == b.tasks[i].owner
            &&& b.tasks[i].owner is None ==> t.owner == Some(owner)
            &&& result is Some && trimmed(result->Some_0).len() > 0 ==> t.result == Some(
                trimmed(result->Some_0),
            )
            &&& (result is None || trimmed(result->Some_0).len() == 0) ==> t.result is None
            &&& r == Ok::<TaskView, TaskErrorView>(t)
            &&& after.unwritten == b.unwritten.push(t)
        }),
{
    lemma_at(b, i);
}

/// Whoever finishes without naming a task finishes the one with the lowest number that they have
/// claimed, and is told where they have claimed none.
pub proof fn law_finishing_unnamed_is_of_ones_own(
    b: BoardView,
    owner: Seq<char>,
    result: Option<Seq<char>>,
    now: u64,
)
    requires
        b.wf(),
    ensures
        ({
            let (after, r) = finishing(b, owner, None, result, now);
            &&& r matches Ok(t) ==> t.owner == Some(owner) && t.state == TaskState::Done
            &&& forall|j: int|
                0 <= j < b.tasks.len() && (#[trigger] b.tasks[j]).state == TaskState::Claimed
                    && b.tasks[j].owner == Some(owner) ==> (r matches Ok(t) && t.id
                    <= b.tasks[j].id)
            &&& r is Err ==> after == b && r->Err_0 == TaskErrorView::NoneHeld
        }),
{
    let p = |t: TaskView| t.is_claimed() && t.owner == Some(owner);
    lemma_first_where(b.tasks, p);
    let k = held_by(b, owner);
    if k < b.tasks.len() {
        assert(p(b.tasks[k]));
    }
    assert forall|j: int|
        0 <= j < b.tasks.len() && (#[trigger] b.tasks[j]).state == TaskState::Claimed
            && b.tasks[j].owner == Some(owner) implies k < b.tasks.len() && b.tasks[k].id
        <= b.tasks[j].id by {
        assert(p(b.tasks[j]));
        if k > j {
            assert(!p(b.tasks[j]));
        } else if k < j {
            assert(b.tasks[k].id < b.tasks[j].id);
        }
    }
}

/// A new task is open, in nobody's name, of the project it was asked for in, and the last on the
/// board; the others stay, while there are fewer than two thousand.
pub proof fn law_new_work_goes_to_the_end(
    b: BoardView,
    text: Seq<char>,
    by: Seq<char>,
    space: Option<Seq<char>>,
    now: u64,
)
    requires
        b.next_id < u64::MAX,
        trimmed(text).len() > 0,
    ensures
        ({
            let (after, r) = adding(b, text, by, space, now);
            let t = r->Ok_0;
            &&& r is Ok
            &&& t.id == b.next_id
            &&& t.text == trimmed(text)
            &&& t.state == TaskState::Open
            &&& t.created == now
            &&& t.by == by
            &&& t.space == space
            &&& t.owner is None && t.claimed_at is None && t.done_at is None && t.result is None
            &&& after.next_id == b.next_id + 1
            &&& after.unwritten == b.unwritten.push(t)
            &&& b.tasks.len() < 2000 ==> after.tasks == b.tasks.push(t)
        }),
{
}

/// A task without a description is refused, and nothing changes.
pub proof fn law_work_needs_a_description(
    b: BoardView,
    text: Seq<char>,
    by: Seq<char>,
    space: Option<Seq<char>>,
    now: u64,
)
    requires
        trimmed(text).len() == 0,
    ensures
        adding(b, text, by, space, now) == (
            b,
            Err::<TaskView, TaskErrorView>(TaskErrorView::Empty),
        ),
{
}

/// Past two thousand tasks, what is forgotten is the first that is finished.
pub proof fn law_the_oldest_finished_work_is_forgotten_first(ts: Seq<TaskView>, k: int)
    requires
        ts.len() == 2001,
        0 <= k < ts.len(),
        ts[k].state == TaskState::Done || ts[k].state == TaskState::Dropped,
        forall|j: int|
            0 <= j < k ==> (#[trigger] ts[j]).state == TaskState::Open || ts[j].state
                == TaskState::Claimed,
    ensures
        trimmed_to_cap(ts) == ts.remove(k),
{
    assert forall|j: int| 0 <= j < k implies !over()(#[trigger] ts[j]) by {}
    lemma_first_where_is(ts, over(), k);
    assert(ts.remove(k).len() == 2000);
    reveal_with_fuel(trimmed_to_cap, 2);
}

/// Clearing gives up on what is open, and on what is claimed only where that is asked; of the
/// project that is named and of none, or of all where none is named. The rest is as it was.
pub proof fn law_clearing_gives_up_on_what_was_asked(
    b: BoardView,
    space: Option<Seq<char>>,
    claimed_too: bool,
    now: u64,
    i: int,
)
    requires
        0 <= i < b.tasks.len(),
    ensures
        ({
            let after = b.put_all(cleared(space, claimed_too), drop_at(now));
            let (t, u) = (b.tasks[i], after.tasks[i]);
            let state = t.state == TaskState::Open || (claimed_too && t.state
                == TaskState::Claimed);
            let project = space is None || t.space is None || t.space == space;
            &&& after.tasks.len() == b.tasks.len()
            &&& same_work(u, t)
            &&& u.owner == t.owner
            &&& u.claimed_at == t.claimed_at
            &&& u.result == t.result
            &&& state && project ==> u.state == TaskState::Dropped && u.done_at == Some(now)
            &&& !(state && project) ==> u == t
        }),
{
}

/// A project is offered work exactly where a task of its own, not of none, has been open for a day
/// at most.
pub proof fn law_a_project_is_offered_its_own_work(b: BoardView, space: Seq<char>, now: u64)
    ensures
        offered_count(b, space, now) > 0 <==> exists|i: int|
            0 <= i < b.tasks.len() && (#[trigger] b.tasks[i]).state == TaskState::Open
                && b.tasks[i].space == Some(space) && now - b.tasks[i].created <= 86_400_000,
{
    let q = |t: TaskView| t.is_offered(space, now);
    if exists|i: int|
        0 <= i < b.tasks.len() && (#[trigger] b.tasks[i]).state == TaskState::Open
            && b.tasks[i].space == Some(space) && now - b.tasks[i].created <= 86_400_000 {
        let i = choose|i: int|
            0 <= i < b.tasks.len() && (#[trigger] b.tasks[i]).state == TaskState::Open
                && b.tasks[i].space == Some(space) && now - b.tasks[i].created <= 86_400_000;
        assert(q(b.tasks[i]));
        lemma_count_some(b.tasks, q, i);
    } else {
        assert forall|i: int| 0 <= i < b.tasks.len() implies !q(#[trigger] b.tasks[i]) by {}
        lemma_count_none(b.tasks, q);
    }
}

/// A new task of a project is one more that it is offered; and of no other.
pub proof fn law_new_work_is_offered(
    b: BoardView,
    text: Seq<char>,
    by: Seq<char>,
    space: Seq<char>,
    other: Seq<char>,
    now: u64,
)
    requires
        b.next_id < u64::MAX,
        trimmed(text).len() > 0,
        b.tasks.len() < 2000,
        other != space,
    ensures
        ({
            let after = adding(b, text, by, Some(space), now).0;
            &&& offered_count(after, space, now) == offered_count(b, space, now) + 1
            &&& offered_count(after, other, now) == offered_count(b, other, now)
        }),
{
    let (after, r) = adding(b, text, by, Some(space), now);
    law_new_work_goes_to_the_end(b, text, by, Some(space), now);
    assert(after.tasks.drop_last() =~= b.tasks);
}

/// The states go by their names.
pub proof fn law_states_have_their_words()
    ensures
        TaskState::Open.word_spec() == "open"@,
        TaskState::Claimed.word_spec() == "claimed"@,
        TaskState::Done.word_spec() == "done"@,
        TaskState::Dropped.word_spec() == "dropped"@,
        TaskState::Open.glyph_spec() == "○"@,
        TaskState::Claimed.glyph_spec() == "◐"@,
        TaskState::Done.glyph_spec() == "●"@,
        TaskState::Dropped.glyph_spec() == "✕"@,
{
}

/// What is not on the board cannot be claimed, finished or put back, and asking changes nothing.
pub proof fn law_what_is_not_there_is_refused(
    b: BoardView,
    owner: Seq<char>,
    id: u64,
    result: Option<Seq<char>>,
    space: Option<Seq<char>>,
    given_up: bool,
    now: u64,
)
    requires
        forall|i: int| 0 <= i < b.tasks.len() ==> (#[trigger] b.tasks[i]).id != id,
    ensures
        releasing(b, id, given_up, now) == (b, Err::<TaskView, _>(TaskErrorView::NoSuch(id))),
        finishing(b, owner, Some(id), result, now) == (
            b,
            Err::<TaskView, _>(TaskErrorView::NoSuch(id)),
        ),
        claiming(b, owner, Some(id), space, now) == (
            b,
            Err::<Option<TaskView>, _>(TaskErrorView::NoSuch(id)),
        ),
{
    let p = |t: TaskView| t.id == id;
    lemma_first_where(b.tasks, p);
    let k = b.find(id);
    if k < b.tasks.len() {
        assert(p(b.tasks[k]));
    }
}

/// Whoever holds nothing has nothing to finish.
pub proof fn law_whoever_holds_nothing_finishes_nothing(
    b: BoardView,
    owner: Seq<char>,
    result: Option<Seq<char>>,
    now: u64,
)
    requires
        forall|i: int|
            0 <= i < b.tasks.len() ==> !((#[trigger] b.tasks[i]).state == TaskState::Claimed
                && b.tasks[i].owner == Some(owner)),
    ensures
        finishing(b, owner, None, result, now) == (b, Err::<TaskView, _>(TaskErrorView::NoneHeld)),
{
    let k = held_by(b, owner);
    lemma_none_held(b, owner);
}

proof fn lemma_none_held(b: BoardView, owner: Seq<char>)
    requires
        forall|i: int|
            0 <= i < b.tasks.len() ==> !((#[trigger] b.tasks[i]).state == TaskState::Claimed
                && b.tasks[i].owner == Some(owner)),
    ensures
        held_by(b, owner) >= b.tasks.len(),
{
    let p = |t: TaskView| t.is_claimed() && t.owner == Some(owner);
    lemma_first_where(b.tasks, p);
    let k = crate::seqs::first_where(b.tasks, p);
    if k < b.tasks.len() {
        assert(p(b.tasks[k]));
    }
}

} // verus!
