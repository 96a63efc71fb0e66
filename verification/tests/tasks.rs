use horde::clock::now_millis;
use horde::tasks::{replay, Board, Task, TaskError, TaskState, STALE_AFTER};

fn board() -> Board {
    Board::new(Vec::new())
}

#[test]
fn a_task_is_only_ever_offered_to_its_own_project() {
    let mut b = board();
    b.add("api work", "user", Some("api")).unwrap();
    b.add("docs work", "user", Some("docs")).unwrap();
    assert_eq!(b.offered_to("api"), 1);
    assert_eq!(b.offered_to("docs"), 1);
    assert_eq!(b.offered_to("something-else"), 0);
    // And an unnamed claim takes only its own project's.
    let got = b.claim("worker", None, Some("docs")).unwrap().unwrap();
    assert_eq!(got.text, "docs work");
}

#[test]
fn an_unscoped_task_is_claimable_but_never_offered() {
    let mut b = board();
    b.add("from before", "user", None).unwrap();
    assert_eq!(b.offered_to("anywhere"), 0);
    assert!(b.claim("worker", None, Some("anywhere")).unwrap().is_some());
}

#[test]
fn clearing_everywhere_really_does_clear_everywhere() {
    let mut b = board();
    b.add("a", "user", Some("api")).unwrap();
    b.add("b", "user", Some("docs")).unwrap();
    b.add("c", "user", None).unwrap();
    assert_eq!(b.clear(None, false).len(), 3);
    assert_eq!(b.open_count(), 0);
}

#[test]
fn clearing_one_project_leaves_the_others_alone() {
    let mut b = board();
    b.add("a", "user", Some("api")).unwrap();
    b.add("b", "user", Some("docs")).unwrap();
    assert_eq!(b.clear(Some("api"), false).len(), 1);
    assert_eq!(b.offered_to("docs"), 1);
    assert_eq!(b.open_count(), 1);
}

#[test]
fn clearing_leaves_claimed_work_alone_unless_asked() {
    let mut b = board();
    b.add("a", "user", Some("api")).unwrap();
    b.claim("worker", None, Some("api")).unwrap();
    assert_eq!(b.clear(Some("api"), false).len(), 0);
    assert_eq!(b.clear(Some("api"), true).len(), 1);
}

#[test]
fn tasks_are_added_open_and_numbered() {
    let mut b = board();
    let a = b.add("write the tests", "user", None).unwrap();
    let c = b.add("review the diff", "builder", None).unwrap();
    assert_eq!((a.id, c.id), (1, 2));
    assert!(a.is_open());
    assert_eq!(c.by, "builder");
    assert_eq!(b.open_count(), 2);
    assert!(b.add("   ", "user", None).is_err(), "an empty task is not a task");
}

#[test]
fn claiming_takes_the_oldest_open_task() {
    let mut b = board();
    b.add("first", "user", None).unwrap();
    b.add("second", "user", None).unwrap();
    let got = b.claim("worker", None, None).unwrap().unwrap();
    assert_eq!(got.text, "first");
    assert_eq!(got.owner.as_deref(), Some("worker"));
    assert_eq!(b.open_count(), 1);
    assert_eq!(b.claimed_count(), 1);
}

#[test]
fn a_task_cannot_be_claimed_twice() {
    let mut b = board();
    b.add("only one", "user", None).unwrap();
    let first = b.claim("a", Some(1), None).unwrap().unwrap();
    assert_eq!(first.owner.as_deref(), Some("a"));

    let err = b.claim("b", Some(1), None).unwrap_err().message();
    assert!(err.contains("already"), "{err}");
    assert!(err.contains("by a"), "the error should name the holder: {err}");

    // And a blind claim finds nothing rather than stealing it.
    assert!(b.claim("b", None, None).unwrap().is_none());
}

#[test]
fn an_empty_board_reports_nothing_to_do_rather_than_an_error() {
    // An agent looping on the board has to tell "empty" from "broken".
    let mut b = board();
    assert!(b.claim("worker", None, None).unwrap().is_none());
}

#[test]
fn finishing_defaults_to_your_own_claimed_task() {
    let mut b = board();
    b.add("x", "user", None).unwrap();
    b.add("y", "user", None).unwrap();
    b.claim("worker", None, None).unwrap();
    let done = b.done("worker", None, Some("all green")).unwrap();
    assert_eq!(done.id, 1);
    assert_eq!(done.state, TaskState::Done);
    assert_eq!(done.result.as_deref(), Some("all green"));

    // With nothing claimed, it says so instead of guessing.
    let err = b.done("someone-else", None, None).unwrap_err().message();
    assert!(err.contains("no claimed task"), "{err}");
}

#[test]
fn releasing_returns_a_task_to_the_board_and_dropping_retires_it() {
    let mut b = board();
    b.add("x", "user", None).unwrap();
    b.claim("worker", None, None).unwrap();
    let back = b.release(1, false).unwrap();
    assert!(back.is_open());
    assert!(back.owner.is_none());

    b.claim("worker", None, None).unwrap();
    let dropped = b.release(1, true).unwrap();
    assert_eq!(dropped.state, TaskState::Dropped);
    assert_eq!(b.open_count(), 0, "a dropped task is not back on the board");
}

#[test]
fn tasks_held_by_a_departed_agent_return_to_the_board() {
    let mut b = board();
    b.add("held", "user", None).unwrap();
    b.add("also held", "user", None).unwrap();
    b.claim("gone", Some(1), None).unwrap();
    b.claim("still-here", Some(2), None).unwrap();

    let released = b.reclaim_absent(&["still-here".to_string()]);
    assert_eq!(released.len(), 1);
    assert_eq!(released[0].id, 1);
    assert!(b.get(1).unwrap().is_open());
    assert_eq!(b.get(2).unwrap().state, TaskState::Claimed, "others are untouched");
}

#[test]
fn a_task_the_user_claimed_is_never_reclaimed() {
    let mut b = board();
    b.add("mine", "user", None).unwrap();
    b.claim("user", Some(1), None).unwrap();
    assert!(b.reclaim_absent(&[]).is_empty());
    assert_eq!(b.get(1).unwrap().state, TaskState::Claimed);
}

#[test]
fn the_board_survives_a_restart() {
    // What the board hands out to be written is its log; a restart reads that log back.
    let mut log: Vec<Task> = Vec::new();
    {
        let mut b = board();
        b.add("first", "user", None).unwrap();
        b.add("second", "user", None).unwrap();
        log.extend(b.take_unwritten());
        b.claim("worker", None, None).unwrap();
        b.done("worker", None, Some("finished")).unwrap();
        log.extend(b.take_unwritten());
        assert!(b.take_unwritten().is_empty(), "nothing is written twice");
    }
    assert_eq!(log.len(), 4, "every change is one entry");
    let b = Board::new(log.clone());
    assert_eq!(b.all().len(), 2);
    assert_eq!(b.get(1).unwrap().state, TaskState::Done);
    assert_eq!(b.get(1).unwrap().result.as_deref(), Some("finished"));
    assert_eq!(b.get(2).unwrap().state, TaskState::Open);
    // Ids do not restart, so a replayed log cannot collide with new work.
    let mut b = Board::new(log);
    assert_eq!(b.add("third", "user", None).unwrap().id, 3);
}

#[test]
fn rotating_the_log_keeps_open_tasks_and_finished_results() {
    let carried: Vec<Task> = {
        let mut b = board();
        b.add("still open", "user", None).unwrap();
        b.add("will finish", "user", None).unwrap();
        b.claim("worker", Some(2), None).unwrap();
        b.done("worker", Some(2), Some("all green")).unwrap();
        for i in 0..300 {
            b.add(&format!("filler {i}"), "user", None).unwrap();
        }
        // A rotated log starts from the live set alone.
        b.all().to_vec()
    };

    // Reopen: the board must look exactly as it did.
    let before = carried.clone();
    let b = Board::new(carried);
    let open = b.get(1).expect("the open task survived rotation");
    assert!(open.is_open());
    assert_eq!(open.text, "still open");
    let done = b.get(2).expect("the finished task survived rotation");
    assert_eq!(done.state, TaskState::Done);
    assert_eq!(done.result.as_deref(), Some("all green"), "its result too");
    assert_eq!(b.all().to_vec(), before, "every task as it was");
    // And ids do not restart, which would collide with the archived history.
    assert!(b.next_id > 300);
}

#[test]
fn replaying_keeps_the_last_word_on_each_task_in_order_of_number() {
    let mut b = board();
    b.add("one", "user", None).unwrap();
    b.add("two", "user", None).unwrap();
    let (one, two) = (b.get(1).unwrap().clone(), b.get(2).unwrap().clone());
    let mut later = one.clone();
    later.text = "one, reworded".into();
    let out = replay(vec![two.clone(), one, later.clone()]);
    assert_eq!(out, vec![later, two]);
}

#[test]
fn each_refusal_of_the_board_says_why() {
    let mut b = board();
    assert_eq!(b.add("\t ", "user", None), Err(TaskError::Empty));
    assert_eq!(b.claim("w", Some(7), None), Err(TaskError::NoSuch(7)));
    assert_eq!(b.done("w", Some(7), None), Err(TaskError::NoSuch(7)));
    assert_eq!(b.release(7, false), Err(TaskError::NoSuch(7)));
    assert_eq!(b.done("w", None, None), Err(TaskError::NoneHeld));
    b.add("x", "user", None).unwrap();
    b.claim("a", None, None).unwrap();
    assert_eq!(
        b.claim("b", Some(1), None),
        Err(TaskError::Taken { id: 1, state: TaskState::Claimed, owner: Some("a".into()) })
    );
}

#[test]
fn a_task_goes_stale_only_once_the_limit_has_passed() {
    let mut b = board();
    let now = now_millis();
    b.add_at("old", "user", Some("api"), now).unwrap();
    assert_eq!(b.offered_to_at("api", now), 1);
    assert_eq!(b.offered_to_at("api", now + STALE_AFTER), 1);
    assert_eq!(b.offered_to_at("api", now + STALE_AFTER + 1), 0);
    assert_eq!(b.open_count(), 1, "stale is not deleted");
}
