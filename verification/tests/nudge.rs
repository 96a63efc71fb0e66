use horde::agent::{Activity, AgentClass, AgentRuntime};
use horde::clock::now_millis;
use horde::proto::{AgentState, Dir};
use horde::state::{Bars, Session};
use horde::tasks::{Board, STALE_AFTER};

const BARS: Bars = Bars { tab_bar: true, status_bar: true, pane_titles: true };

fn agent(name: &str, state: AgentState, since: u64) -> AgentRuntime {
    AgentRuntime {
        kind: "codex".into(),
        name: name.into(),
        class: AgentClass::Agent,
        state,
        since,
        authority: "hook".into(),
        reason: "t".into(),
        seen: false,
        session_id: None,
        queued: Vec::new(),
        question: None,
        activity: Activity::none(),
        touched: Vec::new(),
        nudged_since: None,
        alerted_since: None,
    }
}

/// A session of idle, enlisted agents, and a board.
struct Bench {
    session: Session,
    board: Board,
    /// Who each task is for, by its number. A task that is not here is for anybody.
    roles: Vec<(u64, String)>,
    task_nudge: bool,
}

impl Bench {
    fn with_idle_agents(n: usize) -> Bench {
        let now = now_millis();
        let mut session = Session::new(true, false, 24, 30);
        session.create_space(BARS, "cat", Some("main"), "/tmp").unwrap();
        let first = session.panes[0].id;
        let mut ids = vec![first];
        for _ in 1..n {
            ids.push(session.split(BARS, "cat", Some(first), Dir::Right, None, true).unwrap());
        }
        for (i, id) in ids.iter().enumerate() {
            let at = session.pane_index(*id);
            // Enlisted, because the nudge only ever speaks to volunteers.
            session.panes[at].life.board = true;
            // Staggered, so "idle longest" is well defined.
            let since = now - (60 - i as u64) * 1000;
            session.panes[at].life.agent =
                Some(agent(&format!("worker{i}"), AgentState::Idle, since));
        }
        Bench { session, board: Board::new(Vec::new()), roles: Vec::new(), task_nudge: true }
    }

    fn space(&self) -> String {
        self.session.spaces[0].name.clone()
    }

    fn add_task(&mut self, text: &str) {
        let space = self.space();
        self.board.add(text, "user", Some(&space)).unwrap();
    }

    fn add_task_for(&mut self, text: &str, role: &str) {
        let space = self.space();
        let t = self.board.add(text, "pm", Some(&space)).unwrap();
        self.roles.push((t.id, role.to_string()));
    }

    fn label(&mut self, worker: &str, role: &str) {
        let p = self
            .session
            .panes
            .iter_mut()
            .find(|p| p.life.agent.as_ref().is_some_and(|a| a.name == worker))
            .expect("that worker exists");
        p.life.role = Some(role.to_string());
    }

    fn agent(&mut self) -> &mut AgentRuntime {
        self.session.panes.iter_mut().find_map(|p| p.life.agent.as_mut()).unwrap()
    }

    /// Who was told, and what.
    fn nudge(&mut self) -> Vec<(String, String)> {
        self.session
            .nudge_for_tasks(&self.board, true, self.task_nudge, &self.roles, now_millis())
            .into_iter()
            .map(|n| (n.name, n.body))
            .collect()
    }
}

#[test]
fn an_idle_agent_is_told_when_the_board_has_work() {
    let mut b = Bench::with_idle_agents(1);
    b.add_task("write the tests");
    let sent = b.nudge();
    assert_eq!(sent.len(), 1, "{sent:?}");
    assert_eq!(sent[0].0, "worker0");
    assert!(sent[0].1.contains("horde task claim"), "it must name the command: {sent:?}");
}

#[test]
fn role_tagged_work_wakes_the_role_it_names() {
    let mut b = Bench::with_idle_agents(2);
    b.label("worker0", "builder");
    b.label("worker1", "reader");
    b.add_task_for("review the diff", "reader");

    let sent = b.nudge();
    assert_eq!(sent.len(), 1, "{sent:?}");
    assert_eq!(sent[0].0, "worker1", "the one it is for, not whoever was idle longest");
    assert!(sent[0].1.contains("for reader"), "and it says whose work it is: {sent:?}");
}

#[test]
fn an_agent_is_never_woken_for_work_its_role_cannot_take() {
    let mut b = Bench::with_idle_agents(1);
    b.label("worker0", "builder");
    b.add_task_for("review the diff", "reader");

    for _ in 0..3 {
        assert!(b.nudge().is_empty(), "a builder must not be woken for another role's task");
    }
    // And the work is visibly stuck rather than quietly waiting.
    let space = b.space();
    let present = b.session.roles_enlisted_in(&space);
    assert_eq!(present, ["builder"], "{present:?}");
    assert_eq!(b.board.offered_to(&space), 1);
}

#[test]
fn general_work_prefers_an_unlabelled_agent_over_a_specialist() {
    let mut b = Bench::with_idle_agents(2);
    // worker0 has been idle longest and is the specialist, so "longest idle" alone would pick
    // it. The role is what makes worker1 the right answer.
    b.label("worker0", "reader");
    b.add_task("anything");

    let sent = b.nudge();
    assert_eq!(sent.len(), 1, "{sent:?}");
    assert_eq!(sent[0].0, "worker1", "the unlabelled one: {sent:?}");
}

#[test]
fn the_wake_cap_counts_each_roles_work_separately() {
    let mut b = Bench::with_idle_agents(2);
    b.label("worker0", "reader");
    b.label("worker1", "builder");
    b.add_task_for("review one", "reader");
    b.add_task_for("review two", "reader");

    let sent = b.nudge();
    assert_eq!(sent.len(), 1, "two tasks for one agent: {sent:?}");
    assert_eq!(sent[0].0, "worker0");
    // The builder stays asleep however many of the other's tasks pile up.
    b.add_task_for("review three", "reader");
    assert!(b.nudge().is_empty(), "not the builder's work");

    // Its own work still reaches it, unblocked by the other's backlog.
    b.add_task_for("build one", "builder");
    let sent = b.nudge();
    assert_eq!(sent.len(), 1, "{sent:?}");
    assert_eq!(sent[0].0, "worker1");
}

#[test]
fn a_burst_of_tasks_produces_one_nudge_not_one_each() {
    let mut b = Bench::with_idle_agents(1);
    for i in 0..10 {
        b.add_task(&format!("job {i}"));
    }
    let first = b.nudge();
    assert_eq!(first.len(), 1);
    // Repeated passes while it stays idle add nothing.
    for _ in 0..5 {
        assert!(b.nudge().is_empty());
    }
}

#[test]
fn only_one_agent_is_woken_per_pass() {
    let mut b = Bench::with_idle_agents(3);
    b.add_task("single job");
    let sent = b.nudge();
    assert_eq!(sent.len(), 1, "one task, one agent: {sent:?}");
    // The one idle longest is the most available.
    assert_eq!(sent[0].0, "worker0");
}

#[test]
fn work_in_one_project_is_never_offered_to_an_agent_in_another() {
    let mut b = Bench::with_idle_agents(1);
    // A second project, with an enlisted idle agent of its own.
    let other = b.session.create_space(BARS, "cat", Some("elsewhere"), "/tmp").unwrap();
    let p = b.session.panes.iter_mut().find(|p| p.space == other).unwrap();
    p.life.board = true;
    p.life.agent = Some(agent("stranger", AgentState::Idle, now_millis() - 600_000));

    // Work for the *first* project only. `stranger` has been idle ten times longer, so "whoever
    // is idle longest" would have picked it outright.
    b.add_task("port the parser");
    let sent = b.nudge();
    assert_eq!(sent.len(), 1, "{sent:?}");
    assert_eq!(sent[0].0, "worker0", "the other project's agent must not be touched");
}

#[test]
fn an_agent_that_never_enlisted_is_left_alone() {
    let mut b = Bench::with_idle_agents(2);
    // worker1 resigns; worker0 stays enlisted.
    for p in b.session.panes.iter_mut() {
        if p.life.agent.as_ref().is_some_and(|a| a.name == "worker1") {
            p.life.board = false;
        }
    }
    b.add_task("one");
    b.add_task("two");
    b.add_task("three");
    let sent = b.nudge();
    assert_eq!(sent.len(), 1, "only the volunteer: {sent:?}");
    assert_eq!(sent[0].0, "worker0");
}

#[test]
fn a_task_old_enough_to_be_forgotten_stops_being_offered() {
    let mut b = Bench::with_idle_agents(1);
    let space = b.space();
    b.board.add("from last week", "user", Some(&space)).unwrap();
    // Wind it back past the threshold.
    let id = b.board.all()[0].id;
    b.board.backdate_for_test(id, STALE_AFTER + 60_000);

    assert_eq!(b.board.offered_to(&space), 0, "stale work is not offered");
    assert!(b.nudge().is_empty());
    // Still on the board, still readable, still claimable by name. Stale is not deleted.
    assert_eq!(b.board.open_count(), 1);
    assert!(b.board.claim("worker0", Some(id), Some(&space)).unwrap().is_some());
}

#[test]
fn one_task_wakes_one_agent_even_across_many_passes() {
    let mut b = Bench::with_idle_agents(4);
    b.add_task("the only job");
    let mut total = 0;
    for _ in 0..10 {
        total += b.nudge().len();
    }
    assert_eq!(total, 1, "one task must not wake four agents");
}

#[test]
fn enough_tasks_for_everyone_wakes_everyone() {
    let mut b = Bench::with_idle_agents(3);
    for i in 0..5 {
        b.add_task(&format!("job {i}"));
    }
    let mut told: Vec<String> = Vec::new();
    for _ in 0..10 {
        for (to, _) in b.nudge() {
            told.push(to);
        }
    }
    told.sort();
    told.dedup();
    assert_eq!(told.len(), 3, "five jobs, three agents: all three should work: {told:?}");
}

#[test]
fn an_agent_with_an_unread_result_is_not_reassigned() {
    let mut b = Bench::with_idle_agents(1);
    b.agent().state = AgentState::Done;
    b.add_task("job");
    assert!(b.nudge().is_empty());
}

#[test]
fn a_board_worker_that_finished_while_unfocused_is_given_more() {
    let mut b = Bench::with_idle_agents(1);
    b.add_task("first");
    b.add_task("second");
    b.board.claim("worker0", Some(1), None).unwrap();
    b.board.done("worker0", Some(1), Some("finished")).unwrap();

    // It finished unfocused, so detection calls that `done`.
    let now = now_millis();
    b.agent().state = AgentState::Done;
    b.agent().since = now;
    let sent = b.nudge();
    assert_eq!(sent.len(), 1, "the remaining task should reach it: {sent:?}");
}

#[test]
fn an_agent_already_holding_a_task_is_left_to_it() {
    let mut b = Bench::with_idle_agents(1);
    b.add_task("job one");
    b.add_task("job two");
    b.board.claim("worker0", Some(1), None).unwrap();
    assert!(b.nudge().is_empty(), "it has work; a second task can wait for someone free");
}

#[test]
fn an_empty_board_nudges_nobody() {
    let mut b = Bench::with_idle_agents(2);
    assert!(b.nudge().is_empty());
}

#[test]
fn nudging_can_be_turned_off() {
    let mut b = Bench::with_idle_agents(1);
    b.task_nudge = false;
    b.add_task("job");
    assert!(b.nudge().is_empty());
}

#[test]
fn a_new_idle_period_earns_a_fresh_nudge() {
    let mut b = Bench::with_idle_agents(1);
    b.add_task("job one");
    b.add_task("job two");
    assert_eq!(b.nudge().len(), 1);

    // It worked and came back to idle: `since` moves, so it is eligible again.
    let now = now_millis();
    b.agent().since = now;
    b.agent().queued.clear();
    assert_eq!(b.nudge().len(), 1, "a second idle period should be told about the remaining work");
}

#[test]
fn a_board_that_is_turned_off_wakes_nobody() {
    let mut b = Bench::with_idle_agents(1);
    b.add_task("write the tests");
    let told = b.session.nudge_for_tasks(&b.board, false, true, &b.roles, now_millis());
    assert!(told.is_empty());
    assert_eq!(b.nudge().len(), 1, "and nothing was spent by asking");
}

#[test]
fn work_of_another_project_wakes_nobody_here() {
    let mut b = Bench::with_idle_agents(1);
    b.board.add("not theirs", "user", Some("elsewhere")).unwrap();
    assert!(b.nudge().is_empty());
    b.add_task("theirs");
    assert_eq!(b.nudge().len(), 1);
}
