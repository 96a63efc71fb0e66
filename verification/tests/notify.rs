use horde::agent::{Activity, AgentClass, AgentRuntime};
use horde::clock::now_millis;
use horde::engine::Engine;
use horde::journal::{Happening, Journal};
use horde::notify::{claim_slot, reasons, AlertClock, Reason, COALESCE, SETTLED};
use horde::proto::{AgentState, Dir};
use horde::recents::Recents;
use horde::state::{Bars, Session};
use horde::tasks::Board;
use horde::triggers::Store;

const BARS: Bars = Bars { tab_bar: true, status_bar: true, pane_titles: true };

fn agent(name: &str, state: AgentState, since: u64) -> AgentRuntime {
    AgentRuntime {
        kind: "codex".into(),
        name: name.into(),
        class: AgentClass::Agent,
        state,
        since,
        authority: "hook".into(),
        reason: "t".into(),
        seen: false,
        session_id: None,
        queued: Vec::new(),
        question: None,
        activity: Activity::none(),
        touched: Vec::new(),
        nudged_since: None,
        alerted_since: None,
    }
}

/// Agents, a board, and a clock that remembers when it last reached out.
struct Bench {
    session: Session,
    board: Board,
    clock: AlertClock,
    attached: bool,
    reaches_out: bool,
    journal: Journal,
}

impl Bench {
    fn new(n: usize) -> Bench {
        let mut session = Session::new(true, false, 24, 30);
        session.create_space(BARS, "cat", Some("main"), "/tmp").unwrap();
        for _ in 1..n {
            session.split(BARS, "cat", None, Dir::Right, None, true).unwrap();
        }
        let now = now_millis();
        for (i, p) in session.panes.iter_mut().enumerate() {
            p.life.agent = Some(agent(&format!("worker{i}"), AgentState::Idle, now - 60_000));
        }
        Bench {
            session,
            board: Board::new(Vec::new()),
            clock: AlertClock { started: now - 3_600_000, last_alert: 0 },
            attached: false,
            reaches_out: true,
            journal: Journal::new(),
        }
    }

    /// Put an agent into a state, `secs` ago.
    fn set_state(&mut self, i: usize, state: AgentState, secs: u64) {
        let a = self.session.panes[i].life.agent.as_mut().unwrap();
        a.state = state;
        a.since = now_millis() - secs * 1000;
    }

    /// One pass: whether an alert goes out, and from when it reports.
    fn prepare(&mut self, have_sink: bool) -> Option<u64> {
        let now = now_millis();
        let since = self.clock.prepare(
            self.attached,
            self.reaches_out,
            have_sink,
            &self.session,
            &self.board,
            now,
        )?;
        let headline = "1 needs you";
        self.clock.sent(&mut self.session, &self.board, &mut self.journal, headline, now);
        Some(since)
    }

    /// How many alerts the journal tells of.
    fn sent(&self) -> usize {
        self.journal.entries.iter().filter(|e| matches!(e.what, Happening::Notified(_))).count()
    }

    fn open_the_window(&mut self) {
        self.clock.last_alert = now_millis() - COALESCE - 1;
    }
}

#[test]
fn a_blocked_agent_is_worth_a_notification_once_it_has_waited() {
    let mut b = Bench::new(1);
    b.set_state(0, AgentState::Blocked, 90);
    let since = b.prepare(true).expect("a stuck agent with nobody watching is the case");
    assert_eq!(since, b.clock.started, "the first alert reports on everything since the start");
    assert_eq!(b.sent(), 1, "and the record says it was sent");
}

#[test]
fn a_state_only_just_entered_is_not_yet_news() {
    let mut b = Bench::new(1);
    b.set_state(0, AgentState::Blocked, 5);
    assert!(b.prepare(true).is_none());
    assert_eq!(b.sent(), 0);
}

#[test]
fn nothing_is_sent_while_a_client_is_attached() {
    let mut b = Bench::new(1);
    b.set_state(0, AgentState::Blocked, 90);
    b.attached = true;
    assert!(b.prepare(true).is_none(), "the toast already said this");
}

#[test]
fn notifications_can_be_turned_off() {
    let mut b = Bench::new(1);
    b.set_state(0, AgentState::Blocked, 90);
    b.reaches_out = false;
    assert!(b.prepare(true).is_none());
    // And with delivery on but nothing configured to deliver through.
    b.reaches_out = true;
    assert!(b.prepare(false).is_none());
}

#[test]
fn one_wait_earns_exactly_one_notification() {
    let mut b = Bench::new(1);
    b.set_state(0, AgentState::Blocked, 90);
    assert!(b.prepare(true).is_some());

    // Same agent, same wait, and now well past the quiet window: still nothing.
    b.open_the_window();
    assert!(b.prepare(true).is_none(), "an agent stuck an hour is not news twice");
    assert_eq!(b.sent(), 1);
}

#[test]
fn a_fresh_wait_earns_a_fresh_notification() {
    let mut b = Bench::new(1);
    b.set_state(0, AgentState::Blocked, 90);
    assert!(b.prepare(true).is_some());

    b.open_the_window();
    b.set_state(0, AgentState::Working, 10);
    b.set_state(0, AgentState::Blocked, 89);
    assert!(b.prepare(true).is_some(), "a new wait is a new fact");
    assert_eq!(b.sent(), 2);
}

#[test]
fn a_second_alert_waits_for_the_quiet_window() {
    let mut b = Bench::new(2);
    b.set_state(0, AgentState::Blocked, 90);
    assert!(b.prepare(true).is_some());

    // A different agent, so the reason is genuinely new — but the window is shut.
    b.set_state(1, AgentState::Blocked, 90);
    assert!(b.prepare(true).is_none(), "one ping per window, whatever happened");

    // Suppressed, not spent: once the window opens it is still there to report.
    b.open_the_window();
    assert!(b.prepare(true).is_some());
}

#[test]
fn an_emptied_board_is_reported_and_an_always_empty_one_is_not() {
    let mut b = Bench::new(1);
    assert!(b.prepare(true).is_none(), "nothing has happened yet");

    b.board.add("port the parser", "user", None).unwrap();
    b.board.claim("worker0", None, None).unwrap();
    b.board.done("worker0", None, Some("done, 18 tests")).unwrap();
    assert!(b.prepare(true).is_some(), "the fleet finishing is worth knowing");

    // And it does not repeat, because the window has moved past the task that closed.
    let (since, now) = (b.clock.last_alert, now_millis());
    assert!(
        reasons(&b.session, &b.board, since, now).is_empty(),
        "an emptied board is not an event twice"
    );
}

#[test]
fn each_reason_names_the_wait_it_is_about() {
    let mut b = Bench::new(1);
    let now = now_millis();
    let a = b.session.panes[0].life.agent.as_mut().unwrap();
    a.state = AgentState::Done;
    a.since = now - SETTLED;
    let pane = b.session.panes[0].id;
    assert_eq!(
        reasons(&b.session, &b.board, 0, now),
        vec![Reason::Attention { pane, since: now - SETTLED }]
    );
    assert!(reasons(&b.session, &b.board, 0, now - 1).is_empty(), "a moment earlier it was not");
}

#[test]
fn one_delivery_runs_at_a_time() {
    let mut busy = false;
    assert!(claim_slot(&mut busy));
    assert!(!claim_slot(&mut busy));
}

/// Being told is not the same as having looked.
#[test]
fn alerting_does_not_consume_the_digest_you_have_not_read() {
    let mut b = Bench::new(1);
    b.set_state(0, AgentState::Blocked, 90);
    let mut e = Engine::new(
        b.session,
        b.board,
        Store::new(Vec::new()),
        Recents { list: Vec::new() },
        1_000,
    );
    let mut clock = b.clock;
    let before = e.last_seen;
    let now = now_millis();
    assert!(clock.prepare(false, true, true, &e.session, &e.board, now).is_some());
    let mut journal = Journal::new();
    clock.sent(&mut e.session, &e.board, &mut journal, "1 needs you", now);
    assert_eq!(e.last_seen, before, "the digest window is the human's, not the notifier's");
}
