use horde::agent::{Activity, AgentClass, AgentRuntime};
use horde::broadcast::Mirror;
use horde::cards::{board_project, due_until, hand_over, Card, HandOverError};
use horde::commands::{Cmd, Facts, Level};
use horde::engine::{Around, ClientFrame, Engine, Event, Step, RESIZE_SETTLE};
use horde::journal::{Happening, Journal, Recorded};
use horde::pane::{CursorPos, Rgb, Row, Run, Screen};
use horde::proto::{AgentState, Dir, Rect};
use horde::recents::{Recents, MAX_RECENTS};
use horde::servers::{ServerState, Serving};
use horde::state::{Bars, Session};
use horde::tasks::Board;
use horde::triggers::Store;

const BARS: Bars = Bars { tab_bar: true, status_bar: true, pane_titles: true };
const SHELL: &str = "cat";

fn engine() -> Engine {
    let mut s = Session::new(true, false, 24, 30);
    s.create_space(BARS, SHELL, Some("main"), "/tmp").unwrap();
    let mut eng = Engine::new(
        s,
        Board::new(Vec::new()),
        Store::new(Vec::new()),
        Recents { list: Vec::new() },
        1_000,
    );
    eng.events.clear();
    eng
}

fn facts(is_dir: bool) -> Facts {
    Facts {
        fits: true,
        neighbour: None,
        reshaped: None,
        preset: None,
        is_dir,
        here: "/home/me".into(),
        accents: 8,
    }
}

fn apply_cmd(eng: &mut Engine, cmd: Cmd, is_dir: bool) {
    eng.apply_cmd(BARS, SHELL, &cmd, facts(is_dir));
}

fn first_pane(eng: &Engine) -> u64 {
    eng.session.panes[0].id
}

/// Give the one pane of a tab the whole room.
fn place(eng: &mut Engine) {
    let tiles = vec![(first_pane(eng), eng.session.chrome.panes)];
    eng.session.place(BARS, &tiles);
}

/// No cards, no vaults and no language servers.
fn nothing_around() -> Around {
    Around { cards: Vec::new(), roots: Vec::new(), vaults: Vec::new(), serving: Vec::new() }
}

fn size_of(eng: &Engine, pane: u64) -> (u16, u16) {
    let p = eng.session.pane(pane).unwrap();
    (p.life.cols, p.life.rows)
}

fn agent(name: &str, state: AgentState, since: u64, authority: &str) -> AgentRuntime {
    AgentRuntime {
        kind: "codex".into(),
        name: name.into(),
        class: AgentClass::Agent,
        state,
        since,
        authority: authority.into(),
        reason: "t".into(),
        seen: false,
        session_id: None,
        queued: Vec::new(),
        question: None,
        activity: Activity::none(),
        touched: Vec::new(),
        nudged_since: None,
        alerted_since: None,
    }
}

// -- recent projects ----------------------------------------------------------

#[test]
fn reopening_a_project_moves_it_up_rather_than_listing_it_twice() {
    let mut eng = engine();
    eng.recents.remember_project("alpha", "/tmp/alpha");
    eng.recents.remember_project("beta", "/tmp/beta");
    eng.recents.remember_project("renamed-alpha", "/tmp/alpha");

    let cwds: Vec<&str> = eng.recents.list.iter().map(|r| r.cwd.as_str()).collect();
    assert_eq!(cwds, vec!["/tmp/alpha", "/tmp/beta"], "one entry each, newest first");
    assert_eq!(eng.recents.list[0].name, "renamed-alpha", "and it carries the current name");
}

#[test]
fn the_recents_list_is_capped() {
    let mut eng = engine();
    for i in 0..(MAX_RECENTS + 5) {
        eng.recents.remember_project(&format!("p{i}"), &format!("/tmp/p{i}"));
    }
    assert_eq!(eng.recents.list.len(), MAX_RECENTS);
    assert_eq!(eng.recents.list[0].name, format!("p{}", MAX_RECENTS + 4), "newest first");
}

#[test]
fn opening_a_project_that_is_already_open_focuses_it_instead_of_duplicating_it() {
    let mut eng = engine();
    let dir = "/tmp/horde-open";
    let first = eng.session.create_space(BARS, SHELL, Some("already-here"), dir).unwrap();
    let before = eng.session.spaces.len();
    eng.session.create_space(BARS, SHELL, Some("elsewhere"), "/tmp/elsewhere").unwrap();

    apply_cmd(&mut eng, Cmd::OpenProject { cwd: dir.to_string() }, true);

    assert_eq!(eng.session.spaces.len(), before + 1, "no second space");
    assert_eq!(eng.session.focused_space, Some(first), "and it went there");
}

#[test]
fn opening_a_project_that_no_longer_exists_warns_instead_of_guessing() {
    let mut eng = engine();
    let before = eng.session.spaces.len();
    apply_cmd(&mut eng, Cmd::OpenProject { cwd: "/tmp/horde-definitely-not-here".into() }, false);
    assert_eq!(eng.session.spaces.len(), before, "nothing opened");
    assert!(
        eng.events.iter().any(|e| matches!(e, Event::Notice { .. })),
        "and it said why"
    );
}

#[test]
fn a_new_project_opens_under_its_own_name() {
    let mut eng = engine();
    apply_cmd(&mut eng, Cmd::OpenProject { cwd: "/src/api".into() }, true);
    let s = eng.session.focused_space.and_then(|id| eng.session.space(id)).unwrap();
    assert_eq!((s.name.as_str(), s.cwd.as_str()), ("api", "/src/api"));
    let listed = {
        eng.note_focused_project(77);
        eng.recents.recent_projects(&eng.session)
    };
    assert_eq!(listed[0].cwd, "/src/api");
    assert!(listed[0].live, "it is on screen right now");
}

// -- windows ------------------------------------------------------------------

#[test]
fn closing_the_smaller_window_hands_the_larger_one_its_size_back() {
    let mut eng = engine();
    let pane = first_pane(&eng);

    eng.attach(BARS, 1, 200, 60, None, 10);
    place(&mut eng);
    let (wide, tall) = size_of(&eng, pane);

    // A second, smaller window opens. It wins while it is there: anything wider than it is
    // content it can only see part of.
    eng.attach(BARS, 2, 80, 24, None, 20);
    place(&mut eng);
    assert!(size_of(&eng, pane).0 < wide, "the smaller window has to win while it is open");

    // And it gives the size back on the way out.
    eng.detach(BARS, 2, 30);
    place(&mut eng);
    assert_eq!(
        size_of(&eng, pane),
        (wide, tall),
        "the pty is still shaped for the window that closed"
    );
}

#[test]
fn the_last_window_to_close_leaves_its_size_behind() {
    let mut eng = engine();
    eng.attach(BARS, 1, 100, 30, None, 10);
    eng.detach(BARS, 1, 20);
    assert_eq!((eng.session.client_cols, eng.session.client_rows), (100, 30));
    assert!(eng.clients.is_empty());
}

#[test]
fn a_window_that_is_too_small_is_treated_as_the_smallest_that_works() {
    let mut eng = engine();
    eng.attach(BARS, 1, 5, 2, None, 10);
    assert_eq!((eng.session.client_cols, eng.session.client_rows), (20, 6));
}

#[test]
fn a_resize_is_followed_by_a_redraw_once_it_has_settled() {
    let mut eng = engine();
    eng.attach(BARS, 1, 100, 30, None, 0);
    eng.resize_client(BARS, 1, 90, 28, 1_000);
    eng.session.effects.clear();
    eng.settle_resize(1_000 + RESIZE_SETTLE - 1);
    assert!(eng.session.effects.is_empty(), "still being dragged");
    eng.settle_resize(1_000 + RESIZE_SETTLE);
    assert!(!eng.session.effects.is_empty(), "now every program is made to repaint");
    assert_eq!(eng.settling, None);
}

// -- sending out ----------------------------------------------------------------

fn screen(text: &str) -> Screen {
    let mut s = Screen::new(2);
    let row = Row {
        runs: vec![Run {
            text: text.into(),
            fg: Rgb { r: 1, g: 2, b: 3 },
            bg: Rgb { r: 0, g: 0, b: 0 },
            attrs: 0,
        }],
    };
    s.take_row(0, row);
    s
}

fn at(x: u16) -> CursorPos {
    CursorPos { x, y: 0, visible: true }
}

#[test]
fn a_keystroke_that_changes_no_text_still_moves_the_cursor() {
    let mut eng = engine();
    let pane = first_pane(&eng);
    eng.attach(BARS, 1, 120, 40, None, 0);
    eng.session.focus_pane(pane);
    let mut ms = vec![Mirror { pane, screen: screen("a"), cursor: at(1), sent: None }];

    // A visible character first: it gets the client a cursor to be wrong about.
    let out = eng.broadcast(&mut ms, &Vec::new());
    let whole = &out.deliveries[0].whole[0];
    assert_eq!((whole.pane, whole.cursor.x), (pane, 1));
    assert_eq!(whole.rows.iter().map(|u| u.y).collect::<Vec<_>>(), vec![0, 1], "every row");
    assert_eq!(whole.rows[0].row.runs[0].text, "a", "as it is on the screen");

    // Now the space: no row changed, only the cursor did.
    ms[0].cursor = at(2);
    let out = eng.broadcast(&mut ms, &Vec::new());
    let changed = &out.deliveries[0].changed;
    assert_eq!(
        changed.iter().map(|c| (c.pane, c.cursor.x)).collect::<Vec<_>>(),
        vec![(pane, 2)],
        "the terminal moved the cursor to column 2 but the client was never told"
    );

    // And with nothing new there is nothing to say.
    let out = eng.broadcast(&mut ms, &Vec::new());
    assert!(out.deliveries.iter().all(|d| d.changed.is_empty() && d.whole.is_empty()));
}

#[test]
fn a_pane_is_sent_whole_once_and_then_only_in_part() {
    let mut eng = engine();
    let pane = first_pane(&eng);
    eng.attach(BARS, 1, 120, 40, None, 0);
    let mut ms = vec![Mirror { pane, screen: screen("a"), cursor: at(0), sent: None }];
    let out = eng.broadcast(&mut ms, &Vec::new());
    assert_eq!(out.deliveries[0].whole.len(), 1);
    assert!(out.deliveries[0].snapshot, "with the shape of the session");
    let line = screen("second").rows[0].clone();
    assert!(ms[0].screen.take_row(1, line.clone()));
    let out = eng.broadcast(&mut ms, &Vec::new());
    for d in &out.deliveries {
        assert!(d.whole.is_empty(), "told once");
        let rows = &d.changed[0].rows;
        assert_eq!(rows.len(), 1, "only the row that changed");
        assert_eq!((rows[0].y, &rows[0].row), (1, &line), "with what it now says");
    }
    assert_eq!(out.deliveries.len(), 1);
    assert_eq!(ms[0].screen.visible_text(), vec!["a", "second"], "and the screen keeps it");
}

#[test]
fn nobody_is_sent_anything_when_nobody_is_there() {
    let mut eng = engine();
    let pane = first_pane(&eng);
    let mut ms = vec![Mirror { pane, screen: screen("a"), cursor: at(0), sent: None }];
    eng.notice(Level::Info, "hello");
    let out = eng.broadcast(&mut ms, &Vec::new());
    assert!(out.deliveries.is_empty() && out.events.is_empty());

    // That is exactly when somebody will want to read of it later.
    let said = Event::Notice { level: Level::Info, text: "hello".into() };
    assert_eq!(out.recorded, vec![Recorded { event: said, who: None }]);
    let mut journal = Journal::new();
    journal.enter(out.recorded, 7);
    assert_eq!(journal.entries.len(), 1);
    assert_eq!(journal.entries[0].at, 7);
    assert!(matches!(&journal.entries[0].what, Happening::Event(_)));
    assert!(eng.events.is_empty(), "and it is entered once");
}

#[test]
fn an_exit_is_recorded_under_the_name_the_pane_had() {
    let mut eng = engine();
    let pane = first_pane(&eng);
    eng.events.push(Event::PaneExited { pane, status: 0 });
    eng.events.push(Event::PaneExited { pane: pane + 40, status: 1 });
    let names = vec![(pane, "builder".to_string())];
    let out = eng.broadcast(&mut Vec::new(), &names);
    let who: Vec<Option<&str>> = out.recorded.iter().map(|r| r.who.as_deref()).collect();
    let unnamed = format!("pane{}", pane + 40);
    assert_eq!(who, vec![Some("builder"), Some(unnamed.as_str())]);
}

#[test]
fn a_client_that_cannot_be_reached_is_let_go() {
    let mut eng = engine();
    eng.attach(BARS, 1, 120, 40, None, 0);
    eng.attach(BARS, 2, 120, 40, None, 0);
    eng.forget(&vec![1, 9]);
    assert_eq!(eng.clients.iter().map(|c| c.id).collect::<Vec<_>>(), vec![2]);
}

#[test]
fn what_happened_is_told_to_whoever_is_watching() {
    let mut eng = engine();
    eng.attach(BARS, 1, 120, 40, None, 0);
    eng.notice(Level::Warn, "careful");
    let mut ms = Vec::new();
    let out = eng.broadcast(&mut ms, &Vec::new());
    assert!(out
        .events
        .iter()
        .any(|e| *e == Event::Notice { level: Level::Warn, text: "careful".into() }));
    assert!(eng.events.is_empty(), "and not twice");
}

// -- detection ------------------------------------------------------------------

#[test]
fn a_live_agent_refreshes_the_snapshot_every_detection_pass() {
    let mut eng = engine();
    let pane = first_pane(&eng);
    eng.session.panes[0].life.agent = Some(agent("builder", AgentState::Working, 5, "hook"));

    eng.dirty_shape = false;
    eng.detect_soon = false;
    let before = eng.agent_fingerprint();
    eng.detected(&before, false);
    assert!(
        eng.dirty_shape,
        "a working agent's elapsed timer only advances if the snapshot is resent"
    );
    let tiles = vec![(pane, eng.session.chrome.panes)];
    let snap = eng.snapshot(BARS, &tiles, false, &nothing_around(), 65);
    let info = snap.panes.iter().find(|p| p.id == pane).and_then(|p| p.agent.clone()).unwrap();
    assert_eq!(info.state, AgentState::Working);
    assert_eq!(info.authority, "hook");
}

#[test]
fn an_agent_disappearing_also_refreshes_the_snapshot() {
    let mut eng = engine();
    eng.session.panes[0].life.agent = Some(agent("builder", AgentState::Idle, 5, "screen"));
    eng.dirty_shape = false;
    eng.detect_soon = false;
    let before = eng.agent_fingerprint();
    // An agent with no hook backing, in a pane running a plain shell: the scan removes it.
    eng.session.panes[0].life.agent = None;
    eng.detected(&before, false);
    assert!(eng.dirty_shape, "the sidebar must be told the agent is gone");
}

#[test]
fn an_idle_session_with_no_agents_does_not_refresh_needlessly() {
    let mut eng = engine();
    eng.dirty_shape = false;
    eng.detect_soon = false;
    let before = eng.agent_fingerprint();
    eng.detected(&before, false);
    assert!(!eng.dirty_shape, "nothing changed, so nothing should be resent");
}

#[test]
fn a_spawn_requests_a_prompt_detection_pass() {
    let mut eng = engine();
    eng.detect_soon = false;
    apply_cmd(&mut eng, Cmd::SplitRight, false);
    assert!(eng.detect_soon, "spawning a pane must ask for a detection pass");

    // And that pass happens on the very next tick, not only on the cadence.
    let mut at = Some(Step::Pump);
    let mut looked = false;
    while let Some(s) = at {
        if s == Step::Detect {
            looked = true;
            let before = eng.agent_fingerprint();
            eng.detected(&before, false);
        }
        at = eng.next_step(s, false);
    }
    assert!(looked);
    assert!(!eng.detect_soon, "the requested pass should have run");
}

#[test]
fn a_tick_with_nothing_due_skips_the_slow_half() {
    let mut eng = engine();
    eng.detect_soon = false;
    let mut steps = vec![Step::Pump];
    while let Some(s) = eng.next_step(*steps.last().unwrap(), false) {
        steps.push(s);
    }
    assert!(!steps.contains(&Step::Detect));
    assert_eq!(steps.last(), Some(&Step::Broadcast), "and ends by sending out");
}

// -- what clients ask -------------------------------------------------------------

#[test]
fn typing_goes_to_the_pane_it_was_typed_at() {
    let mut eng = engine();
    let pane = first_pane(&eng);
    eng.attach(BARS, 1, 120, 40, None, 0);
    let out = eng.handle_client_frame(
        BARS,
        SHELL,
        1,
        ClientFrame::Input { pane, bytes: b"ls\n".to_vec() },
        facts(false),
        5,
    );
    assert_eq!(out.input, Some((pane, b"ls\n".to_vec())));
}

#[test]
fn reading_a_digest_moves_the_window_up_to_now() {
    let mut eng = engine();
    eng.attach(BARS, 1, 120, 40, None, 0);
    let ask = |eng: &mut Engine, now: u64| {
        eng.handle_client_frame(
            BARS,
            SHELL,
            1,
            ClientFrame::Command(Cmd::RequestDigest),
            facts(false),
            now,
        )
        .digest_since
    };
    assert_eq!(ask(&mut eng, 5_000), Some(1_000), "from when the daemon started");
    assert_eq!(ask(&mut eng, 9_000), Some(5_000), "and then from the last reading");
}

#[test]
fn a_frame_from_a_client_that_left_is_harmless() {
    let mut eng = engine();
    let before = eng.session.panes.len();
    eng.attach(BARS, 1, 120, 40, None, 0);
    eng.handle_client_frame(BARS, SHELL, 1, ClientFrame::Detach, facts(false), 1);
    assert!(eng.clients.is_empty());
    eng.handle_client_frame(BARS, SHELL, 1, ClientFrame::Ping, facts(false), 2);
    assert_eq!(eng.session.panes.len(), before);
}

#[test]
fn a_daemon_whose_last_pane_exited_opens_a_fresh_space() {
    let mut eng = engine();
    eng.session.panes[0].life.exited = true;
    let gone = eng.reap(BARS);
    assert_eq!(gone.len(), 1);
    assert!(eng.session.spaces.is_empty());
    eng.revive(BARS, SHELL, true, "/home/me");
    assert_eq!(eng.session.spaces.len(), 1);
    assert_eq!(eng.session.spaces[0].cwd, "/home/me");
}

#[test]
fn work_held_by_an_agent_that_left_is_back_on_the_board_and_said_so() {
    let mut eng = engine();
    eng.board.add("held", "user", None).unwrap();
    eng.board.claim("gone", Some(1), None).unwrap();
    eng.reclaim(&[]);
    assert!(eng.board.get(1).unwrap().is_open());
    assert!(eng
        .events
        .iter()
        .any(|e| matches!(e, Event::Notice { text, .. } if text.contains("#1"))));
}

// -- commands ----------------------------------------------------------------------

#[test]
fn zooming_gives_one_pane_the_whole_room_and_back() {
    let mut eng = engine();
    apply_cmd(&mut eng, Cmd::SplitRight, false);
    let front = eng.session.focused_pane().unwrap();
    apply_cmd(&mut eng, Cmd::ToggleZoom, false);
    assert_eq!(eng.session.view.zoom, Some(front));
    let room = eng.session.chrome.panes;
    let half = Rect::new(room.x, room.y, room.w / 2, room.h);
    let tiles: Vec<(u64, Rect)> =
        eng.session.visible_panes().into_iter().map(|p| (p, half)).collect();
    let drawn = eng.session.visible_rects(BARS, &tiles);
    assert_eq!(drawn.iter().map(|d| (d.0, d.1)).collect::<Vec<_>>(), vec![(front, room)]);
    apply_cmd(&mut eng, Cmd::ToggleZoom, false);
    assert_eq!(eng.session.visible_rects(BARS, &tiles).len(), 2);
}

#[test]
fn a_split_without_room_is_reported() {
    let mut eng = engine();
    let f = Facts { fits: false, ..facts(false) };
    let a = eng.apply_cmd(BARS, SHELL, &Cmd::SplitDown, f);
    assert!(a.problem.is_some());
    assert_eq!(eng.session.panes.len(), 1);
}

#[test]
fn moving_the_focus_follows_the_neighbour_that_was_found() {
    let mut eng = engine();
    let one = first_pane(&eng);
    apply_cmd(&mut eng, Cmd::SplitRight, false);
    let f = Facts { neighbour: Some(one), ..facts(false) };
    eng.apply_cmd(BARS, SHELL, &Cmd::FocusDir(Dir::Left), f);
    assert_eq!(eng.session.focused_pane(), Some(one));
}

#[test]
fn a_snapshot_says_where_every_visible_pane_is() {
    let mut eng = engine();
    let pane = first_pane(&eng);
    eng.board.add("x", "user", None).unwrap();
    let tiles = vec![(pane, Rect::new(24, 1, 96, 38))];
    let snap = eng.snapshot(BARS, &tiles, true, &nothing_around(), 0);
    assert_eq!(snap.focused_pane, Some(pane));
    assert_eq!(snap.panes[0].cell, Rect::new(24, 1, 96, 38));
    assert_eq!(snap.tasks_open, 1);
    assert_eq!(snap.spaces[0].name, "main");
    assert_eq!((snap.cards_due, snap.spaces[0].notes), (0, None));
    assert!(snap.recents.is_empty() && snap.spaces[0].lsp.is_empty());
}

#[test]
fn a_snapshot_tells_of_what_is_around_the_session() {
    let mut eng = engine();
    eng.recents.remember_project("alpha", "/tmp/alpha");
    let space = eng.session.spaces[0].id;
    let now = 1_000_000_000;
    let server = Serving {
        root: "/tmp/".into(),
        lang: "rust".into(),
        state: ServerState::Ready,
        why: None,
        last_error: None,
        command: "rust-analyzer".into(),
        open: 1,
        errors: 2,
        warnings: 3,
    };
    let elsewhere = Serving { root: "/srv".into(), ..server.clone() };
    let around = Around {
        // Late, due today, and due in two days.
        cards: vec![0, now, now + 2 * 86_400_000],
        roots: vec![(space, "/tmp/notes/".into())],
        vaults: vec![("/home/me".into(), 9), ("/tmp/notes".into(), 4)],
        serving: vec![server, elsewhere],
    };
    let snap = eng.snapshot(BARS, &Vec::new(), false, &around, now);
    assert_eq!(snap.cards_due, 2);
    let known: Vec<_> = snap.recents.iter().map(|r| (r.name.as_str(), r.cwd.as_str())).collect();
    assert_eq!(known, vec![("alpha", "/tmp/alpha")]);
    assert_eq!(snap.spaces[0].notes, Some(4), "of the vault that it reads");
    assert_eq!(snap.spaces[0].lsp.len(), 1, "only the servers of its own project");
    assert_eq!(snap.spaces[0].lsp[0].errors, 2);
}

// -- cards -------------------------------------------------------------------------

fn card(title: &str, project: Option<&str>) -> Card {
    Card {
        id: 1,
        title: title.into(),
        body: String::new(),
        project: project.map(|p| p.to_string()),
        handed: None,
    }
}

#[test]
fn handing_a_card_over_puts_a_real_task_on_the_agents_board() {
    let mut eng = engine();
    let space = eng.session.spaces[0].id;
    let name = eng.session.spaces[0].name.clone();
    assert_eq!(board_project(&eng.session, Some(space)).as_deref(), Some(name.as_str()));

    let mut c = card("wire up the importer", Some(&name));
    let task = hand_over(&mut eng.board, true, 1, Some(&c), 5).unwrap();
    assert_eq!(task.text, "wire up the importer");
    assert_eq!(task.space.as_deref(), Some(name.as_str()), "scoped to the card's project");
    assert_eq!(task.by, "kanban", "and says where it came from");

    // Handing it over twice would put the same work on the board again.
    c.handed = Some(task.id);
    let again = hand_over(&mut eng.board, true, 1, Some(&c), 6);
    assert_eq!(again, Err(HandOverError::Already { card: 1, task: 1 }));
    assert_eq!(eng.board.all().len(), 1, "once only");
}

#[test]
fn a_card_with_no_project_is_never_handed_over() {
    let mut eng = engine();
    let c = card("not about a repo", None);
    let r = hand_over(&mut eng.board, true, 1, Some(&c), 5);
    assert_eq!(r, Err(HandOverError::NoProject(1)));
    assert_eq!(
        HandOverError::NoProject(1).message(),
        "card #1 names no project, so no agent could be told where to work"
    );
    assert!(eng.board.all().is_empty());
}

#[test]
fn closing_the_agents_board_closes_the_bridge_too() {
    let mut eng = engine();
    let c = card("work", Some("main"));
    let r = hand_over(&mut eng.board, false, 1, Some(&c), 5);
    assert_eq!(r, Err(HandOverError::BoardOff), "the switch closes the bridge");
    assert!(eng.board.all().is_empty());
}

#[test]
fn a_card_goes_over_with_its_description_under_its_title() {
    let mut b = Board::new(Vec::new());
    let mut c = card("title", Some("api"));
    c.body = "  the details\n".into();
    let t = hand_over(&mut b, true, 4, Some(&c), 5).unwrap();
    assert_eq!(t.text, "title\n\nthe details");
    assert_eq!(hand_over(&mut b, true, 9, None, 5), Err(HandOverError::NoSuch(9)));
    assert_eq!(
        hand_over(&mut b, true, 4, Some(&card("  ", Some("api"))), 5),
        Err(HandOverError::Empty)
    );
    assert!(due_until(1_000) >= 1_000);
}

#[test]
fn a_command_whose_program_does_not_start_says_so() {
    let mut eng = engine();
    eng.session.effects.clear();
    let front = eng.session.focused_pane();
    apply_cmd(&mut eng, Cmd::SplitRight, false);
    let pane = eng.session.focused_pane().unwrap();
    assert_ne!(Some(pane), front);
    eng.command_not_started(&Cmd::SplitRight, pane, front, "no such program");
    assert_eq!(eng.session.focused_pane(), front);
    assert_eq!(eng.session.panes.len(), 1);

    // A tab that had nothing else stands empty, and it matters more.
    apply_cmd(&mut eng, Cmd::NewTab, false);
    let pane = eng.session.focused_pane().unwrap();
    eng.command_not_started(&Cmd::NewTab, pane, None, "nor this one");
    assert_eq!((eng.session.panes.len(), eng.session.tabs.len()), (1, 2));
    assert_eq!(eng.session.focused_pane(), None);

    let said: Vec<(Level, String)> = eng
        .events
        .iter()
        .filter_map(|e| match e {
            Event::Notice { level, text } => Some((*level, text.clone())),
            _ => None,
        })
        .collect();
    assert_eq!(
        said,
        [(Level::Warn, "no such program".into()), (Level::Error, "nor this one".into())]
    );
}

#[test]
fn a_space_has_a_colour_and_can_be_folded_away() {
    let mut eng = engine();
    let id = eng.session.spaces[0].id;
    assert_eq!(eng.session.look(id).slot, 0);
    assert!(!eng.session.look(id).collapsed);
    apply_cmd(&mut eng, Cmd::SetSpaceAccent { space: id, slot: Some(6) }, false);
    assert_eq!(eng.session.look(id).slot, 6);
    apply_cmd(&mut eng, Cmd::SetSpaceAccent { space: id, slot: None }, false);
    assert_eq!(eng.session.look(id).slot, 7);
    apply_cmd(&mut eng, Cmd::SetSpaceAccent { space: id, slot: None }, false);
    assert_eq!(eng.session.look(id).slot, 0, "after the last comes the first");
    apply_cmd(&mut eng, Cmd::ToggleSpaceCollapsed(id), false);
    assert!(eng.session.look(id).collapsed);
    apply_cmd(&mut eng, Cmd::ToggleSpaceCollapsed(id), false);
    assert!(!eng.session.look(id).collapsed, "twice is nothing");
}
