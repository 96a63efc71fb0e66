use horde::agent::{Activity, AgentClass, AgentRuntime};
use horde::broadcast::Mirror;
use horde::commands::Level;
use horde::engine::{Engine, Event};
use horde::firing::Deed;
use horde::notebook::VaultQuery;
use horde::pane::{CursorPos, Rgb, Row, Run, Screen};
use horde::proto::AgentState;
use horde::queries::{
    broadcast_args, digest_note, read_pane, reply_args, report_arg, tail_limit, vault_verdict,
    Panels, Reading, Report, Status,
};
use horde::recents::Recents;
use horde::rpc::{Arg, Code, Known, Param, Request};
use horde::schedule::When;
use horde::state::{Bars, Session};
use horde::tasks::Board;
use horde::triggers::{Store, What};

const BARS: Bars = Bars { tab_bar: true, status_bar: true, pane_titles: true };

fn engine() -> Engine {
    let mut s = Session::new(true, false, 24, 30);
    s.create_space(BARS, "cat", Some("main"), "/src/main").unwrap();
    let mut eng = Engine::new(
        s,
        Board::new(Vec::new()),
        Store::new(Vec::new()),
        Recents { list: Vec::new() },
        1_000,
    );
    eng.dirty_shape = false;
    eng
}

fn req(method: &str, params: Vec<(&str, Arg)>) -> Request {
    Request {
        method: method.into(),
        params: params
            .into_iter()
            .map(|(k, value)| Param { key: k.into(), value })
            .collect(),
    }
}

fn text(s: &str) -> Arg {
    Arg::Text(s.into())
}

fn agent(name: &str) -> AgentRuntime {
    AgentRuntime {
        kind: "codex".into(),
        name: name.into(),
        class: AgentClass::Agent,
        state: AgentState::Idle,
        since: 5,
        authority: "hook".into(),
        reason: "t".into(),
        seen: false,
        session_id: None,
        queued: Vec::new(),
        question: None,
        activity: Activity::none(),
        touched: Vec::new(),
        nudged_since: None,
        alerted_since: None,
    }
}

fn screen(lines: &[&str]) -> Screen {
    let black = Rgb { r: 0, g: 0, b: 0 };
    let mut s = Screen::new(lines.len() as u16);
    for (y, l) in lines.iter().enumerate() {
        let run = Run { text: l.to_string(), fg: black, bg: black, attrs: 0 };
        s.take_row(y, Row { runs: vec![run] });
    }
    s
}

fn mirror(pane: u64, lines: &[&str]) -> Mirror {
    Mirror {
        pane,
        screen: screen(lines),
        cursor: CursorPos { x: 0, y: 0, visible: true },
        sent: None,
    }
}

#[test]
fn a_reload_shows_the_panels_and_says_what_is_wrong() {
    let mut eng = engine();
    let p = Panels { sidebar: false, bus: true, sidebar_width: 20, bus_width: 40 };
    eng.reload(BARS, p, &vec!["no such theme".to_string(), "bad key".to_string()]);
    let v = eng.session.view;
    assert!(!v.sidebar_open && v.bus_open);
    assert_eq!((v.sidebar_width, v.bus_width), (20, 40));
    assert!(eng.repaint && eng.dirty_shape);
    assert_eq!(eng.session.chrome.sidebar.w, 0, "the layout follows");
    assert_eq!(
        eng.events,
        vec![
            Event::Notice { level: Level::Warn, text: "config: no such theme".into() },
            Event::Notice { level: Level::Warn, text: "config: bad key".into() },
        ]
    );
}

#[test]
fn the_status_counts_what_there_is() {
    let mut eng = engine();
    assert_eq!(eng.session.status(), Status { spaces: 1, tabs: 1, panes: 1, agents: 0 });
    eng.session.panes[0].life.agent = Some(agent("builder"));
    eng.session.create_space(BARS, "cat", Some("other"), "/src/other").unwrap();
    assert_eq!(eng.session.status(), Status { spaces: 2, tabs: 2, panes: 2, agents: 1 });
}

#[test]
fn a_pane_is_read_whole_or_from_its_end() {
    let eng = engine();
    let p = eng.session.panes[0].id;
    let ms = vec![mirror(p, &["one", "two", "three", ""])];
    let names = vec![Known { name: "builder".into(), pane: p }];
    let read = |params| read_pane(&req("pane.read", params), &eng.session, &names, &ms);

    let all: Vec<String> = ["one", "two", "three", ""].iter().map(|s| s.to_string()).collect();
    assert_eq!(
        read(vec![]).unwrap(),
        Reading { pane: p, source: "visible".into(), lines: all.clone() }
    );
    let recent = read(vec![
        ("pane", text("builder")),
        ("source", text("recent")),
        ("lines", Arg::Whole(2)),
    ])
    .unwrap();
    assert_eq!(recent.lines, all[2..].to_vec());
    let seen = read(vec![("source", text("detection")), ("lines", Arg::Whole(2))]).unwrap();
    assert_eq!(seen.lines, vec!["two".to_string(), "three".to_string()]);

    let gone = read(vec![("pane", Arg::Whole(99))]).unwrap_err();
    assert_eq!((gone.code, gone.message.as_str()), (Code::NotFound, "no such pane"));
    let empty = Session::new(true, false, 24, 30);
    let none = read_pane(&req("pane.read", vec![]), &empty, &Vec::new(), &ms).unwrap_err();
    assert_eq!((none.code, none.message.as_str()), (Code::BadRequest, "no pane"));
}

#[test]
fn a_report_names_a_pane_and_a_state() {
    let eng = engine();
    let p = eng.session.panes[0].id;
    let said = |params| report_arg(&req("pane.report_agent", params), &eng.session, &Vec::new());
    assert_eq!(
        said(vec![("state", text("blocked")), ("session", text("abc"))]).unwrap(),
        Report { pane: p, state: AgentState::Blocked, session: Some("abc".into()) }
    );
    assert_eq!(said(vec![]).unwrap_err().message, "state required");
    assert_eq!(said(vec![("state", text("bored"))]).unwrap_err().message, "unknown state \"bored\"");
}

#[test]
fn what_a_report_says_was_done_is_counted() {
    let mut eng = engine();
    let p = eng.session.panes[0].id;
    eng.session.panes[0].life.agent = Some(agent("builder"));
    let on = || Arg::Flag(true);
    let came = Event::Notice { level: Level::Info, text: "busy".into() };
    eng.account(p, &req("pane.report_agent", vec![("new_turn", on())]), Some(came.clone()));
    for file in ["a.rs", "a.rs", "b.rs"] {
        let q = req(
            "pane.report_agent",
            vec![("counts_tool", on()), ("tool", text("Edit")), ("file", text(file))],
        );
        eng.account(p, &q, None);
    }
    eng.account(p, &req("pane.report_agent", vec![("tool_failed", on())]), None);
    let a = eng.session.panes[0].life.agent.as_ref().unwrap();
    assert_eq!(
        a.activity,
        Activity { turns: 1, tools: 3, files: 2, errors: 1, last_tool: Some("Edit".into()) }
    );
    assert_eq!(eng.events, vec![came]);
    assert!(eng.dirty_shape);
    // A report about nobody is still taken.
    eng.account(99, &req("pane.report_agent", vec![("new_turn", on())]), None);
}

#[test]
fn a_note_that_is_not_there_is_said_to_be_missing() {
    let note = VaultQuery::Note("A.md".into());
    assert!(vault_verdict(&note, true, true).is_ok());
    assert!(vault_verdict(&VaultQuery::List, true, false).is_ok());
    assert_eq!(
        vault_verdict(&note, true, false).unwrap_err().message,
        "no such note in this vault"
    );
    assert_eq!(
        vault_verdict(&VaultQuery::List, false, false).unwrap_err().message,
        "this project has no vault — see `vault.dir` in the config"
    );
}

#[test]
fn one_digest_begins_where_the_last_one_ended() {
    let mut eng = engine();
    let plain = req("digest", vec![]);
    assert_eq!(eng.digest(&plain, 5_000), 1_000, "the first covers the session");
    assert!(eng.dirty_shape);
    assert_eq!(eng.digest(&plain, 9_000), 5_000);
    assert_eq!(eng.digest(&req("digest", vec![("since", Arg::Whole(4))]), 10_000), 6_000);
}

#[test]
fn looking_at_a_digest_leaves_it_unread() {
    let mut eng = engine();
    let look = req("digest", vec![("keep", Arg::Flag(true))]);
    assert_eq!(eng.digest(&look, 5_000), 1_000);
    assert_eq!(eng.digest(&look, 7_000), 1_000);
    assert!(!eng.dirty_shape);
    assert_eq!(eng.last_seen, 0);
}

#[test]
fn a_digest_is_filed_under_the_day() {
    let eng = engine();
    let space = eng.session.spaces[0].id;
    let q = req("digest", vec![("note", Arg::Flag(true))]);
    assert_eq!(
        digest_note(&q, &eng.session, "2026-03-01").unwrap(),
        Some((space, "2026-03-01.md".to_string()))
    );
    assert_eq!(digest_note(&req("digest", vec![]), &eng.session, "2026-03-01").unwrap(), None);
    let empty = Session::new(true, false, 24, 30);
    assert_eq!(digest_note(&q, &empty, "2026-03-01").unwrap_err().message, "no focused space");
}

#[test]
fn a_message_needs_something_to_say() {
    let eng = engine();
    let space = eng.session.spaces[0].id;
    let full = req(
        "bus.reply",
        vec![("request", Arg::Whole(7)), ("body", text("yes")), ("space", text("main"))],
    );
    assert_eq!(reply_args(&full).unwrap(), (7, "yes".to_string()));
    assert_eq!(broadcast_args(&full, &eng.session).unwrap(), ("yes".to_string(), Some(space)));
    let bare = req("bus.reply", vec![("request", Arg::Whole(7))]);
    assert_eq!(reply_args(&bare).unwrap_err().message, "body required");
    assert_eq!(broadcast_args(&bare, &eng.session).unwrap_err().message, "body required");
    let nothing = req("bus.reply", vec![]);
    assert_eq!(reply_args(&nothing).unwrap_err().message, "request id required");
    let nowhere = req("bus.broadcast", vec![("body", text("x")), ("space", text("gone"))]);
    assert_eq!(broadcast_args(&nowhere, &eng.session).unwrap(), ("x".to_string(), None));
    assert_eq!(tail_limit(&bare), 50);
    assert_eq!(tail_limit(&req("bus.tail", vec![("limit", Arg::Whole(3))])), 3);
}

#[test]
fn a_rule_is_fired_by_hand_whatever_its_schedule_says() {
    let mut eng = engine();
    let t = eng
        .triggers
        .add_at(
            When::Every { secs: 3_600 },
            What::Task { text: "sweep".into() },
            "user",
            None,
            None,
            2_000,
        )
        .unwrap();
    let q = req("trigger.fire", vec![("trigger", Arg::Whole(t.id))]);
    let closed = eng.fire_by_hand(&q, false, 4, BARS, "cat", true, 3_000).unwrap_err();
    assert_eq!(closed.code, Code::Failed);
    let (id, act) = eng.fire_by_hand(&q, true, 4, BARS, "cat", true, 3_000).unwrap();
    assert_eq!(id, t.id);
    assert_eq!(act, Deed::Done("put task #1 on the board: sweep".into()));
    assert_eq!(eng.board.open_count(), 1);

    let record = eng.fired_by_hand(id, "put task #1 on the board: sweep", 3_000);
    assert_eq!(record.log, format!("trigger #{id} put task #1 on the board: sweep (by hand)"));
    let after = eng.triggers.get(id).unwrap();
    assert_eq!((after.last_fired, after.fire_count), (Some(3_000), 1));
    assert!(eng.dirty_shape);

    let gone = req("trigger.fire", vec![("trigger", Arg::Whole(99))]);
    let none = eng.fire_by_hand(&gone, true, 4, BARS, "cat", true, 3_000).unwrap_err();
    assert_eq!(none.message, "no trigger #99");
}
