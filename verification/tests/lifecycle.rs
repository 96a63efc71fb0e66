use horde::clock::{millis_of, now_millis};
use horde::commands::Level;
use horde::lifecycle::{
    check_descriptors, check_socket_path, clock_string, ensure_socket_free, file_limit_warning,
    greet, hostname, incoming, local_user, orphans_notice, removes_socket, stops, turn, Cadence,
    Greeting, Incoming, SocketPlan, StartError, Turn, DETECT_INTERVAL, SAVE_DELAY, TICK_ATTACHED,
    TICK_DETACHED,
};
use horde::reader::{adopted_exit, Found, Move, ReadEnd, ReaderState, Waited};
use horde::rpc::{Arg, Param, Request};
use horde::servers::{lsp_info, server_detail, server_died, server_ready, ServerState, Serving};
use horde::state::{Bars, Session};

// -- the daemon's beat ---------------------------------------------------------------

#[test]
fn a_session_is_saved_once_it_has_been_quiet() {
    let mut c = Cadence::start(0);
    c.on_message(1_000);
    c.on_message(1_500);
    assert!(!c.on_tick(1_500 + SAVE_DELAY - 1).save, "another message put it off");
    assert!(c.on_tick(1_500 + SAVE_DELAY).save);
    assert!(!c.on_tick(1_500 + 2 * SAVE_DELAY).save, "once");
}

#[test]
fn detection_keeps_its_own_pace_however_fast_the_ticks_are() {
    let mut c = Cadence::start(0);
    assert!(!c.on_tick(DETECT_INTERVAL - 1).detect);
    assert!(c.on_tick(DETECT_INTERVAL).detect);
    assert!(!c.on_tick(DETECT_INTERVAL + 10).detect);
}

#[test]
fn ticks_slow_down_when_nobody_is_watching() {
    let mut c = Cadence::start(0);
    c.retune(true, false);
    assert_eq!(c.retune(false, false), Some(TICK_DETACHED));
    assert_eq!(c.retune(false, false), None, "no change, no new timer");
    assert_eq!(c.retune(false, true), Some(TICK_ATTACHED), "output still waits to be written");
}

#[test]
fn a_socket_that_answers_is_another_daemons() {
    assert_eq!(ensure_socket_free("/run/h.sock", false, false), Ok(SocketPlan::Bind));
    assert_eq!(ensure_socket_free("/run/h.sock", true, false), Ok(SocketPlan::RemoveThenBind));
    let e = ensure_socket_free("/run/h.sock", true, true).unwrap_err();
    assert_eq!(e, StartError::Running("/run/h.sock".into()));
    assert!(e.message().contains("/run/h.sock"));
}

#[test]
fn a_socket_path_is_measured_in_bytes() {
    assert!(check_socket_path(&"a".repeat(100)).is_ok());
    let e = check_socket_path(&"a".repeat(101)).unwrap_err();
    assert!(matches!(e, StartError::TooLong { bytes: 101, .. }));
    assert!(e.message().contains("101"));
    assert!(check_socket_path(&"é".repeat(51)).is_err(), "two bytes each");
}

#[test]
fn a_small_allowance_of_files_is_worth_a_warning() {
    assert_eq!(file_limit_warning(512), None);
    assert_eq!(
        file_limit_warning(256).as_deref(),
        Some("this system caps horde at 256 open files; a large session may fail to upgrade")
    );
}

#[test]
fn a_daemon_that_handed_over_leaves_the_socket_alone() {
    assert!(removes_socket(false));
    assert!(!removes_socket(true));
    assert!(stops("server.stop", false));
    assert!(stops("server.handoff", true));
    assert!(!stops("server.handoff", false), "one that failed leaves it running");
    assert!(!stops("ping", true));
    assert!(check_descriptors(2, 2).is_ok());
    assert!(check_descriptors(2, 1).is_err());
    assert_eq!(orphans_notice(0), None);
    assert!(orphans_notice(3).unwrap().contains('3'));
}

#[test]
fn a_client_of_another_protocol_is_told_which() {
    assert_eq!(
        greet(Some(7), Some(200), None, 7, None),
        Greeting::Welcome { cols: 200, rows: 40 }
    );
    match greet(Some(6), None, None, 7, None) {
        Greeting::Bye(m) => {
            assert!(m.contains("client speaks v6") && m.contains("daemon speaks v7"), "{m}")
        }
        other => panic!("{other:?}"),
    }
}

#[test]
fn a_line_that_is_not_a_request_is_refused_and_the_talk_goes_on() {
    assert_eq!(incoming(0, ""), Incoming::Closed);
    assert_eq!(incoming(1, "\n"), Incoming::Blank);
    assert_eq!(incoming(5, " {} \n"), Incoming::Text("{}".into()));
    match turn(Err("expected value"), 7, None) {
        Turn::Refuse(f) => assert_eq!(f.message, "invalid JSON: expected value"),
        _ => panic!("refused"),
    }
    let attach = Request {
        method: "attach".into(),
        params: vec![Param { key: "protocol".into(), value: Arg::Whole(7) }],
    };
    assert!(matches!(
        turn(Ok(&attach), 7, None),
        Turn::Greet(Greeting::Welcome { cols: 120, rows: 40 })
    ));
    let ping = Request { method: "ping".into(), params: Vec::new() };
    assert!(matches!(turn(Ok(&ping), 7, None), Turn::Ask));
}

#[test]
fn the_log_is_stamped_with_the_time_of_day() {
    assert_eq!(clock_string(0), "00:00:00");
    assert_eq!(clock_string((((23 * 60) + 5) * 60 + 9) * 1000 + 999), "23:05:09");
}

#[test]
fn a_machine_is_called_by_its_short_name() {
    assert_eq!(hostname(Some(" Laptop.local\n"), Some("x")).as_deref(), Some("laptop"));
    assert_eq!(hostname(None, Some("Box")).as_deref(), Some("box"));
    assert_eq!(hostname(Some("  "), None), None);
    assert_eq!(local_user(None, Some("sam"), None, Some("laptop")), "sam@laptop");
    assert_eq!(local_user(None, None, Some("log"), None), "log");
    assert_eq!(local_user(None, None, None, None), "user");
    assert_eq!(local_user(Some("me"), Some("sam"), None, Some("laptop")), "me");
}

#[test]
fn the_clock_reads_milliseconds_since_the_epoch() {
    assert_eq!(millis_of(Some(1_234)), 1_234);
    assert_eq!(millis_of(None), 0);
    // Some time in this century.
    assert!(now_millis() > 946_684_800_000);
}

// -- reading a terminal -----------------------------------------------------------------

#[test]
fn a_reader_asked_to_pause_while_waiting_does_not_read() {
    let mut r = ReaderState::new();
    assert_eq!(r.step(Found::Flags { stop: false, pause: false }), Move::Wait);
    assert_eq!(r.step(Found::Wait(Waited::Ready)), Move::LookAgain);
    assert_eq!(r.step(Found::Again { pause: true }), Move::Look);
    assert!(r.idle, "and says that it is not reading");
    assert_eq!(r.step(Found::Flags { stop: false, pause: true }), Move::Rest);
    assert!(r.idle);
    assert_eq!(r.step(Found::Flags { stop: true, pause: true }), Move::Stop);
}

#[test]
fn a_reader_passes_on_what_it_read_until_nothing_more_comes() {
    let mut r = ReaderState::new();
    assert_eq!(r.step(Found::Again { pause: false }), Move::Read);
    assert!(!r.idle);
    assert_eq!(r.step(Found::Read(ReadEnd::Bytes)), Move::PassOn);
    assert_eq!(r.step(Found::Passed { taken: true }), Move::Look);
    assert_eq!(r.step(Found::Read(ReadEnd::Interrupted)), Move::Look);
    assert_eq!(r.step(Found::Read(ReadEnd::End)), Move::Stop);
    assert_eq!(r.step(Found::Passed { taken: false }), Move::Stop);
}

#[test]
fn an_adopted_child_is_alive_as_long_as_it_can_be_signalled() {
    assert_eq!(adopted_exit(true, false), None);
    assert_eq!(adopted_exit(false, true), None, "another user's process is still a process");
    assert_eq!(adopted_exit(false, false), Some(0));
}

// -- language servers -----------------------------------------------------------------

#[test]
fn a_server_that_is_not_ready_says_why() {
    assert_eq!(server_detail(ServerState::Ready, Some("x"), Some("y"), "z"), None);
    assert_eq!(
        server_detail(ServerState::Failed, Some("x"), Some("y"), "z").as_deref(),
        Some("x")
    );
    assert_eq!(
        server_detail(ServerState::Starting, Some("x"), Some("y"), "z").as_deref(),
        Some("y")
    );
    assert_eq!(server_detail(ServerState::Waiting, None, None, "z").as_deref(), Some("z"));
    assert_eq!(server_ready("rust"), (Level::Info, "rust language server ready".into()));
    assert_eq!(
        server_died("rust", true, "no such file").1,
        "rust language server keeps dying, giving up: no such file"
    );
    assert_eq!(
        server_died("rust", false, "crash").1,
        "rust language server died, restarting: crash"
    );
}

#[test]
fn only_the_servers_of_a_project_are_shown_in_it() {
    let bars = Bars { tab_bar: true, status_bar: true, pane_titles: true };
    let mut s = Session::new(true, false, 24, 30);
    let space = s.create_space(bars, "cat", Some("api"), "/src/api").unwrap();
    let serving = |root: &str, state: ServerState| Serving {
        root: root.into(),
        lang: "rust".into(),
        state,
        why: Some("crashed".into()),
        last_error: None,
        command: "rust-analyzer".into(),
        open: 2,
        errors: 1,
        warnings: 3,
    };
    let all =
        vec![serving("/src/api", ServerState::Failed), serving("/src/docs", ServerState::Ready)];
    let shown = lsp_info(&s, space, &all);
    assert_eq!(shown.len(), 1);
    assert_eq!(shown[0].detail.as_deref(), Some("crashed"));
    assert_eq!((shown[0].open, shown[0].errors, shown[0].warnings), (2, 1, 3));
    assert!(lsp_info(&s, 99, &all).is_empty());
}
