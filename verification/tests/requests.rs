use horde::cards::{due_line, HandOverError};
use horde::commands::Level;
use horde::documents::{Docs, Routed, ServerEvent, Sync};
use horde::engine::{Engine, Event};
use horde::recents::Recents;
use horde::requests::{Answer, Ask, Went};
use horde::state::{Bars, Session};
use horde::tasks::Board;
use horde::triggers::Store;

const BARS: Bars = Bars { tab_bar: true, status_bar: true, pane_titles: true };

/// An engine that client 1 watches.
fn engine() -> Engine {
    let mut s = Session::new(true, false, 24, 30);
    s.create_space(BARS, "cat", Some("main"), "/src/main").unwrap();
    let mut eng = Engine::new(
        s,
        Board::new(Vec::new()),
        Store::new(Vec::new()),
        Recents { list: Vec::new() },
        1_000,
    );
    eng.attach(BARS, 1, 120, 40, None, 0);
    eng.events.clear();
    eng.dirty_shape = false;
    eng
}

fn said(eng: &Engine) -> Vec<(Level, String)> {
    eng.events
        .iter()
        .filter_map(|e| match e {
            Event::Notice { level, text } => Some((*level, text.clone())),
            _ => None,
        })
        .collect()
}

#[test]
fn a_client_asking_for_the_board_gets_it_back_as_its_project_sees_it() {
    let mut eng = engine();
    let space = eng.session.spaces[0].id;
    let f = eng.follow(1, &Ask::Board { space: Some(space) }, &Went::Well);
    assert_eq!(f.answer, Some(Answer::Board { project: Some("main".into()) }));
    let f = eng.follow(1, &Ask::Board { space: None }, &Went::Well);
    assert_eq!(f.answer, Some(Answer::Board { project: None }));
    // And nobody else does.
    let f = eng.follow(2, &Ask::Board { space: None }, &Went::Well);
    assert_eq!(f.answer, None);
}

#[test]
fn every_card_command_answers_with_the_board() {
    for ask in [
        Ask::NewCard { space: None },
        Ask::EditCard,
        Ask::MoveCard,
        Ask::Comment,
        Ask::Archive,
        Ask::HandOff { card: 1 },
        Ask::RenameColumn,
    ] {
        for went in [Went::Well, Went::Badly("no card #1".into())] {
            let mut eng = engine();
            let f = eng.follow(1, &ask, &went);
            assert!(matches!(f.answer, Some(Answer::Board { .. })), "{ask:?} {went:?}");
        }
    }
}

#[test]
fn a_refused_card_command_is_said_and_still_sends_the_board_back() {
    let mut eng = engine();
    let f = eng.follow(1, &Ask::NewCard { space: None }, &Went::Badly("a card needs a title".into()));
    assert!(matches!(f.answer, Some(Answer::Board { .. })));
    assert_eq!(
        said(&eng),
        vec![(Level::Warn, "could not add the card: a card needs a title".to_string())]
    );
    assert!(!eng.dirty_shape, "nothing changed");
}

#[test]
fn each_failure_is_said_in_its_own_words() {
    let why = || Went::Badly("disk full".into());
    let cases: Vec<(Ask, Level, &str)> = vec![
        (
            Ask::SaveNote { space: 1, path: "A.md".into() },
            Level::Error,
            "could not save the note: disk full",
        ),
        (Ask::MakeVault { root: "/n".into() }, Level::Error, "could not make a vault: disk full"),
        (Ask::EditCard, Level::Warn, "could not change the card: disk full"),
        (Ask::MoveCard, Level::Warn, "could not move the card: disk full"),
        (Ask::Comment, Level::Warn, "could not add the comment: disk full"),
        (Ask::Archive, Level::Warn, "could not archive the card: disk full"),
        (Ask::HandOff { card: 1 }, Level::Warn, "disk full"),
        (Ask::ReadFile { path: "a.rs".into() }, Level::Warn, "could not open a.rs: disk full"),
        (Ask::SaveFile { path: "a.rs".into() }, Level::Error, "could not save a.rs: disk full"),
        (Ask::Attach { name: "a.png".into() }, Level::Warn, "could not attach a.png: disk full"),
    ];
    for (ask, level, text) in cases {
        let mut eng = engine();
        let f = eng.follow(1, &ask, &why());
        assert_eq!(said(&eng), vec![(level, text.to_string())]);
        assert!(!f.sync && !f.refresh, "{ask:?}");
    }
}

#[test]
fn what_went_well_is_followed_up() {
    let mut eng = engine();
    let f = eng.follow(1, &Ask::SaveNote { space: 1, path: "A.md".into() }, &Went::Well);
    assert_eq!(f.answer, Some(Answer::Note { space: 1, path: "A.md".into() }), "as it is now");
    let f = eng.follow(1, &Ask::MakeVault { root: "/n".into() }, &Went::Fresh);
    assert!(f.refresh);
    let f = eng.follow(1, &Ask::MakeVault { root: "/n".into() }, &Went::Well);
    assert!(f.refresh);
    eng.follow(1, &Ask::HandOff { card: 4 }, &Went::AsTask(9));
    assert_eq!(
        said(&eng).into_iter().map(|s| s.1).collect::<Vec<_>>(),
        vec![
            "made a vault at /n",
            "/n is already a vault",
            "card #4 is on the agents' board as task #9",
        ]
    );
    let f = eng.follow(1, &Ask::ReadFile { path: "a.rs".into() }, &Went::Well);
    assert_eq!((f.answer, f.sync), (Some(Answer::Files), true));
    let f = eng.follow(1, &Ask::Notes, &Went::Nothing);
    assert_eq!(f.answer, None, "there is nothing to say");
    assert!(!eng.dirty_shape);
    eng.follow(1, &Ask::EditCard, &Went::Well);
    assert!(eng.dirty_shape);
}

#[test]
fn a_card_that_is_due_is_logged_either_way() {
    assert_eq!(due_line(4, Ok(9)), "kanban: card #4 handed over as task #9");
    assert_eq!(
        due_line(4, Err(HandOverError::NoSuch(4))),
        "kanban: card #4 could not be handed over: no card #4"
    );
}

// -- documents -----------------------------------------------------------------------

#[test]
fn diagnostics_reach_everybody_for_a_document_that_is_open() {
    let mut eng = engine();
    eng.attach(BARS, 2, 120, 40, None, 0);
    let space = eng.session.spaces[0].id;
    let mut docs = Docs::new();
    let told = docs.doc_changed(&eng.session, space, "a.rs", false, None, true);
    assert_eq!(
        told,
        Some(Sync { path: "/src/main/a.rs".into(), root: "/src/main".into() })
    );
    eng.dirty_shape = false;
    let events = vec![
        ServerEvent::Diagnostics { path: "/src/main/a.rs".into() },
        ServerEvent::Diagnostics { path: "/usr/include/x.h".into() },
    ];
    let out = eng.drain_lsp(&mut docs, &events);
    assert_eq!(out, vec![Routed { event: 0, rel: "a.rs".into(), to: vec![1, 2] }]);
    assert!(eng.dirty_shape, "the counts are part of the snapshot");

    docs.doc_closed(&eng.session, space, "a.rs", false, None, true);
    assert!(eng.drain_lsp(&mut docs, &events).is_empty(), "nobody has it open any more");
}

#[test]
fn completions_go_to_whoever_asked_and_only_once() {
    let mut eng = engine();
    eng.attach(BARS, 2, 120, 40, None, 0);
    let space = eng.session.spaces[0].id;
    let mut docs = Docs::new();
    assert!(docs.complete(2, &eng.session, space, "a.rs", false, None, true).is_some());
    let events = vec![
        ServerEvent::Completions { path: "/src/main/a.rs".into() },
        ServerEvent::Completions { path: "/src/main/a.rs".into() },
    ];
    let out = eng.drain_lsp(&mut docs, &events);
    assert_eq!(out, vec![Routed { event: 0, rel: "a.rs".into(), to: vec![2] }]);
    assert_eq!(docs.asked, None);
}

#[test]
fn a_document_no_server_speaks_is_not_remembered() {
    let eng = engine();
    let space = eng.session.spaces[0].id;
    let mut docs = Docs::new();
    assert_eq!(docs.doc_changed(&eng.session, space, "a.xyz", false, None, false), None);
    assert_eq!(docs.name_of("/src/main/a.xyz"), None);
    assert_eq!(docs.doc_changed(&eng.session, space, "../a.rs", false, None, true), None);
    // Opened again under another name, it goes by the last.
    docs.doc_changed(&eng.session, space, "b/a.rs", false, None, true);
    docs.doc_changed(&eng.session, space, "b/./a.rs", false, None, true);
    assert!(docs.name_of("/src/main/b/a.rs").is_some());
}

#[test]
fn a_server_that_comes_and_goes_is_announced() {
    let mut eng = engine();
    let mut docs = Docs::new();
    let events = vec![
        ServerEvent::Ready { lang: "rust".into() },
        ServerEvent::Reply,
        ServerEvent::Exited { lang: "rust".into(), gave_up: false, why: "signal 9".into() },
    ];
    assert!(eng.drain_lsp(&mut docs, &events).is_empty());
    assert_eq!(
        said(&eng),
        vec![
            (Level::Info, "rust language server ready".to_string()),
            (Level::Warn, "rust language server died, restarting: signal 9".to_string()),
        ]
    );
    assert!(!eng.dirty_shape);
}
