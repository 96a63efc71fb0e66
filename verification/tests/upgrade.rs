use horde::handoff::{adopt, export, rebuild_hnode, to_hnode, HNode, HPane, Manifest};
use horde::import::{taken_over, ImportError};
use horde::layout::Layout;
use horde::proto::Dir;
use horde::state::{Bars, Effect, Session};
use horde::upgrade::{
    build, complete_import, pause_failure, staging_socket, vanished, Handoff, Happened, Next,
    Phase, Takeover, TakeoverAct, BOUND, GO, READY,
};

const BARS: Bars = Bars { tab_bar: true, status_bar: true, pane_titles: true };

fn parent(p: &str) -> &str {
    p.rsplit_once('/').map(|x| x.0).unwrap_or("")
}

#[test]
fn the_staging_socket_is_beside_the_real_one_and_distinct() {
    let real = "/run/user/1000/horde/horde.sock";
    let staged = staging_socket(real);
    assert_ne!(real, staged);
    assert_eq!(parent(real), parent(&staged), "both must be bindable in the same dir");
    assert!(staged.contains("handoff"));
    assert_eq!(staged, "/run/user/1000/horde/horde.sock.handoff");
    assert_ne!(staging_socket(&staged), staged, "nor is one of those its own");
}

#[test]
fn the_layout_tree_survives_conversion_to_manifest_form() {
    let mut l = Layout::single(7);
    l.split(7, Dir::Right, 9);
    l.split(9, Dir::Down, 11);

    let order = vec![7, 9, 11];
    let h = to_hnode(l.tree.as_ref().unwrap(), &order);

    // Rebuild through the same path import uses and compare pane order and shape.
    let ids = vec![Some(7), Some(9), Some(11)];
    let rebuilt = Layout::from_root(rebuild_hnode(&h, &ids).unwrap());
    assert_eq!(rebuilt.panes(), l.panes());
    // The same axes and the same ratios put every pane in the same place.
    assert_eq!(format!("{:?}", rebuilt.tree), format!("{:?}", l.tree));
}

#[test]
fn a_tree_that_speaks_of_an_unknown_pane_is_refused_by_number() {
    let h = HNode::Split {
        horizontal: true,
        ratio: 0.5f32.to_bits(),
        a: Box::new(HNode::Leaf(0)),
        b: Box::new(HNode::Leaf(4)),
    };
    assert_eq!(rebuild_hnode(&h, &vec![Some(1)]).unwrap_err(), 4);
}

/// A session of two panes in one tab.
fn two_panes() -> Session {
    let mut s = Session::new(true, false, 24, 30);
    s.create_space(BARS, "zsh", Some("api"), "/src/api").unwrap();
    s.split(BARS, "zsh", None, Dir::Right, Some("npm test"), true).unwrap();
    s
}

fn handed(s: &Session) -> Manifest {
    let order: Vec<u64> = s.panes.iter().map(|p| p.id).collect();
    let panes: Vec<HPane> =
        s.panes.iter().map(|p| export(p, 4000 + p.id as u32, Vec::new(), b"x".to_vec(), 3, 1)).collect();
    build(s, &order, panes, 1, "0.9.0")
}

#[test]
fn a_session_taken_over_has_the_same_spaces_and_adopts_every_pane() {
    let mut s = two_panes();
    s.panes[1].name = Some("tests".into());
    s.panes[1].life.role = Some("tester".into());
    let m = handed(&s);
    assert_eq!(m.from_version, "0.9.0");
    assert_eq!(m.panes[1].pid, 4000 + s.panes[1].id as u32);
    assert_eq!(m.panes[1].pending, b"x");
    assert_eq!((m.panes[1].cursor_x, m.panes[1].cursor_y), (3, 1));

    let mut t = Session::new(false, true, 10, 10);
    assert_eq!(t.import(BARS, &m, 2, 99), Ok(2));
    assert_eq!(t.spaces[0].name, "api");
    assert_eq!(t.panes.len(), 2);
    assert_eq!(t.panes[1].name.as_deref(), Some("tests"));
    assert_eq!(t.panes[1].life.role.as_deref(), Some("tester"));
    assert_eq!(t.panes[1].cmd, "npm test");
    let adopted =
        t.effects.iter().filter(|e| matches!(e, Effect::Adopt { .. })).count();
    let spawned =
        t.effects.iter().filter(|e| matches!(e, Effect::Spawn { .. })).count();
    assert_eq!((adopted, spawned), (2, 0), "nothing is started anew");
}

#[test]
fn each_way_a_takeover_fails_names_the_pane() {
    let s = two_panes();
    let m = handed(&s);
    // One terminal too few.
    let mut t = Session::new(true, false, 24, 30);
    let e = t.import(BARS, &m, 1, 0).unwrap_err();
    assert_eq!(e, ImportError::NoDescriptor(1));
    assert_eq!(e.message(), "no descriptor for pane 1");
    // A tree that speaks of a pane that was not handed over.
    let mut m = handed(&s);
    m.panes.pop();
    let mut t = Session::new(true, false, 24, 30);
    let e = t.import(BARS, &m, 2, 0).unwrap_err();
    assert_eq!(e, ImportError::NotInManifest(1));
    assert_eq!(e.message(), "tree references pane 1 which is not in the manifest");
    assert_eq!(ImportError::NotAdopted(3).message(), "pane 3 was not adopted");
    assert_eq!(ImportError::Exhausted.message(), "out of ids");
}

#[test]
fn an_adopted_pane_is_alive_and_keeps_what_matters() {
    let mut s = two_panes();
    s.panes[0].life.cols = 81;
    s.panes[0].life.rows = 25;
    s.panes[0].life.board = true;
    s.panes[0].life.pinned = true;
    let h = export(&s.panes[0], 1, Vec::new(), Vec::new(), 0, 0);
    let life = adopt(&h, 5);
    assert_eq!((life.cols, life.rows), (81, 25));
    assert!(life.board && life.pinned && !life.exited);
}

#[test]
fn a_handoff_that_goes_well_pauses_sends_and_leaves() {
    let (mut h, first) = Handoff::begin(vec![4, 6]);
    assert_eq!(first, Next::Pause(4));
    assert_eq!(h.step(Happened::Did), Next::Pause(6));
    assert_eq!(h.step(Happened::Did), Next::Build);
    assert_eq!(h.step(Happened::Did), Next::Spawn);
    assert_eq!(h.step(Happened::Did), Next::Send);
    assert_eq!(h.step(Happened::Did), Next::Listen);
    assert_eq!(h.step(Happened::Said(READY)), Next::Commit);
    assert_eq!(h.step(Happened::Did), Next::Listen);
    assert_eq!(h.step(Happened::Said(BOUND)), Next::Exit);
    assert_eq!(h.phase, Phase::Done);
    assert_eq!((READY, GO, BOUND), (b'R', b'G', b'B'));
}

#[test]
fn a_handoff_that_fails_resumes_every_reader_it_stopped() {
    let (mut h, _) = Handoff::begin(vec![4, 6]);
    assert_eq!(h.step(Happened::Did), Next::Pause(6));
    assert_eq!(h.step(Happened::Failed), Next::RollBack { resume: 1, kill: false });
    assert_eq!(h.phase, Phase::RolledBack);

    let (mut h, _) = Handoff::begin(vec![4, 6]);
    for _ in 0..5 {
        h.step(Happened::Did);
    }
    assert_eq!(h.step(Happened::Said(b'?')), Next::RollBack { resume: 2, kill: true });
    assert_eq!(
        pause_failure(6),
        "pane 6 did not stop reading in time; nothing was changed"
    );
    assert_eq!(vanished(6), "pane 6 vanished mid-handoff");
}

#[test]
fn a_successor_moves_the_socket_only_when_told_to_go() {
    let (t, act) = complete_import(Takeover::Waiting, Happened::Said(GO));
    assert_eq!((t, act), (Takeover::Moving, TakeoverAct::Rename));
    assert_eq!(
        complete_import(t, Happened::Did),
        (Takeover::Taken, TakeoverAct::Confirm)
    );
    assert_eq!(
        complete_import(Takeover::Waiting, Happened::Said(READY)),
        (Takeover::Refused, TakeoverAct::Quit)
    );
    assert_eq!(
        complete_import(Takeover::Waiting, Happened::Failed),
        (Takeover::Refused, TakeoverAct::Quit)
    );
}

#[test]
fn a_session_is_taken_over_only_with_every_program_in_it() {
    assert_eq!(taken_over(Ok(3), None), Ok(3));
    assert_eq!(taken_over(Ok(3), Some("no such process")), Err("no such process".to_string()));
    let e = ImportError::NoDescriptor(2);
    let said = e.message();
    assert_eq!(taken_over(Err(e), Some("no such process")), Err(said));
}
