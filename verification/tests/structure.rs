use horde::commands::{Cmd, Facts};
use horde::handoff::{export, HNode, HPane};
use horde::layout::{Layout, Node, HALF};
use horde::persist::{restore, save, Wishes};
use horde::preset::Preset;
use horde::proto::Dir;
use horde::state::{Bars, Session};
use horde::upgrade::build;

const BARS: Bars = Bars { tab_bar: true, status_bar: true, pane_titles: true };

fn leaves(n: &Node, out: &mut Vec<u64>) {
    match n {
        Node::Leaf(p) => out.push(*p),
        Node::Split { a, b, .. } => {
            leaves(a, out);
            leaves(b, out);
        }
    }
}

fn order(l: &Layout) -> Vec<u64> {
    let mut out = Vec::new();
    if let Some(n) = &l.tree {
        leaves(n, &mut out);
    }
    out
}

/// Everything that is named is there, once, and where it says.
fn assert_hangs(s: &Session, after: &str) {
    let mut tabs = 0;
    let mut panes = 0;
    for sp in &s.spaces {
        match sp.focused_tab {
            Some(t) => assert!(sp.tabs.contains(&t), "{after}: the tab in front is listed"),
            None => assert!(sp.tabs.is_empty(), "{after}: some tab is in front"),
        }
        for t in &sp.tabs {
            let tab = s.tab(*t).expect(after);
            assert_eq!(tab.space, sp.id, "{after}");
            tabs += 1;
            let mine = order(&tab.layout);
            assert!(!mine.is_empty(), "{after}: a tab has panes");
            if let Some(f) = tab.focused_pane {
                assert!(mine.contains(&f), "{after}: the pane in front is in its tab");
            }
            for p in &mine {
                let pane = s.pane(*p).expect(after);
                assert_eq!((pane.tab, pane.space), (tab.id, sp.id), "{after}");
                panes += 1;
            }
        }
    }
    assert_eq!((tabs, panes), (s.tabs.len(), s.panes.len()), "{after}: nothing is left over");
    let mut all = s.ordered_panes();
    all.sort();
    all.dedup();
    assert_eq!(all.len(), panes, "{after}: no pane is in two places");
    match s.focused_space {
        Some(f) => assert!(s.space(f).is_some(), "{after}"),
        None => assert!(s.spaces.is_empty(), "{after}"),
    }
}

fn facts(neighbour: Option<u64>, preset: Option<Preset>) -> Facts {
    let here = "/src".to_string();
    Facts { fits: true, neighbour, reshaped: None, preset, is_dir: true, here, accents: 8 }
}

fn three() -> Preset {
    let leaf = |i| Box::new(HNode::Leaf(i));
    let right = HNode::Split { horizontal: false, ratio: HALF, a: leaf(0), b: leaf(1) };
    Preset {
        want: 3,
        tree: HNode::Split { horizontal: true, ratio: HALF, a: leaf(2), b: Box::new(right) },
    }
}

/// A session with two projects, several tabs and several panes.
fn busy() -> Session {
    let mut s = Session::new(true, false, 24, 30);
    let api = s.create_space(BARS, "zsh", Some("api"), "/src/api").unwrap();
    s.split(BARS, "zsh", None, Dir::Right, Some("npm test"), true).unwrap();
    s.split(BARS, "zsh", None, Dir::Down, None, true).unwrap();
    s.create_tab(BARS, "zsh", api, Some("logs")).unwrap();
    s.create_space(BARS, "zsh", Some("docs"), "/src/docs").unwrap();
    s.split(BARS, "zsh", None, Dir::Up, None, true).unwrap();
    s
}

#[test]
fn no_command_takes_a_session_apart() {
    let mut s = busy();
    assert_hangs(&s, "to begin with");
    let first = s.panes[0].id;
    let all: Vec<(&str, Cmd)> = vec![
        ("split right", Cmd::SplitRight),
        ("split down", Cmd::SplitDown),
        ("zoom", Cmd::ToggleZoom),
        ("split while zoomed", Cmd::SplitRight),
        ("close a pane", Cmd::ClosePane),
        ("new tab", Cmd::NewTab),
        ("previous tab", Cmd::PrevTab),
        ("a preset", Cmd::ApplyLayout { preset: "three".into() }),
        ("close a tab", Cmd::CloseTab),
        ("close its last tab", Cmd::CloseTab),
        ("new space", Cmd::NewSpace { name: Some("api".into()) }),
        ("next space", Cmd::NextSpace),
        ("focus a pane", Cmd::FocusPane(first)),
        ("a preset on three panes", Cmd::ApplyLayout { preset: "three".into() }),
        ("rename", Cmd::RenameSpace { space: s.spaces[0].id, name: "web".into() }),
        ("an agent", Cmd::SpawnAgent { cmd: "codex".into(), name: Some("a".into()), split: None }),
        ("open a project", Cmd::OpenProject { cwd: "/src/new".into() }),
        ("redraw", Cmd::Redraw),
        ("an accent", Cmd::SetSpaceAccent { space: s.spaces[0].id, slot: None }),
        ("fold", Cmd::ToggleSpaceCollapsed(s.spaces[0].id)),
        ("close a space", Cmd::CloseSpace(s.spaces[0].id)),
    ];
    for (name, cmd) in all {
        let front = s.visible_panes();
        let other = front.iter().copied().find(|p| Some(*p) != s.focused_pane());
        s.apply(BARS, "zsh", &cmd, facts(other, Some(three())));
        assert_hangs(&s, name);
        s.apply(BARS, "zsh", &Cmd::SwapDir(Dir::Left), facts(None, None));
        assert_hangs(&s, name);
    }
    while let Some(p) = s.panes.first().map(|p| p.id) {
        s.close_pane(BARS, p);
        assert_hangs(&s, "closing the rest");
    }
    assert!(s.spaces.is_empty() && s.tabs.is_empty());
}

#[test]
fn programs_that_ended_leave_nothing_behind() {
    let mut s = busy();
    for i in [0, 2, 3] {
        s.panes[i].life.exited = true;
    }
    let gone = s.reap_exited(BARS);
    assert_eq!(gone.len(), 3);
    assert_hangs(&s, "after reaping");
}

#[test]
fn a_session_handed_over_is_handed_over_again_just_so() {
    let s = busy();
    let hand = |s: &Session| {
        let order = s.ordered_panes();
        let panes: Vec<HPane> = order
            .iter()
            .map(|p| export(s.pane(*p).unwrap(), 1, Vec::new(), Vec::new(), 0, 0))
            .collect();
        build(s, &order, panes, 1, "0.1.0")
    };
    let m = hand(&s);
    let mut t = Session::new(false, true, 10, 10);
    assert_eq!(t.import(BARS, &m, m.panes.len(), 7), Ok(m.panes.len()));
    assert_hangs(&t, "taken over");
    let again = hand(&t);
    assert_eq!(format!("{:?}", again.spaces), format!("{:?}", m.spaces));
    assert_eq!(again.focused_space, m.focused_space);
    assert_eq!(again.panes, m.panes);
}

#[test]
fn a_saved_session_is_saved_again_just_so() {
    let mut s = busy();
    let i = s.pane_index(s.panes[1].id);
    s.panes[i].name = Some("tests".into());
    let st = save(&s, "zsh", 5);
    let w = Wishes {
        restore_agents: false,
        usual: "aider".into(),
        shell: "zsh".into(),
        dirs: vec!["/src/api".into(), "/src/docs".into()],
        here: "/home/me".into(),
    };
    let mut t = Session::new(true, false, 24, 30);
    restore(&mut t, &w, BARS, &st);
    assert_hangs(&t, "brought back");
    let again = save(&t, "zsh", 5);
    assert_eq!(again.focused_space, st.focused_space);
    assert_eq!(again.spaces.len(), st.spaces.len());
    for (a, b) in again.spaces.iter().zip(&st.spaces) {
        assert_eq!((&a.name, &a.cwd), (&b.name, &b.cwd));
        assert_eq!(format!("{:?}", a.tabs), format!("{:?}", b.tabs));
    }
}
