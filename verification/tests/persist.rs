use horde::agent::{Activity, AgentClass, AgentRuntime};
use horde::layout::{Axis, Layout, Node};
use horde::persist::{
    load, rebuild, restore, restore_command, restore_until, resume_command, save, SavedNode,
    SavedPane, SavedState, Wishes, STATE_VERSION,
};
use horde::proto::{AgentState, Dir};
use horde::state::{Bars, Session};

const BARS: Bars = Bars { tab_bar: true, status_bar: true, pane_titles: true };

fn shell_pane() -> SavedPane {
    SavedPane {
        cmd: "zsh".into(),
        cwd: ".".into(),
        name: None,
        agent_kind: None,
        agent_session: None,
    }
}

#[test]
fn a_future_version_is_ignored_rather_than_guessed_at() {
    let state = SavedState {
        version: STATE_VERSION + 99,
        spaces: vec![],
        focused_space: None,
        last_seen: 0,
    };
    assert_eq!(
        load(state).unwrap_err(),
        "ignoring saved state version 100 (expected 1)"
    );
    let state = SavedState {
        version: STATE_VERSION,
        spaces: vec![],
        focused_space: None,
        last_seen: 7,
    };
    assert_eq!(load(state).unwrap().last_seen, 7);
}

#[test]
fn rebuild_preserves_structure_and_assigns_panes_in_order() {
    let tree = SavedNode::Split {
        horizontal: true,
        ratio: 0.3f32.to_bits(),
        a: Box::new(SavedNode::Leaf(shell_pane())),
        b: Box::new(SavedNode::Split {
            horizontal: false,
            ratio: 0.6f32.to_bits(),
            a: Box::new(SavedNode::Leaf(shell_pane())),
            b: Box::new(SavedNode::Leaf(shell_pane())),
        }),
    };

    let ids = vec![10, 20, 30];
    let mut cursor = 0;
    let node = rebuild(&tree, &ids, &mut cursor);
    assert_eq!(cursor, 3, "every leaf must consume exactly one id");

    // Ratios and axes survive the round trip.
    match &node {
        Node::Split { axis, ratio, b, .. } => {
            assert_eq!(*axis, Axis::Horizontal);
            assert_eq!((100.0 * f32::from_bits(*ratio)).round() as u16, 30, "0.3 of 100 columns");
            match &**b {
                Node::Split { axis, ratio, .. } => {
                    assert_eq!(*axis, Axis::Vertical);
                    assert_eq!(f32::from_bits(*ratio), 0.6);
                }
                Node::Leaf(_) => panic!("the second half is divided too"),
            }
        }
        Node::Leaf(_) => panic!("two halves"),
    }

    let layout = Layout::from_root(node);
    assert_eq!(layout.panes(), vec![10, 20, 30]);
}

#[test]
fn restore_command_resumes_agents_only_with_a_session_id() {
    let agent = "aider".to_string();
    let with_session = SavedPane {
        cmd: agent.clone(),
        cwd: ".".into(),
        name: None,
        agent_kind: Some(agent.clone()),
        agent_session: Some("abc123".into()),
    };
    assert_eq!(
        restore_command(true, "aider", "/bin/zsh", &with_session),
        "aider --resume abc123"
    );

    // No session id: coming back as a shell beats silently starting a new agent.
    let no_session = SavedPane { agent_session: None, ..with_session.clone() };
    assert_eq!(restore_command(true, "aider", "/bin/zsh", &no_session), "/bin/zsh");

    // An agent with no known resume flag also comes back as a shell.
    let unknown_agent = SavedPane {
        cmd: "someagent".into(),
        cwd: ".".into(),
        name: None,
        agent_kind: Some("someagent".into()),
        agent_session: Some("abc123".into()),
    };
    assert_eq!(restore_command(true, "aider", "/bin/zsh", &unknown_agent), "/bin/zsh");

    // Restoration disabled: agent panes become shells rather than starting fresh agents, which
    // is what "don't restore agents" has to mean.
    assert_eq!(restore_command(false, "aider", "/bin/zsh", &with_session), "/bin/zsh");

    // A plain shell pane is unaffected either way.
    assert_eq!(restore_command(false, "aider", "/bin/zsh", &shell_pane()), "zsh");
}

#[test]
fn each_known_agent_has_its_own_way_to_resume() {
    assert_eq!(resume_command("aider", "aider", "s1").as_deref(), Some("aider --resume s1"));
    assert_eq!(resume_command("aider", "codex", "s1").as_deref(), Some("codex resume s1"));
    assert_eq!(resume_command("codex", "codex", "s1").as_deref(), Some("codex resume s1"));
    assert_eq!(resume_command("aider", "someagent", "s1"), None);
}

#[test]
fn what_is_saved_comes_back() {
    let mut s = Session::new(true, false, 24, 30);
    let api = s.create_space(BARS, "zsh", Some("api"), "/src/api").unwrap();
    let second = s.split(BARS, "zsh", None, Dir::Right, Some("npm test"), true).unwrap();
    s.create_tab(BARS, "zsh", api, Some("logs")).unwrap();
    s.create_space(BARS, "zsh", Some("docs"), "/src/docs").unwrap();
    let kind = "aider".to_string();
    let i = s.pane_index(second);
    s.panes[i].life.agent = Some(AgentRuntime {
        kind: kind.clone(),
        name: "builder".into(),
        class: AgentClass::Agent,
        state: AgentState::Idle,
        since: 0,
        authority: "hook".into(),
        reason: "t".into(),
        seen: false,
        session_id: Some("abc123".into()),
        queued: Vec::new(),
        question: None,
        activity: Activity::none(),
        touched: Vec::new(),
        nudged_since: None,
        alerted_since: None,
    });

    let st = save(&s, "zsh", 42);
    assert_eq!((st.version, st.last_seen, st.spaces.len()), (STATE_VERSION, 42, 2));
    assert_eq!(st.focused_space, Some(1));

    let mut t = Session::new(true, false, 24, 30);
    let w = Wishes {
        restore_agents: true,
        usual: kind.clone(),
        shell: "zsh".into(),
        // One directory went away between the sessions.
        dirs: vec!["/src/api".into()],
        here: "/home/me".into(),
    };
    restore(&mut t, &w, BARS, &st);
    let names: Vec<&str> = t.spaces.iter().map(|x| x.name.as_str()).collect();
    assert_eq!(names, ["api", "docs"]);
    assert_eq!(t.spaces[1].cwd, "/home/me", "a directory that is gone is replaced");
    let front = t.focused_space.and_then(|id| t.space(id)).unwrap();
    assert_eq!(front.name, "docs");
    let tabs: Vec<&str> = t.tabs.iter().map(|x| x.name.as_str()).collect();
    assert_eq!(tabs.len(), 3);
    assert!(tabs.contains(&"logs"));
    assert!(
        t.panes.iter().any(|p| p.cmd == format!("{kind} --resume abc123")),
        "the agent's own session is what comes back"
    );
}

#[test]
fn a_session_comes_back_as_far_as_its_programs_start() {
    let mut s = Session::new(true, false, 24, 30);
    s.create_space(BARS, "zsh", Some("api"), "/src").unwrap();
    s.split(BARS, "zsh", None, Dir::Right, Some("nosuch"), true).unwrap();
    s.split(BARS, "zsh", None, Dir::Right, Some("npm test"), true).unwrap();
    s.create_space(BARS, "zsh", Some("docs"), "/src").unwrap();
    let st = save(&s, "zsh", 42);
    let w = Wishes {
        restore_agents: true,
        usual: "aider".into(),
        shell: "zsh".into(),
        dirs: vec!["/src".into()],
        here: "/src".into(),
    };
    let whole = || {
        let mut t = Session::new(true, false, 24, 30);
        restore(&mut t, &w, BARS, &st);
        t
    };
    let ids = |t: &Session| t.panes.iter().map(|p| p.id).collect::<Vec<u64>>();
    let t = whole();
    let lost = t.panes.iter().find(|p| p.cmd == "nosuch").unwrap().id;

    let mut u = Session::new(true, false, 24, 30);
    assert!(restore_until(&mut u, &w, BARS, &st, lost));
    assert!(u.pane(lost).is_none() && u.next_pane == lost + 1);
    assert_eq!(u.spaces.len(), 1, "nothing that comes after it is brought back");
    assert!(!u.panes.iter().any(|p| p.cmd == "npm test"));
    let before = t.panes.iter().find(|p| p.id < lost).unwrap();
    assert_eq!(u.pane(before.id).unwrap().cmd, before.cmd, "and what comes before it is there");

    // Not even the first pane starts: there is a space, and a tab that stands empty.
    let first = Session::new(true, false, 24, 30).next_pane;
    let mut u = Session::new(true, false, 24, 30);
    assert!(restore_until(&mut u, &w, BARS, &st, first));
    assert_eq!((u.spaces.len(), u.tabs.len(), u.panes.len()), (1, 1, 0));
    assert_eq!(u.tabs[0].focused_pane, None);

    // A pane that is not among them stops nothing.
    let mut u = Session::new(true, false, 24, 30);
    assert!(!restore_until(&mut u, &w, BARS, &st, 10_000));
    assert_eq!(ids(&u), ids(&t));
}
