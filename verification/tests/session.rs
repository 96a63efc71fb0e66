use horde::layout::{Axis, Node};
use horde::pane::{default_shell, display_name};
use horde::proto::{AgentState, Dir, Rect};
use horde::state::{chrome_for, Bars, Effect, Session, SessionError};
use horde::agent::{Activity, AgentClass, AgentRuntime};

const BARS: Bars = Bars { tab_bar: true, status_bar: true, pane_titles: true };
const SHELL: &str = "cat";
const TMP: &str = "/tmp";

fn session() -> Session {
    Session::new(true, false, 24, 30)
}

/// Divide an area as a tree says.
fn tiles_of(n: &Node, area: Rect, out: &mut Vec<(u64, Rect)>) {
    match n {
        Node::Leaf(p) => out.push((*p, area)),
        Node::Split { axis, ratio, a, b } => {
            let r = f32::from_bits(*ratio);
            match axis {
                Axis::Horizontal => {
                    let w = (area.w as f32 * r).round() as u16;
                    tiles_of(a, Rect::new(area.x, area.y, w, area.h), out);
                    tiles_of(b, Rect::new(area.x + w, area.y, area.w - w, area.h), out);
                }
                Axis::Vertical => {
                    let h = (area.h as f32 * r).round() as u16;
                    tiles_of(a, Rect::new(area.x, area.y, area.w, h), out);
                    tiles_of(b, Rect::new(area.x, area.y + h, area.w, area.h - h), out);
                }
            }
        }
    }
}

fn tiles(s: &Session) -> Vec<(u64, Rect)> {
    let mut out = Vec::new();
    if let Some(t) = s.focused_tab().and_then(|id| s.tab(id)) {
        if let Some(n) = &t.layout.tree {
            tiles_of(n, s.chrome.panes, &mut out);
        }
    }
    out
}

fn agent(name: &str, state: AgentState, since: u64) -> AgentRuntime {
    AgentRuntime {
        kind: "codex".into(),
        name: name.into(),
        class: AgentClass::Agent,
        state,
        since,
        authority: "hook".into(),
        reason: "t".into(),
        seen: false,
        session_id: None,
        queued: Vec::new(),
        question: None,
        activity: Activity::none(),
        touched: Vec::new(),
        nudged_since: None,
        alerted_since: None,
    }
}

#[test]
fn creating_a_space_focuses_it() {
    let mut s = session();
    let first = s.create_space(BARS, SHELL, Some("first"), TMP).unwrap();
    assert_eq!(s.focused_space, Some(first));

    let second = s.create_space(BARS, SHELL, Some("second"), TMP).unwrap();
    assert_eq!(s.focused_space, Some(second), "the new space should be focused");

    // And a split now lands in the new space rather than the old one.
    let pane = s.split(BARS, SHELL, None, Dir::Right, None, true).unwrap();
    assert_eq!(s.pane(pane).unwrap().space, second);
}

#[test]
fn every_pane_pty_matches_the_rect_it_is_drawn_in() {
    let mut s = session();
    s.create_space(BARS, SHELL, Some("t"), TMP).unwrap();
    s.split(BARS, SHELL, None, Dir::Right, None, true).unwrap();
    s.split(BARS, SHELL, None, Dir::Down, None, true).unwrap();

    for (cols, rows) in [(120u16, 40u16), (200, 60), (80, 24), (100, 30)] {
        s.set_client_size(BARS, cols, rows);
        let t = tiles(&s);
        s.place(BARS, &t);
        let drawn = s.visible_rects(BARS, &t);
        assert_eq!(drawn.len(), 3);
        for (id, _cell, content) in drawn {
            let p = s.pane(id).unwrap();
            assert_eq!(
                (p.life.cols, p.life.rows),
                (content.w, content.h),
                "pane {id} at terminal {cols}x{rows}"
            );
        }
    }
}

#[test]
fn forcing_a_redraw_leaves_the_size_exactly_as_it_was() {
    let mut s = session();
    s.create_space(BARS, SHELL, Some("t"), TMP).unwrap();
    s.split(BARS, SHELL, None, Dir::Right, None, true).unwrap();
    s.set_client_size(BARS, 140, 44);
    let t = tiles(&s);
    s.place(BARS, &t);

    let before: Vec<(u64, u16, u16)> =
        s.panes.iter().map(|p| (p.id, p.life.cols, p.life.rows)).collect();
    s.effects.clear();
    for (id, _, _) in &before {
        s.force_redraw(*id);
    }
    for (id, cols, rows) in before {
        let p = s.pane(id).unwrap();
        assert_eq!((p.life.cols, p.life.rows), (cols, rows), "pane {id} came back a different size");
        let told: Vec<(u16, u16)> = s
            .effects
            .iter()
            .filter_map(|e| match e {
                Effect::Resize { pane, cols, rows } if *pane == id => Some((*cols, *rows)),
                _ => None,
            })
            .collect();
        assert_eq!(told.last(), Some(&(cols, rows)), "and its terminal was told so");
        assert!(told.len() > 1, "having wobbled");
    }
}

#[test]
fn creating_a_tab_focuses_it() {
    let mut s = session();
    let space = s.create_space(BARS, SHELL, Some("t"), TMP).unwrap();
    let tab = s.create_tab(BARS, SHELL, space, Some("logs")).unwrap();
    assert_eq!(s.focused_tab(), Some(tab));
}

#[test]
fn space_names_stay_unique_so_they_remain_addressable() {
    let mut s = session();
    s.create_space(BARS, SHELL, Some("api"), TMP).unwrap();
    let b = s.create_space(BARS, SHELL, Some("api"), TMP).unwrap();
    assert_eq!(s.space(b).unwrap().name, "api-2");

    // Renaming onto a taken name is uniquified rather than creating a collision.
    let c = s.create_space(BARS, SHELL, Some("other"), TMP).unwrap();
    s.rename_space(c, "api");
    assert_eq!(s.space(c).unwrap().name, "api-3");
    // An empty rename is refused rather than leaving an unaddressable space.
    assert!(!s.rename_space(c, "   "));
}

#[test]
fn closing_the_last_pane_of_a_tab_closes_the_tab_and_the_last_tab_its_space() {
    let mut s = session();
    let a = s.create_space(BARS, SHELL, Some("a"), TMP).unwrap();
    let b = s.create_space(BARS, SHELL, Some("b"), TMP).unwrap();
    let only = s.focused_pane().unwrap();
    s.close_pane(BARS, only);
    assert!(s.space(b).is_none(), "nothing was left in it");
    assert_eq!(s.focused_space, Some(a));
    assert!(s.effects.iter().any(|e| matches!(e, Effect::Kill(p) if *p == only)));
}

#[test]
fn a_program_that_exited_takes_its_pane_with_it() {
    let mut s = session();
    s.create_space(BARS, SHELL, Some("a"), TMP).unwrap();
    let first = s.focused_pane().unwrap();
    let second = s.split(BARS, SHELL, None, Dir::Right, None, true).unwrap();
    let i = s.pane_index(second);
    s.panes[i].life.exited = true;
    assert_eq!(s.reap_exited(BARS), vec![second]);
    assert!(s.pane(second).is_none());
    assert_eq!(s.focused_pane(), Some(first));
}

#[test]
fn each_refusal_of_a_session_says_why() {
    let mut s = session();
    assert_eq!(
        s.split(BARS, SHELL, None, Dir::Right, None, true),
        Err(SessionError::NoPane)
    );
    assert_eq!(s.create_tab(BARS, SHELL, 9, None), Err(SessionError::NoSuchSpace));
    s.create_space(BARS, SHELL, None, TMP).unwrap();
    assert_eq!(
        s.split(BARS, SHELL, Some(77), Dir::Right, None, true),
        Err(SessionError::NoSuchPane)
    );
    assert_eq!(
        s.split(BARS, SHELL, None, Dir::Right, None, false),
        Err(SessionError::NoRoom)
    );
    assert_eq!(s.panes.len(), 1, "a refused split leaves nothing behind");
}

#[test]
fn the_panes_that_want_you_are_visited_in_turn() {
    let mut s = session();
    s.create_space(BARS, SHELL, Some("a"), TMP).unwrap();
    let one = s.focused_pane().unwrap();
    let two = s.split(BARS, SHELL, None, Dir::Right, None, true).unwrap();
    let three = s.split(BARS, SHELL, None, Dir::Right, None, true).unwrap();
    for (id, state) in
        [(one, AgentState::Idle), (two, AgentState::Done), (three, AgentState::Blocked)]
    {
        let i = s.pane_index(id);
        s.panes[i].life.agent = Some(agent("x", state, 10));
    }
    assert_eq!(s.attention_order(), vec![two, three], "an idle one wants nothing");
    assert!(s.focus_pane(one));
    assert_eq!(s.next_attention(), Some(two));
    assert!(s.focus_pane(two));
    assert_eq!(s.next_attention(), Some(three));
    assert!(s.focus_pane(three));
    assert_eq!(s.next_attention(), Some(two), "and round again");
}

#[test]
fn the_chrome_takes_its_rows_and_the_panes_get_the_rest() {
    let s = session();
    let c = chrome_for(BARS, 120, 40, true, s.view);
    assert_eq!(c.tabbar, Rect::new(0, 0, 120, 1));
    assert_eq!(c.sidebar, Rect::new(0, 1, 24, 38));
    assert_eq!(c.status, Rect::new(0, 39, 120, 1));
    assert_eq!(c.panes, Rect::new(24, 1, 96, 38));
}

#[test]
fn a_pane_is_called_by_its_name_then_its_title_then_its_program() {
    assert_eq!(display_name(Some("tests"), Some("vim"), "/bin/zsh"), "tests");
    assert_eq!(display_name(None, Some("vim"), "/bin/zsh"), "vim");
    assert_eq!(display_name(None, None, "/bin/zsh"), "zsh");
}

#[test]
fn the_default_shell_is_the_users_or_one_every_machine_has() {
    assert_eq!(default_shell(Some("/usr/bin/fish"), false), "/usr/bin/fish");
    assert_eq!(default_shell(None, true), "/bin/zsh");
    assert_eq!(default_shell(None, false), "/bin/sh");
}
