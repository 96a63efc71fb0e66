use horde::agent::{Activity, AgentClass, AgentRuntime};
use horde::journal::{Happening, Journal};
use horde::proto::{AgentState, Dir};
use horde::repo::Repo;
use horde::state::{Bars, ModelRun, Session};
use horde::succession::{
    advance_spent_models, compose_brief, find_profile, handoff_name, handoff_note, live_spawned,
    notes_path, nudge_handover, place_successor, screen_says, screen_says_any, settle_succession,
    succeed_exhausted, Handover, Profile, Succession, SWITCH_QUIET,
};

const BARS: Bars = Bars { tab_bar: true, status_bar: true, pane_titles: true };
/// What an agent is told, where nothing else was configured.
const STANDARD: &str = "You are nearly out. Write .horde/handoff-{name}.md, then run: \
                        horde spawn --profile {profile}";

fn agent(name: &str, state: AgentState, since: u64) -> AgentRuntime {
    AgentRuntime {
        kind: "codex".into(),
        name: name.into(),
        class: AgentClass::Agent,
        state,
        since,
        authority: "hook".into(),
        reason: "t".into(),
        seen: false,
        session_id: None,
        queued: Vec::new(),
        question: None,
        activity: Activity::none(),
        touched: Vec::new(),
        nudged_since: None,
        alerted_since: None,
    }
}

/// A session of one pane, whose agent is idle.
fn session_of(name: &str) -> Session {
    let mut s = Session::new(true, false, 24, 30);
    s.create_space(BARS, "cat", Some("main"), "/tmp").unwrap();
    s.panes[0].life.agent = Some(agent(name, AgentState::Idle, 1));
    s
}

fn saying(words: &str) -> Vec<String> {
    vec![words.to_string()]
}

/// What the journal says was done.
fn notes(j: &Journal) -> Vec<String> {
    j.entries
        .iter()
        .filter_map(|e| match &e.what {
            Happening::Notified(t) => Some(t.clone()),
            _ => None,
        })
        .collect()
}

#[test]
fn a_phrase_is_found_however_the_terminal_broke_it() {
    assert!(screen_says("Rate limit exceeded", "Rate limit exceeded"));
    // Wrapped between words, which is what a narrow pane does to a sentence.
    assert!(screen_says("... Approaching\nusage limit ...", "Approaching usage limit"));
    // Wrapped inside words, which is what a very narrow pane does.
    assert!(screen_says("  esc to\n  in\n  te\n  rr\n  up\n  t", "esc to interrupt"));
    // And it still says no to text that is genuinely absent.
    assert!(!screen_says("all is well", "Rate limit exceeded"));
    assert!(!screen_says("anything at all", "   "));
}

#[test]
fn the_shipped_patterns_match_what_claude_code_prints() {
    let real = "usage limit reached. Your limit will reset at 3pm (America/New_York)";
    for pattern in ["usage limit reached", "Your limit will reset at"] {
        assert!(screen_says(real, pattern), "{pattern:?} should match {real:?}");
        // And still match once a narrow pane has broken it up.
        let wrapped = "usage limit\nreached. Your limit\nwill reset at 3pm";
        assert!(screen_says(wrapped, pattern), "{pattern:?} should survive wrapping");
    }

    assert!(screen_says("5-hour limit reached - resets 4pm", "limit reached - resets"));
    assert!(screen_says("limit reached, resets at 4pm", "limit reached, resets"));

    // And the warning tier.
    assert!(screen_says("Approaching 5-hour limit.", "Approaching 5-hour limit"));

    // What must *not* match: being told to hand over lands on the very pane being watched.
    for pattern in ["usage limit reached", "Your limit will reset at"] {
        assert!(!screen_says(STANDARD, pattern), "{pattern:?}");
    }
}

#[test]
fn an_agent_running_out_is_told_to_hand_over_while_it_still_can() {
    let mut s = session_of("builder");
    let h = Handover {
        warning: vec!["Approaching usage limit".into()],
        exhausted: Vec::new(),
        profile: Some("free".into()),
        instruct: None,
        max_chain: 3,
    };
    let screen = saying("Approaching usage limit");

    let (names, mut j) = (vec![(s.panes[0].id, "builder".to_string())], Journal::new());
    let told = nudge_handover(&mut s, &h, STANDARD, &screen, &names, &mut j, 7);
    assert!(s.panes[0].life.handover_told, "it should have been told");
    let msg = told.last().expect("an instruction went out");
    assert!(msg.body.contains("handoff-builder.md"), "names its own note: {}", msg.body);
    assert!(msg.body.contains("--profile free"), "names the successor profile: {}", msg.body);
    assert!(msg.body.contains("horde spawn"), "gives the actual command: {}", msg.body);

    // The warning stays on screen. Repeating the instruction would interrupt the handover it is
    // asking for.
    assert!(nudge_handover(&mut s, &h, STANDARD, &screen, &names, &mut j, 8).is_empty(), "told exactly once");
    assert_eq!(notes(&j), ["builder told to hand over before running out"], "and the journal says so, once");
}

#[test]
fn a_handover_warning_without_a_profile_does_nothing() {
    let mut s = session_of("builder");
    let h = Handover {
        warning: vec!["Approaching usage limit".into()],
        exhausted: Vec::new(),
        profile: None,
        instruct: None,
        max_chain: 3,
    };
    let (names, mut j) = (Vec::new(), Journal::new());
    nudge_handover(&mut s, &h, STANDARD, &saying("Approaching usage limit"), &names, &mut j, 7);
    assert!(j.entries.is_empty());
    assert!(!s.panes[0].life.handover_told);
}

fn free(cmd: &str, order: &[&str], switch: Option<&str>) -> Vec<Profile> {
    vec![Profile {
        name: "free".into(),
        cmd: cmd.into(),
        order: order.iter().map(|m| m.to_string()).collect(),
        exhausted: vec!["Rate limit exceeded".into()],
        switch: switch.map(|s| s.to_string()),
    }]
}

#[test]
fn an_exhausted_model_moves_the_agent_to_the_next_one() {
    let mut s = session_of("builder");
    let ps = free(
        "opencode --model openrouter/{model}",
        &["first/model", "second/model"],
        Some("/models openrouter/{model}"),
    );
    s.panes[0].life.model = Some(ModelRun { profile: "free".into(), index: 0, switched: None });
    let screen = saying("Rate limit exceeded");

    let (names, mut j) = (vec![(s.panes[0].id, "builder".to_string())], Journal::new());
    let (moved, spent) = advance_spent_models(&mut s, &ps, &screen, &names, &mut j, 1_000);
    assert_eq!(notes(&j), ["builder switched to second/model"], "the journal names the model");
    assert!(spent.is_empty());
    assert_eq!(moved[0].command, "/models openrouter/second/model");
    let run = s.panes[0].life.model.clone().expect("still on a profile");
    assert_eq!(run.index, 1, "it should have moved to the second model");
    assert!(run.switched.is_some(), "and recorded when, so it does not fire again");

    // The error is still on screen. A second pass inside the quiet window must not walk it
    // through the rest of the list.
    advance_spent_models(&mut s, &ps, &screen, &names, &mut j, 1_000 + SWITCH_QUIET - 1);
    assert_eq!(s.panes[0].life.model.as_ref().unwrap().index, 1, "one switch, not two");
}

#[test]
fn a_spent_profile_stops_instead_of_starting_over() {
    let mut s = session_of("builder");
    let ps = free("c {model}", &["only/model"], Some("/models {model}"));
    s.panes[0].life.model = Some(ModelRun { profile: "free".into(), index: 0, switched: None });

    let mut j = Journal::new();
    let screen = saying("Rate limit exceeded");
    let (moved, spent) = advance_spent_models(&mut s, &ps, &screen, &Vec::new(), &mut j, 1_000);
    let line = format!("pane{} exhausted profile free", s.panes[0].id);
    assert_eq!(notes(&j), [line], "and a pane without a name goes by its number");
    assert!(moved.is_empty());
    assert_eq!(spent[0].profile, "free", "and it says so");
    // Still on the last model, not back at the start.
    assert_eq!(s.panes[0].life.model.as_ref().unwrap().index, 0);
}

fn out_of_usage(max_chain: u32) -> Handover {
    Handover {
        warning: Vec::new(),
        exhausted: vec!["reached your usage limit".into()],
        profile: Some("free".into()),
        instruct: None,
        max_chain,
    }
}

#[test]
fn an_agent_that_died_without_handing_over_gets_a_successor() {
    let mut s = session_of("builder");
    let dead = s.panes[0].id;
    let h = out_of_usage(3);
    let ps = free("cat {model}", &["/dev/stdin"], None);
    let screen = saying("reached your usage limit");

    let before = s.panes.len();
    let mut j = Journal::new();
    let r = succeed_exhausted(&mut s, &h, &ps, &screen, 5, BARS, "cat", true, &mut j, 9);
    assert_eq!(s.panes.len(), before + 1, "a successor should exist");
    assert!(s.pane(dead).unwrap().life.succeeded, "and the dead one is marked");
    match r {
        Succession::Started { dead: d, name, successor, profile, .. } => {
            assert_eq!((d, name.as_str()), (dead, "builder"));
            assert_eq!((successor.as_str(), profile.as_str()), ("builder-next", "free"));
        }
        other => panic!("{other:?}"),
    }
    assert_eq!(notes(&j), ["builder ran out; builder-next took over"]);

    let successor = s
        .panes
        .iter()
        .find(|p| p.name.as_deref() == Some("builder-next"))
        .expect("named after the agent it replaces");
    assert_eq!(successor.life.succession_depth, 1, "one step along the chain");
    assert_eq!(successor.cmd, "cat /dev/stdin");

    // The brief is composed for it, and says where the work is.
    let brief = compose_brief("builder", "/tmp", None, None, &screen);
    assert!(brief.contains("taking over from builder"), "{brief}");
    assert!(brief.contains("Working directory"), "{brief}");

    // Running again must not start a second one.
    let now = s.panes.len();
    let screens = vec!["reached your usage limit".to_string(), String::new()];
    let again = succeed_exhausted(&mut s, &h, &ps, &screens, 5, BARS, "cat", true, &mut j, 9);
    assert_eq!(again, Succession::Nothing);
    assert_eq!(s.panes.len(), now, "one successor, not a queue of them");
    assert_eq!(j.entries.len(), 1, "and it is told of once");
}

#[test]
fn a_succession_chain_stops_at_its_limit() {
    let mut s = session_of("builder");
    let ps = free("cat {model}", &["/dev/stdin"], None);
    // Already at the end of a chain.
    s.panes[0].life.succession_depth = 2;

    let before = s.panes.len();
    let mut j = Journal::new();
    let screen = saying("reached your usage limit");
    succeed_exhausted(&mut s, &out_of_usage(2), &ps, &screen, 5, BARS, "cat", true, &mut j, 9);
    assert_eq!(s.panes.len(), before, "the chain has run its length");
}

#[test]
fn a_successor_that_cannot_be_had_is_reported() {
    let h = out_of_usage(3);
    let screen = saying("reached your usage limit");
    let ps = free("cat {model}", &["/dev/stdin"], None);

    let mut j = Journal::new();
    let mut s = session_of("builder");
    let r = succeed_exhausted(&mut s, &h, &Vec::new(), &screen, 5, BARS, "cat", true, &mut j, 9);
    assert_eq!(r, Succession::NoProfile("free".into()));

    let r = succeed_exhausted(&mut s, &h, &ps, &screen, 5, BARS, "cat", false, &mut j, 9);
    assert!(matches!(r, Succession::NotPlaced { .. }));

    let extra = s.split(BARS, "cat", None, Dir::Right, None, true).unwrap();
    let i = s.pane_index(extra);
    s.panes[i].life.spawned_by = Some(0);
    assert_eq!(live_spawned(&s), 1);
    let screens = vec!["reached your usage limit".to_string(), String::new()];
    let r = succeed_exhausted(&mut s, &h, &ps, &screens, 1, BARS, "cat", true, &mut j, 9);
    assert_eq!(r, Succession::Capped { name: "builder".into(), live: 1 });
}

#[test]
fn a_handover_is_filed_in_the_vault_and_links_both_ends() {
    let left = "Half-done: the parser. Do not touch the lexer.";
    let text = handoff_note("scribe", "main", "scribe-next", left).expect("filed");
    assert!(text.contains("Do not touch the lexer"), "its own words survive: {text}");
    assert!(text.contains("[[scribe-next]]"), "linked to who took over: {text}");
    assert!(text.contains("Project: [["), "and to the project: {text}");
    assert_eq!(notes_path("scribe"), ".horde/handoff-scribe.md");
    assert!(handoff_name("scribe", "2025-01-02").contains("scribe"));

    // An agent that left nothing has nothing to file, and that is not a failure.
    assert!(handoff_note("scribe", "main", "scribe-next", "  \n").is_none());
}

#[test]
fn a_brief_quotes_the_end_of_the_screen_and_the_state_of_the_tree() {
    let screen: Vec<String> = (0..40).map(|i| format!("line {i}  ")).collect();
    let facts = Repo { root: "/src".into(), branch: "main".into(), dirty: true };
    let b = compose_brief("builder", "/src", Some(".horde/handoff-builder.md"), Some(&facts), &screen);
    assert!(b.contains("It left notes at .horde/handoff-builder.md"), "{b}");
    assert!(b.contains("branch main") && b.contains("DIRTY"), "{b}");
    assert!(b.contains("  line 39\n") && !b.contains("line 0 "), "only the last of it: {b}");
}

#[test]
fn any_one_of_the_phrases_is_enough() {
    let phrases = vec!["one thing".to_string(), "another".to_string()];
    assert!(screen_says_any("and an\nother", &phrases));
    assert!(!screen_says_any("and nothing", &phrases));
    assert_eq!(find_profile(&free("c", &["m"], None), "free"), Some(0));
    assert_eq!(find_profile(&free("c", &["m"], None), "paid"), None);
    assert_eq!(free("run {model}", &["m"], None)[0].command(0).as_deref(), Some("run m"));
    assert_eq!(free("run {model}", &["m"], None)[0].command(1), None);
}

#[test]
fn a_successor_that_does_not_start_leaves_the_dead_one_to_be_succeeded() {
    let mut s = session_of("builder");
    let (dead, before) = (s.panes[0].id, s.panes.len());
    let ps = free("cat {model}", &["/dev/stdin"], None);
    let screen = saying("reached your usage limit");
    let mut j = Journal::new();

    let h = out_of_usage(3);
    let r = place_successor(&mut s, &h, &ps, &screen, 5, BARS, "cat", true);
    let pane = match &r {
        Succession::Started { pane, .. } => *pane,
        other => panic!("{other:?}"),
    };
    s.not_started(pane, Some(dead));
    match settle_succession(&mut s, r, Some("no such program"), &mut j, 9) {
        Succession::NotStarted { name, why } => {
            assert_eq!((name.as_str(), why.as_str()), ("builder", "no such program"));
        }
        other => panic!("{other:?}"),
    }
    assert_eq!(s.panes.len(), before);
    assert!(!s.pane(dead).unwrap().life.succeeded, "so it is tried again");
    assert!(j.entries.is_empty(), "and nobody took over");

    // At the cap there is none, and it is not asked for again.
    let r = place_successor(&mut s, &h, &ps, &screen, 0, BARS, "cat", true);
    match settle_succession(&mut s, r, None, &mut j, 9) {
        Succession::Capped { live, .. } => assert_eq!(live, 0),
        other => panic!("{other:?}"),
    }
    assert_eq!(s.panes.len(), before);
    assert!(s.pane(dead).unwrap().life.succeeded);
}
