use horde::agent::{Activity, AgentClass, AgentRuntime};
use horde::commands::{Cmd, Facts};
use horde::control::{topic, Context, Reply, Rules, Topic};
use horde::engine::Engine;
use horde::fleet::{
    fleet_size, may_remove, may_set_role, occupant, plan_spawn, read_screen, record_activity,
    roster, state_arg, Spawned,
};
use horde::pane::{Rgb, Row, Run, Screen};
use horde::proto::{AgentState, Dir};
use horde::recents::Recents;
use horde::rpc::{
    command_by_name, command_names, digest_window, may_reply, note_arg, pane_arg, request_arg,
    send_args, space_arg, trigger_arg, vault_question, worktree_origin, Arg, Code, Fault, Known,
    Param, Request,
};
use horde::starting::answer_unless;
use horde::state::{Bars, Effect, Session};
use horde::succession::Profile;
use horde::tasks::Board;
use horde::triggers::Store;

const BARS: Bars = Bars { tab_bar: true, status_bar: true, pane_titles: true };

fn agent(name: &str, state: AgentState, since: u64) -> AgentRuntime {
    AgentRuntime {
        kind: "codex".into(),
        name: name.into(),
        class: AgentClass::Agent,
        state,
        since,
        authority: "hook".into(),
        reason: "t".into(),
        seen: false,
        session_id: None,
        queued: Vec::new(),
        question: None,
        activity: Activity::none(),
        touched: Vec::new(),
        nudged_since: None,
        alerted_since: None,
    }
}

fn req(method: &str, params: Vec<(&str, Arg)>) -> Request {
    Request {
        method: method.into(),
        params: params
            .into_iter()
            .map(|(k, value)| Param { key: k.into(), value })
            .collect(),
    }
}

fn text(s: &str) -> Arg {
    Arg::Text(s.into())
}

/// An engine of idle agents, all enlisted.
fn engine(n: usize) -> Engine {
    let mut s = Session::new(true, false, 24, 30);
    s.create_space(BARS, "cat", Some("main"), "/tmp").unwrap();
    for _ in 1..n {
        s.split(BARS, "cat", None, Dir::Right, None, true).unwrap();
    }
    for (i, p) in s.panes.iter_mut().enumerate() {
        p.life.board = true;
        p.life.agent = Some(agent(&format!("worker{i}"), AgentState::Idle, 1));
    }
    Engine::new(
        s,
        Board::new(Vec::new()),
        Store::new(Vec::new()),
        Recents { list: Vec::new() },
        1_000,
    )
}

fn rules() -> Rules {
    Rules {
        bars: BARS,
        shell: "cat".into(),
        board: true,
        unattended: true,
        task_authors: Vec::new(),
        roles: vec!["pm".into()],
    }
}

fn context(eng: &Engine, role: Option<&str>) -> Context {
    Context {
        known: eng
            .session
            .panes
            .iter()
            .filter_map(|p| {
                p.life.agent.as_ref().map(|a| Known { name: a.name.clone(), pane: p.id })
            })
            .collect(),
        sender: "user".into(),
        role: role.map(|r| r.to_string()),
        cwd: Some("/tmp".into()),
        facts: Facts {
            fits: true,
            neighbour: None,
            reshaped: None,
            preset: None,
            is_dir: true,
            here: "/tmp".into(),
            accents: 8,
        },
        now: 5_000,
    }
}

fn handle(eng: &mut Engine, rules: &Rules, q: &Request) -> Result<Reply, Fault> {
    let ctx = context(eng, None);
    eng.handle(q, rules, ctx)
}

fn fault(r: Result<Reply, Fault>) -> Fault {
    match r {
        Err(f) => f,
        Ok(_) => panic!("it should have been refused"),
    }
}

/// Start an agent, as far as the library does it.
fn spawn(
    eng: &mut Engine,
    rules: &Rules,
    q: &Request,
    ps: &Vec<Profile>,
    max_fleet: usize,
    tree: Option<&str>,
) -> Result<Spawned, Fault> {
    let ctx = context(eng, None);
    let plan = plan_spawn(q, &eng.session, &ctx.known, ps, "aider", max_fleet)?;
    eng.agent_spawn(q, rules, &ctx, &plan, tree)
}

fn a_fault(r: Result<Spawned, Fault>) -> Fault {
    match r {
        Err(f) => f,
        Ok(_) => panic!("it should have been refused"),
    }
}

#[test]
fn a_fleet_spawn_lands_in_the_callers_project_not_the_focused_one() {
    let mut eng = engine(1);
    let lead = eng.session.panes[0].id;
    eng.session.panes[0].cwd = "/src/repo".into();

    // The human wanders off to a second space that is not a repository at all.
    eng.session.create_space(BARS, "cat", Some("elsewhere"), "/src/elsewhere").unwrap();
    assert_ne!(eng.session.focused_pane(), Some(lead), "the human's focus moved away");

    // The lead spawns a worktree worker.
    let q = req(
        "agent.spawn",
        vec![
            ("cmd", text("cat")),
            ("name", text("builder")),
            ("worktree", Arg::Flag(true)),
            ("from", Arg::Whole(lead)),
        ],
    );
    let ctx = context(&eng, None);
    let plan = match plan_spawn(&q, &eng.session, &ctx.known, &Vec::new(), "aider", 8) {
        Ok(p) => p,
        Err(f) => panic!("{}", f.message),
    };
    // The worktree belongs to the caller's repository.
    assert_eq!(plan.worktree, Some(("/src/repo".to_string(), "builder".to_string())));
    assert_eq!(plan.by, Some(lead));

    // ...and the new pane sits in the caller's space, in that worktree.
    let wt = "/work/repo/builder";
    let made = match eng.agent_spawn(&q, &rules(), &ctx, &plan, Some(wt)) {
        Ok(s) => s,
        Err(f) => panic!("{}", f.message),
    };
    let lead_space = eng.session.pane(lead).unwrap().space;
    let p = eng.session.pane(made.pane).unwrap();
    assert_eq!(p.space, lead_space, "the worker left the caller's project");
    assert_eq!(p.cwd, wt);
}

#[test]
fn a_spawn_that_names_nothing_starts_the_usual_agent() {
    let eng = engine(1);
    let ctx = context(&eng, None);
    let plan = |q: Request| match plan_spawn(&q, &eng.session, &ctx.known, &Vec::new(), "aider", 8) {
        Ok(p) => p.cmd,
        Err(f) => panic!("{}", f.message),
    };
    assert_eq!(plan(req("agent.spawn", vec![])), "aider");
    assert_eq!(plan(req("agent.spawn", vec![("cmd", text("cat"))])), "cat");
}

#[test]
fn an_agent_horde_started_itself_cannot_create_triggers() {
    let mut eng = engine(1);
    let pane = eng.session.panes[0].id;
    let add = |pane: u64| {
        req(
            "trigger.add",
            vec![("every", text("1h")), ("task", text("look busy")), ("from", Arg::Whole(pane))],
        )
    };

    // A pane you started: allowed.
    assert!(handle(&mut eng, &rules(), &add(pane)).is_ok());

    // The same pane, now marked as one horde started: refused, and told why.
    eng.session.panes[0].life.spawned_by = Some(7);
    let err = fault(handle(&mut eng, &rules(), &add(pane))).message;
    assert!(err.contains("trigger #7"), "the error should name the origin: {err}");
    assert!(err.contains("board"), "and point at what to do instead: {err}");

    // Putting work on the board is still fine — only rule-making is closed off.
    let q = req("task.add", vec![("text", text("real work")), ("from", Arg::Whole(pane))]);
    assert!(handle(&mut eng, &rules(), &q).is_ok());
}

#[test]
fn every_palette_name_maps_to_a_command() {
    let q = req("", vec![]);
    for name in command_names() {
        assert!(command_by_name(name, &q).is_some(), "{name} has no command");
    }
    assert!(command_by_name("nonsense", &q).is_none());
    // No two of them do the same.
    let found: Vec<_> = command_names().iter().map(|n| command_by_name(n, &q).unwrap()).collect();
    for i in 0..found.len() {
        for j in 0..i {
            assert_ne!(found[i], found[j]);
        }
    }
}

#[test]
fn dir_arg_defaults_when_absent_or_invalid() {
    let q = req("", vec![]);
    assert_eq!(q.dir_arg("direction", Dir::Right), Dir::Right);

    let q = req("", vec![("direction", text("up"))]);
    assert_eq!(q.dir_arg("direction", Dir::Right), Dir::Up);

    let q = req("", vec![("direction", text("sideways"))]);
    assert_eq!(q.dir_arg("direction", Dir::Down), Dir::Down);
}

#[test]
fn a_brief_waits_for_the_agent_it_is_for() {
    let mut eng = engine(1);
    let closed = Rules { board: false, ..rules() };
    let q = req(
        "agent.spawn",
        vec![("cmd", text("cat")), ("name", text("builder")), ("brief", text("start here"))],
    );
    match spawn(&mut eng, &closed, &q, &Vec::new(), 8, None) {
        Ok(s) => {
            assert_eq!(s.brief, Some(("builder".into(), "start here".into())));
            let p = eng.session.pane(s.pane).unwrap();
            assert!(p.life.agent.is_none(), "there is nobody to read it yet");
        }
        Err(f) => panic!("{}", f.message),
    }
}

#[test]
fn spawning_with_a_task_is_refused_when_the_board_is_closed() {
    let mut eng = engine(1);
    let closed = Rules { board: false, ..rules() };
    let q = req(
        "agent.spawn",
        vec![("cmd", text("cat")), ("name", text("w")), ("task", text("do it"))],
    );
    let e = a_fault(spawn(&mut eng, &closed, &q, &Vec::new(), 8, None));
    assert!(e.message.contains("agents.board"), "{}", e.message);
    assert!(e.message.contains("--brief"), "it should say what to use instead: {}", e.message);
}

#[test]
fn spawning_with_a_task_puts_it_on_the_board() {
    let mut eng = engine(1);
    let q = req(
        "agent.spawn",
        vec![("cmd", text("cat")), ("name", text("w")), ("task", text("do it"))],
    );
    match spawn(&mut eng, &rules(), &q, &Vec::new(), 8, None) {
        Ok(s) => assert_eq!(s.task, Some(1)),
        Err(f) => panic!("{}", f.message),
    }
    assert_eq!(eng.board.get(1).unwrap().text, "do it");
    assert_eq!(eng.board.get(1).unwrap().space.as_deref(), Some("main"));
}

#[test]
fn the_board_can_be_closed_while_the_bus_stays_open() {
    let mut eng = engine(1);
    let closed = Rules { board: false, ..rules() };

    let q = req("task.add", vec![("text", text("something"))]);
    let e = fault(handle(&mut eng, &closed, &q));
    assert!(e.message.contains("agents.board"), "{}", e.message);
    // Every board verb, not just the one that writes: claiming and listing are how an agent
    // discovers the board exists at all.
    for m in ["task.list", "task.claim", "task.work", "task.done", "task.clear"] {
        let e = fault(handle(&mut eng, &closed, &req(m, vec![])));
        assert!(e.message.contains("board is off"), "{m}: {}", e.message);
    }

    // The bus is untouched: the roster still works.
    assert!(!eng.session.panes.is_empty(), "the fixture has a pane to address");
    assert!(handle(&mut eng, &closed, &req("agent.list", vec![])).is_ok());

    // And with the board on again, the same call goes through.
    assert!(handle(&mut eng, &rules(), &req("task.list", vec![])).is_ok());
}

fn profile(cmd: &str, order: &[&str]) -> Profile {
    Profile {
        name: "free".into(),
        cmd: cmd.into(),
        order: order.iter().map(|m| m.to_string()).collect(),
        exhausted: Vec::new(),
        switch: None,
    }
}

#[test]
fn spawning_on_a_profile_runs_the_first_model_in_it() {
    let mut eng = engine(1);
    let ps = vec![profile(
        "cat --model openrouter/{model}",
        &["qwen/qwen3-coder:free", "second/model"],
    )];
    let q = req("agent.spawn", vec![("profile", text("free"))]);
    match spawn(&mut eng, &rules(), &q, &ps, 8, None) {
        Ok(s) => {
            let p = eng.session.pane(s.pane).unwrap();
            assert_eq!(p.cmd, "cat --model openrouter/qwen/qwen3-coder:free");
            assert_eq!(p.life.model.as_ref().unwrap().index, 0);
        }
        Err(f) => panic!("{}", f.message),
    }
}

#[test]
fn an_unknown_profile_is_refused_and_lists_the_real_ones() {
    let mut eng = engine(1);
    let ps = vec![profile("cat {model}", &["a"])];
    let q = req("agent.spawn", vec![("profile", text("fre"))]);
    let e = a_fault(spawn(&mut eng, &rules(), &q, &ps, 8, None));
    assert!(e.message.contains("fre"), "{}", e.message);
    assert!(e.message.contains("free"), "it should say what does exist: {}", e.message);

    // And with none defined at all, it says how to define one.
    let q = req("agent.spawn", vec![("profile", text("free"))]);
    let e = a_fault(spawn(&mut eng, &rules(), &q, &Vec::new(), 8, None));
    assert!(e.message.contains("[models.free]"), "{}", e.message);
    // The name is quoted as it was given.
    assert!(e.message.contains("\"free\""), "{}", e.message);
}

#[test]
fn an_agent_cannot_open_more_panes_than_the_fleet_cap() {
    let mut eng = engine(1);
    let from = eng.session.panes[0].id;
    let ask = |n: &str| {
        req(
            "agent.spawn",
            vec![("cmd", text("cat")), ("name", text(n)), ("from", Arg::Whole(from))],
        )
    };

    assert!(spawn(&mut eng, &rules(), &ask("a"), &Vec::new(), 2, None).is_ok());
    assert!(spawn(&mut eng, &rules(), &ask("b"), &Vec::new(), 2, None).is_ok());
    let refused = a_fault(spawn(&mut eng, &rules(), &ask("c"), &Vec::new(), 2, None));
    assert!(refused.message.contains("max_fleet"), "{}", refused.message);
    assert_eq!(fleet_size(&eng.session), 2);

    // Closing one frees its slot.
    let opened =
        eng.session.panes.iter().find(|p| p.life.spawned_by_pane == Some(from)).unwrap().id;
    eng.session.close_pane(BARS, opened);
    assert!(spawn(&mut eng, &rules(), &ask("d"), &Vec::new(), 2, None).is_ok());
}

#[test]
fn a_spawn_from_outside_a_pane_is_not_counted_against_the_fleet() {
    let mut eng = engine(1);
    for n in ["a", "b", "c"] {
        let q = req("agent.spawn", vec![("cmd", text("cat")), ("name", text(n))]);
        assert!(spawn(&mut eng, &rules(), &q, &Vec::new(), 1, None).is_ok(), "{n}");
    }
}

#[test]
fn renaming_a_space_is_reachable_from_the_control_api() {
    let mut eng = engine(1);
    let old = eng.session.spaces[0].name.clone();
    let q = req("space.rename", vec![("name", text(&old)), ("to", text("api"))]);
    match handle(&mut eng, &rules(), &q) {
        Ok(Reply::SpaceRenamed { name, .. }) => assert_eq!(name, "api"),
        _ => panic!("space.rename must exist"),
    }
    assert_eq!(eng.session.spaces[0].name, "api");
}

#[test]
fn a_renamed_space_reports_the_name_it_actually_got() {
    let mut eng = engine(1);
    eng.session.create_space(BARS, "cat", Some("api"), "/tmp").unwrap();
    let other = eng.session.spaces[0].name.clone();
    let q = req("space.rename", vec![("name", text(&other)), ("to", text("api"))]);
    match handle(&mut eng, &rules(), &q) {
        Ok(Reply::SpaceRenamed { name, .. }) => {
            assert_eq!(name, "api-2", "not the name that was asked for")
        }
        _ => panic!("space.rename must exist"),
    }
}

#[test]
fn an_agent_cannot_set_a_role_but_a_person_at_a_shell_can() {
    let mut eng = engine(2);
    let (agent_pane, target) = (eng.session.panes[0].id, eng.session.panes[1].id);
    let ask = |pane: u64, from: u64| {
        req(
            "pane.role",
            vec![("pane", Arg::Whole(pane)), ("role", text("pm")), ("from", Arg::Whole(from))],
        )
    };

    // From the agent's own pane, at itself: refused, and the error says where roles come from.
    let ctx = context(&eng, Some("pm"));
    let e = fault(eng.handle(&ask(agent_pane, agent_pane), &rules(), ctx));
    assert!(e.message.contains("cannot set a role"), "{}", e.message);
    assert!(e.message.contains("--role"), "it names the way roles are given: {}", e.message);
    assert!(eng.session.pane(agent_pane).unwrap().life.role.is_none(), "and nothing changed");

    // At somebody else, too: the hole is not only self-promotion — labelling a neighbour decides
    // what work that neighbour is handed.
    let ctx = context(&eng, Some("pm"));
    assert!(eng.handle(&ask(target, agent_pane), &rules(), ctx).is_err());

    // A pane with no agent in it is a person. Emptying it is the whole difference.
    eng.session.panes[0].life.agent = None;
    assert!(may_set_role(&eng.session, Some(agent_pane)).is_ok());
    let ctx = context(&eng, Some("pm"));
    match eng.handle(&ask(target, agent_pane), &rules(), ctx) {
        Ok(Reply::RoleSet { pane, role }) => {
            assert_eq!((pane, role.as_deref()), (target, Some("pm")))
        }
        _ => panic!("set"),
    }
    assert_eq!(eng.session.pane(target).unwrap().life.role.as_deref(), Some("pm"));

    // And an empty role clears it rather than naming nothing.
    let ctx = context(&eng, None);
    assert!(matches!(
        eng.handle(&ask(target, agent_pane), &rules(), ctx),
        Ok(Reply::RoleSet { role: None, .. })
    ));
}

#[test]
fn a_pane_is_pinned_and_unpinned() {
    let mut eng = engine(1);
    let pane = eng.session.panes[0].id;
    let toggle = req("pane.pin", vec![("pane", Arg::Whole(pane))]);
    let pinned = |r: Result<Reply, Fault>| match r {
        Ok(Reply::Pinned { pinned, .. }) => pinned,
        _ => panic!("pinned"),
    };
    assert!(pinned(handle(&mut eng, &rules(), &toggle)));
    assert!(!pinned(handle(&mut eng, &rules(), &toggle)));
    let off = req("pane.pin", vec![("pane", Arg::Whole(pane)), ("pinned", Arg::Flag(false))]);
    assert!(!pinned(handle(&mut eng, &rules(), &off)), "said outright");
    let nowhere = req("pane.pin", vec![("pane", Arg::Whole(99))]);
    assert_eq!(fault(handle(&mut eng, &rules(), &nowhere)).code, Code::NotFound);
}

#[test]
fn only_a_named_role_may_add_tasks_when_authors_are_configured() {
    let mut eng = engine(2);
    let strict = Rules { task_authors: vec!["pm".to_string()], ..rules() };
    let (worker, lead) = (eng.session.panes[0].id, eng.session.panes[1].id);
    eng.session.panes[1].life.role = Some("pm".into());

    // A worker is refused, and told what would work instead.
    let q = req("task.add", vec![("text", text("extra work")), ("from", Arg::Whole(worker))]);
    let e = fault(handle(&mut eng, &strict, &q));
    assert!(e.message.contains("task_authors"), "{}", e.message);
    assert!(e.message.contains("pm"), "it names who may: {}", e.message);
    assert!(e.message.contains("horde send"), "and what to do instead: {}", e.message);
    assert_eq!(eng.board.open_count(), 0, "and nothing was written");

    // The lead may.
    let q = req("task.add", vec![("text", text("real work")), ("from", Arg::Whole(lead))]);
    assert!(handle(&mut eng, &strict, &q).is_ok());
    assert_eq!(eng.board.open_count(), 1);

    // And the human is never gated: a call from outside a pane is a person at a keyboard, and a
    // board its owner cannot add to is not a feature.
    let q = req("task.add", vec![("text", text("mine")), ("from", Arg::Null)]);
    assert!(handle(&mut eng, &strict, &q).is_ok());
    assert_eq!(eng.board.open_count(), 2);
}

#[test]
fn adding_work_for_a_role_nobody_has_says_so() {
    let mut eng = engine(1);
    let pane = eng.session.panes[0].id;

    let q = req("task.add", vec![("text", text("review it")), ("from", Arg::Whole(pane))]);
    let ctx = context(&eng, Some("reader"));
    let warning = match eng.handle(&q, &rules(), ctx) {
        Ok(Reply::Added { warning, .. }) => warning.expect("it must warn"),
        _ => panic!("added"),
    };
    assert!(warning.contains("reader"), "{warning}");
    assert!(warning.contains("--role reader"), "and how to fix it: {warning}");

    // With one enlisted there is nothing to warn about.
    eng.session.panes[0].life.role = Some("reader".into());
    let ctx = context(&eng, Some("reader"));
    match eng.handle(&q, &rules(), ctx) {
        Ok(Reply::Added { warning, .. }) => assert_eq!(warning, None, "somebody can take it"),
        _ => panic!("added"),
    }
}

#[test]
fn role_list_counts_every_pane_wearing_each_role() {
    let mut eng = engine(2);
    for p in eng.session.panes.iter_mut() {
        p.life.role = Some("reader".into());
    }
    let rows = match handle(&mut eng, &rules(), &req("role.list", vec![])) {
        Ok(Reply::RoleList(rows)) => rows,
        _ => panic!("listed"),
    };
    let row = rows.iter().find(|r| r.name == "reader").unwrap();
    assert_eq!(row.panes, eng.session.panes.len());
    assert!(!row.declared, "it works without being declared");
    let row = rows.iter().find(|r| r.name == "pm").unwrap();
    assert_eq!((row.panes, row.declared), (0, true), "and one that nobody has is listed too");
}

// -- arguments ----------------------------------------------------------------------

#[test]
fn arguments_are_read_by_their_kind() {
    let q = req(
        "x",
        vec![
            ("t", text("words")),
            ("n", Arg::Whole(7)),
            ("m", Arg::Negative(-3)),
            ("f", Arg::Flag(true)),
            ("o", Arg::Other),
        ],
    );
    assert_eq!(q.str_arg("t"), Some("words"));
    assert_eq!(q.str_arg("n"), None);
    assert_eq!((q.u64_arg("n"), q.u64_arg("m")), (Some(7), None));
    assert_eq!((q.i64_arg("n"), q.i64_arg("m")), (Some(7), Some(-3)));
    assert_eq!((q.flag_arg("f"), q.flag_arg("t")), (Some(true), None));
    assert!(q.bool_arg("f") && !q.bool_arg("o"));
    assert!(q.get("missing").is_none());
}

#[test]
fn a_pane_is_named_by_number_or_by_its_agent() {
    let eng = engine(2);
    let ks = context(&eng, None).known;
    let second = eng.session.panes[1].id;
    let q = req("x", vec![("pane", text("worker1"))]);
    assert_eq!(pane_arg(&q, &ks, "pane"), Some(second));
    let q = req("x", vec![("pane", Arg::Whole(9))]);
    assert_eq!(pane_arg(&q, &ks, "pane"), Some(9));
    let q = req("x", vec![("pane", text("nobody"))]);
    assert_eq!(pane_arg(&q, &ks, "pane"), None);
}

#[test]
fn what_is_missing_is_asked_for() {
    let eng = engine(1);
    let q = req("x", vec![]);
    for f in [
        trigger_arg(&q).unwrap_err(),
        request_arg(&q).unwrap_err(),
        send_args(&q).unwrap_err(),
        state_arg(&q).unwrap_err(),
    ] {
        assert_eq!(f.code, Code::BadRequest, "{}", f.message);
        assert_eq!(f.code.word(), "bad_request");
    }
    assert_eq!(space_arg(&q, &eng.session), Ok(eng.session.spaces[0].id), "the one in front");
    let named = req("x", vec![("name", text("nowhere"))]);
    assert_eq!(space_arg(&named, &eng.session).unwrap_err().code, Code::NotFound);
    assert!(may_reply(3, None).is_err());
    assert!(may_reply(3, Some(false)).is_err());
    assert!(may_reply(3, Some(true)).is_ok());
}

#[test]
fn an_unknown_method_is_not_found_and_others_go_to_their_topic() {
    let mut eng = engine(1);
    let e = fault(handle(&mut eng, &rules(), &req("no.such", vec![])));
    assert!(e.message.contains("no.such"), "{}", e.message);
    assert!(matches!(
        handle(&mut eng, &rules(), &req("bus.send", vec![])),
        Ok(Reply::Elsewhere(Topic::Bus))
    ));
    assert_eq!(topic("agent.spawn"), Some(Topic::Spawn));
    assert!(matches!(handle(&mut eng, &rules(), &req("ping", vec![])), Ok(Reply::Pong)));
    assert!(matches!(
        handle(&mut eng, &rules(), &req("server.stop", vec![])),
        Ok(Reply::Stopping)
    ));
}

#[test]
fn a_task_goes_round_through_the_control_api() {
    let mut eng = engine(1);
    let pane = eng.session.panes[0].id;
    let q = req("task.add", vec![("text", text("x")), ("from", Arg::Whole(pane))]);
    match handle(&mut eng, &rules(), &q) {
        Ok(Reply::Added { task, warning }) => {
            assert_eq!((task.id, warning), (1, None));
            assert_eq!(task.space.as_deref(), Some("main"), "scoped to where it was asked");
        }
        _ => panic!("added"),
    }
    match handle(&mut eng, &rules(), &req("task.claim", vec![("from", Arg::Whole(pane))])) {
        Ok(Reply::Task(t)) => assert_eq!(t.owner.as_deref(), Some("user")),
        _ => panic!("claimed"),
    }
    assert!(matches!(
        handle(&mut eng, &rules(), &req("task.claim", vec![("from", Arg::Whole(pane))])),
        Ok(Reply::NoTask)
    ));
    assert!(handle(&mut eng, &rules(), &req("task.done", vec![("result", text("ok"))])).is_ok());
    assert_eq!(eng.board.get(1).unwrap().result.as_deref(), Some("ok"));
}

#[test]
fn a_digest_covers_what_was_asked_or_what_was_missed() {
    let q = req("digest", vec![]);
    assert_eq!(digest_window(&q, 0, 500, 9_000), 500, "never read: since the start");
    assert_eq!(digest_window(&q, 700, 500, 9_000), 700);
}

#[test]
fn a_note_is_written_where_and_as_asked() {
    let eng = engine(1);
    let q = req(
        "vault.write",
        vec![("path", text("A.md")), ("body", text("body")), ("append", Arg::Flag(true))],
    );
    match note_arg(&q, &eng.session, "untitled", Some("worker0")) {
        Ok(w) => assert_eq!(w.path, "A.md"),
        Err(f) => panic!("{}", f.message),
    }
    assert!(note_arg(&req("vault.write", vec![]), &eng.session, "untitled", None).is_err());
    assert!(vault_question(&req("vault.list", vec![]), &eng.session).is_ok());
    let ks = context(&eng, None).known;
    assert_eq!(worktree_origin(&req("x", vec![]), &eng.session, &ks).unwrap(), "/tmp");
}

#[test]
fn a_tree_somebody_works_in_is_not_removed() {
    let mut eng = engine(1);
    eng.session.panes[0].cwd = "/work/a".into();
    let pane = eng.session.panes[0].id;
    assert_eq!(occupant(&eng.session, "/work/a"), Some(pane));
    let f = may_remove(&eng.session, "a", "/work/a").unwrap_err();
    assert!(f.message.contains("still working in a"), "{}", f.message);
    assert!(may_remove(&eng.session, "b", "/work/b").is_ok());
}

#[test]
fn what_a_hook_reports_is_counted() {
    let mut a = agent("w", AgentState::Working, 1);
    let q = req(
        "agent.report",
        vec![
            ("new_turn", Arg::Flag(true)),
            ("counts_tool", Arg::Flag(true)),
            ("tool", text("Edit")),
            ("file", text("/src/a.rs")),
        ],
    );
    record_activity(&mut a, &q);
    record_activity(&mut a, &req("agent.report", vec![("tool_failed", Arg::Flag(true))]));
    assert_eq!((a.activity.turns, a.activity.tools), (1, 1));
    assert_eq!((a.activity.files, a.activity.errors), (1, 1));
    assert_eq!(a.activity.last_tool.as_deref(), Some("Edit"));
    assert_eq!(state_arg(&req("x", vec![("state", text("blocked"))])), Ok(AgentState::Blocked));
}

#[test]
fn the_roster_and_the_screen_are_read_as_they_are() {
    let eng = engine(2);
    let lines = roster(&eng.session, 61_001);
    assert_eq!(lines.len(), 2);
    assert_eq!((lines[0].info.name.as_str(), lines[0].space.as_str()), ("worker0", "main"));
    assert_eq!(lines[0].info.elapsed, 61, "in seconds");

    let mut s = Screen::new(3);
    for (y, t) in ["one", "two", ""].iter().enumerate() {
        let c = Rgb { r: 0, g: 0, b: 0 };
        s.take_row(y, Row { runs: vec![Run { text: t.to_string(), fg: c, bg: c, attrs: 0 }] });
    }
    assert_eq!(read_screen(&s, "visible", 10).len(), 3);
    assert_eq!(read_screen(&s, "recent", 2), vec!["two".to_string(), String::new()]);
}

#[test]
fn a_palette_command_can_be_run_by_name() {
    let mut eng = engine(1);
    let q = req("command", vec![("name", text("split-right"))]);
    assert!(matches!(handle(&mut eng, &rules(), &q), Ok(Reply::Ran { .. })));
    assert_eq!(eng.session.panes.len(), 2);
    assert_eq!(command_by_name("zoom", &q), Some(Cmd::ToggleZoom));
}

#[test]
fn an_accent_can_be_set_or_cycled_over_the_control_api() {
    let mut eng = engine(1);
    let (rules, name) = (rules(), eng.session.spaces[0].name.clone());
    let set = req("space.accent", vec![("name", text(&name)), ("slot", Arg::Whole(3))]);
    match handle(&mut eng, &rules, &set) {
        Ok(Reply::Accent { slot, .. }) => assert_eq!(slot, 3),
        _ => panic!("the accent was not set"),
    }
    // Omitting the slot steps to the next one, so a caller with no snapshot can still move it.
    let step = req("space.accent", vec![("name", text(&name))]);
    match handle(&mut eng, &rules, &step) {
        Ok(Reply::Accent { slot, .. }) => assert_eq!(slot, 4),
        _ => panic!("the accent was not stepped"),
    }
    // After the last one comes the first.
    for _ in 4..8 {
        assert!(handle(&mut eng, &rules, &step).is_ok());
    }
    assert_eq!(eng.session.look(eng.session.spaces[0].id).slot, 0);
    let other = req("space.accent", vec![("name", text("nowhere"))]);
    assert!(handle(&mut eng, &rules, &other).is_err(), "there is no such space");
}

#[test]
fn a_space_is_folded_and_unfolded_over_the_control_api() {
    let mut eng = engine(1);
    let (rules, id) = (rules(), eng.session.spaces[0].id);
    let fold = |eng: &mut Engine, more: Vec<(&str, Arg)>| {
        let mut args = vec![("space", Arg::Whole(id))];
        args.extend(more);
        match handle(eng, &rules, &req("space.collapse", args)) {
            Ok(Reply::Collapsed { space, collapsed }) => {
                assert_eq!(space, id);
                collapsed
            }
            _ => panic!("the space was not folded"),
        }
    };
    assert!(fold(&mut eng, vec![]), "without a word it turns over");
    assert!(!fold(&mut eng, vec![]));
    assert!(fold(&mut eng, vec![("collapsed", Arg::Flag(true))]));
    assert!(fold(&mut eng, vec![("collapsed", Arg::Flag(true))]), "and with one it stays");
    assert!(eng.session.look(id).collapsed);
}

#[test]
fn an_agent_whose_program_does_not_start_was_never_there() {
    let mut eng = engine(2);
    let (front, before) = (eng.session.focused_pane(), eng.session.visible_panes());
    eng.session.effects.clear();
    let q = req("agent.spawn", vec![("cmd", text("nosuch")), ("name", text("b"))]);
    let ctx = context(&eng, None);
    let plan = match plan_spawn(&q, &eng.session, &ctx.known, &Vec::new(), "aider", 8) {
        Ok(p) => p,
        Err(f) => panic!("{}", f.message),
    };
    let pane = match eng.agent_begin(&q, &rules(), &ctx, &plan, None) {
        Ok(p) => p,
        Err(f) => panic!("{}", f.message),
    };
    let was = match eng.session.effects.last() {
        Some(Effect::Spawn { pane: p, cmd, front, .. }) => {
            assert_eq!((*p, cmd.as_str()), (pane, "nosuch"));
            *front
        }
        _ => panic!("its program is to be started"),
    };
    assert_eq!(was, front, "what was in front is remembered");
    eng.session.not_started(pane, was);
    assert!(eng.session.pane(pane).is_none());
    assert_eq!(eng.session.focused_pane(), front);
    assert_eq!(eng.session.visible_panes(), before, "and its neighbour has the room back");

    // One that does start is called what was asked.
    let pane = match eng.agent_begin(&q, &rules(), &ctx, &plan, None) {
        Ok(p) => p,
        Err(f) => panic!("{}", f.message),
    };
    let made = match eng.agent_finish(&q, &rules(), &ctx, &plan, pane) {
        Ok(s) => s,
        Err(f) => panic!("{}", f.message),
    };
    assert_eq!(made.pane, pane);
    assert_eq!(eng.session.pane(pane).unwrap().name.as_deref(), Some("b"));
}

#[test]
fn a_call_whose_program_does_not_start_is_refused_with_the_reason() {
    let mut eng = engine(1);
    let rules = rules();
    let r = handle(&mut eng, &rules, &req("pane.split", vec![]));
    assert!(r.is_ok());
    let f = fault(answer_unless(r, Some("no such program")));
    assert_eq!(f.message, "no such program");
    let r = handle(&mut eng, &rules, &req("pane.split", vec![]));
    assert!(answer_unless(r, None).is_ok(), "and one whose program did start is not");
    let r = handle(&mut eng, &rules, &req("space.accent", vec![("name", text("nowhere"))]));
    let said = fault(answer_unless(r, Some("no such program"))).message;
    assert_ne!(said, "no such program", "what was refused already is refused for that");
    // A command that is run by its name says so in a notice.
    let r = handle(&mut eng, &rules, &req("command", vec![("name", text("split-right"))]));
    match answer_unless(r, Some("no such program")) {
        Ok(Reply::Ran { .. }) => {}
        Ok(_) => panic!("not a command"),
        Err(f) => panic!("{}", f.message),
    }
}
