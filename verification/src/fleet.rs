//! Agents as a fleet: starting them, listing them, and what they may not do.

use crate::agent::{ActivityView, AgentClass, AgentInfo, AgentInfoView, AgentRuntime};
use crate::control::{Context, Rules};
use crate::engine::{Engine, EngineView};
use crate::pane::{detected, shown, Screen};
use crate::paths::{same_path, same_place};
use crate::proto::{AgentState, Dir};
use crate::rpc::{
    bad, bad_of, failed, failed_of, known_views, pane_arg, pane_named_by, refusal, Arg, ArgView,
    Fault, FaultView, Known, Request, RequestView,
};
use crate::seqs::{
    count_where, first_where, lemma_count_take, lemma_first_where_is, lemma_pick_take, pick,
};
use crate::state::{
    splitting_in, ModelRun, ModelRunView, Pane, PaneLifeView, PaneView, Session, SessionView,
    SpaceView, TabView,
};
use crate::succession::{find_profile, profile_of, profile_views, Profile, ProfileView};
use crate::tasks::{adding, listed};
use crate::text::{
    as_opt, copy_texts, decimal, join, joined, number, opt_str, opt_text, ordered, own_opt, owned,
    quote, quoted, same, sort_unique, texts, trim, trimmed,
};
use vstd::prelude::*;
use vstd::string::*;

verus! {

// -- starting an agent -------------------------------------------------------

/// What starting an agent comes to, before anything is started.
#[derive(Debug, Clone, PartialEq, Eq)]
pub struct SpawnPlan {
    pub cmd: String,
    /// The list of models it runs on.
    pub profile: Option<String>,
    pub dir: Dir,
    pub name: Option<String>,
    /// The pane that asked, where one did.
    pub by: Option<u64>,
    /// A worktree to make first: from where, and under which name.
    pub worktree: Option<(String, String)>,
}

/// The same, as values.
pub struct SpawnPlanView {
    pub cmd: Seq<char>,
    pub profile: Option<Seq<char>>,
    pub dir: Dir,
    pub name: Option<Seq<char>>,
    pub by: Option<u64>,
    pub worktree: Option<(Seq<char>, Seq<char>)>,
}

impl View for SpawnPlan {
    type V = SpawnPlanView;

    open spec fn view(&self) -> SpawnPlanView {
        SpawnPlanView {
            cmd: self.cmd@,
            profile: opt_text(self.profile),
            dir: self.dir,
            name: opt_text(self.name),
            by: self.by,
            worktree: match self.worktree {
                Some((a, b)) => Some((a@, b@)),
                None => None,
            },
        }
    }
}

/// The names of profiles.
pub open spec fn profile_names(ps: Seq<ProfileView>) -> Seq<Seq<char>> {
    Seq::new(ps.len(), |i: int| ps[i].name)
}

/// What is said of a profile that is not there. Refused rather than defaulted: the wrong agent
/// on the wrong budget is the wrong direction to fail in.
pub open spec fn no_profile_text(ps: Seq<ProfileView>, name: Seq<char>) -> Seq<char> {
    if ps.len() == 0 {
        "no model profile "@ + quoted(name) + " — none are defined; add a [models."@ + name
            + "] block to config.toml"@
    } else {
        "no model profile "@ + quoted(name) + " — defined: "@ + joined(
            ordered(profile_names(ps)),
            ", "@,
        )
    }
}

/// The command to start: the first model of a profile, or what was given, or else the usual.
pub open spec fn command_for(q: RequestView, ps: Seq<ProfileView>, usual: Seq<char>) -> Result<
    Seq<char>,
    FaultView,
> {
    match q.text("profile"@) {
        Some(p) => match profile_of(ps, p) {
            None => Err(failed_of(no_profile_text(ps, p))),
            Some(found) => match found.command_of(0) {
                Some(c) => Ok(c),
                None => Err(
                    failed_of("model profile "@ + quoted(p) + " lists no models"@),
                ),
            },
        },
        None => match q.text("cmd"@) {
            Some(c) => Ok(c),
            None => Ok(usual),
        },
    }
}

/// A pane that an agent opened and that still runs.
pub open spec fn opened_by_agent() -> spec_fn(PaneView) -> bool {
    |p: PaneView| p.life.spawned_by_pane is Some && !p.life.exited
}

/// What is said when agents have as many panes as they may.
pub open spec fn fleet_full_text(live: nat) -> Seq<char> {
    "agents already have "@ + decimal(live)
        + " panes open, which is the limit (agents.max_fleet). Close some, or raise it in config.toml."@
}

/// The pane that asked, where it is there.
pub open spec fn asking_pane(q: RequestView, s: SessionView, ks: Seq<(Seq<char>, u64)>) -> Option<u64> {
    match pane_named_by(q, ks, "from"@) {
        Some(p) if s.has_pane(p) => Some(p),
        _ => None,
    }
}

/// The worktree that is wanted: named after the agent unless it says otherwise, and rooted
/// where the agent that asked works.
pub open spec fn worktree_wanted(q: RequestView, s: SessionView, by: Option<u64>) -> Result<
    Option<(Seq<char>, Seq<char>)>,
    FaultView,
> {
    match q.get("worktree"@) {
        None => Ok(None),
        Some(ArgView::Null) => Ok(None),
        Some(ArgView::Flag(false)) => Ok(None),
        Some(v) => {
            let want = match v {
                ArgView::Text(t) => Some(t),
                _ => q.text("name"@),
            };
            let at = match by {
                Some(p) => Some(p),
                None => s.front_pane(),
            };
            match (want, at) {
                (None, _) => Err(bad_of("--worktree needs a name, or give the agent one"@)),
                (Some(w), Some(p)) if s.has_pane(p) => Ok(
                    Some((s.panes[s.pane_at(p)].cwd, w)),
                ),
                _ => Err(failed_of("no pane to take a directory from"@)),
            }
        },
    }
}

/// What starting an agent comes to. One that an agent asked for counts against the fleet, and
/// one that a person asked for does not.
pub open spec fn spawn_planned(
    q: RequestView,
    s: SessionView,
    ks: Seq<(Seq<char>, u64)>,
    ps: Seq<ProfileView>,
    usual: Seq<char>,
    max_fleet: nat,
) -> Result<SpawnPlanView, FaultView> {
    let by = asking_pane(q, s, ks);
    let live = count_where(s.panes, opened_by_agent());
    match command_for(q, ps, usual) {
        Err(f) => Err(f),
        Ok(cmd) => if by is Some && live >= max_fleet {
            Err(failed_of(fleet_full_text(live)))
        } else {
            match worktree_wanted(q, s, by) {
                Err(f) => Err(f),
                Ok(worktree) => Ok(
                    SpawnPlanView {
                        cmd,
                        profile: q.text("profile"@),
                        dir: q.direction("split"@, Dir::Right),
                        name: q.text("name"@),
                        by,
                        worktree,
                    },
                ),
            }
        },
    }
}

/// The names of profiles, in order.
fn names_of(ps: &Vec<Profile>) -> (r: Vec<String>)
    ensures
        texts(r@) == ordered(profile_names(profile_views(ps@))),
{
    let ghost want = profile_names(profile_views(ps@));
    let mut out: Vec<String> = Vec::new();
    let mut i: usize = 0;
    while i < ps.len()
        invariant
            i <= ps@.len(),
            want == profile_names(profile_views(ps@)),
            out@.len() == i,
            forall|j: int| 0 <= j < i ==> (#[trigger] out@[j])@ == want[j],
        decreases ps@.len() - i,
    {
        out.push(ps[i].name.clone());
        i = i + 1;
    }
    proof {
        assert(texts(out@) =~= want);
    }
    sort_unique(&out)
}

/// The command to start.
fn spawn_command(q: &Request, ps: &Vec<Profile>, usual: &str) -> (r: Result<String, Fault>)
    ensures
        match r {
            Ok(c) => command_for(q@, profile_views(ps@), usual@) == Ok::<Seq<char>, FaultView>(c@),
            Err(f) => command_for(q@, profile_views(ps@), usual@) == Err::<Seq<char>, FaultView>(f@),
        },
{
    let name = match q.str_arg("profile") {
        Some(p) => p,
        None => {
            return match q.str_arg("cmd") {
                Some(c) => Ok(owned(c)),
                None => Ok(owned(usual)),
            };
        },
    };
    match find_profile(ps, name) {
        None => {
            let mut m = owned("no model profile ");
            m.append(quote(name).as_str());
            if ps.len() == 0 {
                m.append(" — none are defined; add a [models.");
                m.append(name);
                m.append("] block to config.toml");
            } else {
                m.append(" — defined: ");
                m.append(join(&names_of(ps), ", ").as_str());
            }
            Err(failed(m.as_str()))
        },
        Some(i) => match ps[i].command(0) {
            Some(c) => Ok(c),
            None => {
                let mut m = owned("model profile ");
                m.append(quote(name).as_str());
                m.append(" lists no models");
                Err(failed(m.as_str()))
            },
        },
    }
}

/// How many panes agents opened that still run.
pub fn fleet_size(s: &Session) -> (r: usize)
    ensures
        r as nat == count_where(s@.panes, opened_by_agent()),
{
    let mut n: usize = 0;
    let mut i: usize = 0;
    proof {
        assert(s@.panes.take(0) =~= Seq::<PaneView>::empty());
    }
    while i < s.panes.len()
        invariant
            i <= s.panes@.len(),
            n <= i,
            n as nat == count_where(s@.panes.take(i as int), opened_by_agent()),
        decreases s.panes@.len() - i,
    {
        proof {
            lemma_count_take(s@.panes, opened_by_agent(), i as int);
        }
        if s.panes[i].life.spawned_by_pane.is_some() && !s.panes[i].life.exited {
            n = n + 1;
        }
        i = i + 1;
    }
    proof {
        assert(s@.panes.take(i as int) =~= s@.panes);
    }
    n
}

/// The worktree that is wanted.
fn worktree_arg(q: &Request, s: &Session, by: Option<u64>) -> (r: Result<
    Option<(String, String)>,
    Fault,
>)
    ensures
        match r {
            Ok(None) => worktree_wanted(q@, s@, by) == Ok::<
                Option<(Seq<char>, Seq<char>)>,
                FaultView,
            >(None),
            Ok(Some((a, b))) => worktree_wanted(q@, s@, by) == Ok::<
                Option<(Seq<char>, Seq<char>)>,
                FaultView,
            >(Some((a@, b@))),
            Err(f) => worktree_wanted(q@, s@, by) == Err::<
                Option<(Seq<char>, Seq<char>)>,
                FaultView,
            >(f@),
        },
{
    let want = match q.get("worktree") {
        None => {
            return Ok(None);
        },
        Some(Arg::Null) => {
            return Ok(None);
        },
        Some(Arg::Flag(false)) => {
            return Ok(None);
        },
        Some(Arg::Text(t)) => Some(t.clone()),
        Some(_) => own_opt(q.str_arg("name")),
    };
    let want = match want {
        Some(w) => w,
        None => {
            return Err(bad("--worktree needs a name, or give the agent one"));
        },
    };
    let at = match by {
        Some(p) => Some(p),
        None => s.focused_pane(),
    };
    match at {
        Some(p) => match s.pane(p) {
            Some(pane) => Ok(Some((pane.cwd.clone(), want))),
            None => Err(failed("no pane to take a directory from")),
        },
        None => Err(failed("no pane to take a directory from")),
    }
}

/// Work out what starting an agent comes to. `usual` is the program that an agent is unless
/// another is named.
pub fn plan_spawn(
    q: &Request,
    s: &Session,
    ks: &Vec<Known>,
    ps: &Vec<Profile>,
    usual: &str,
    max_fleet: usize,
) -> (r: Result<SpawnPlan, Fault>)
    ensures
        match r {
            Ok(p) => spawn_planned(
                q@,
                s@,
                known_views(ks@),
                profile_views(ps@),
                usual@,
                max_fleet as nat,
            ) == Ok::<SpawnPlanView, FaultView>(p@),
            Err(f) => spawn_planned(
                q@,
                s@,
                known_views(ks@),
                profile_views(ps@),
                usual@,
                max_fleet as nat,
            ) == Err::<SpawnPlanView, FaultView>(f@),
        },
{
    let cmd = match spawn_command(q, ps, usual) {
        Ok(c) => c,
        Err(f) => {
            return Err(f);
        },
    };
    let by = match pane_arg(q, ks, "from") {
        Some(p) => if s.pane(p).is_some() {
            Some(p)
        } else {
            None
        },
        None => None,
    };
    if by.is_some() {
        let live: usize = fleet_size(s);
        if live >= max_fleet {
            let mut m = owned("agents already have ");
            m.append(number(live as u64).as_str());
            m.append(
                " panes open, which is the limit (agents.max_fleet). Close some, or raise it in config.toml.",
            );
            return Err(failed(m.as_str()));
        }
    }
    let worktree = match worktree_arg(q, s, by) {
        Ok(w) => w,
        Err(f) => {
            return Err(f);
        },
    };
    Ok(
        SpawnPlan {
            cmd,
            profile: own_opt(q.str_arg("profile")),
            dir: q.dir_arg("split", Dir::Right),
            name: own_opt(q.str_arg("name")),
            by,
            worktree,
        },
    )
}

/// An agent that was started.
#[derive(Debug, Clone, PartialEq, Eq)]
pub struct Spawned {
    pub pane: u64,
    /// Its first job, on the board.
    pub task: Option<u64>,
    /// Its first instruction and whom to hold it for, until it is there to read it.
    pub brief: Option<(String, String)>,
}

/// The same, as values.
pub struct SpawnedView {
    pub pane: u64,
    pub task: Option<u64>,
    pub brief: Option<(Seq<char>, Seq<char>)>,
}

impl View for Spawned {
    type V = SpawnedView;

    open spec fn view(&self) -> SpawnedView {
        SpawnedView {
            pane: self.pane,
            task: self.task,
            brief: match self.brief {
                Some((a, b)) => Some((a@, b@)),
                None => None,
            },
        }
    }
}

/// A new pane, told what it is for.
pub open spec fn outfitted(
    p: PaneView,
    plan: SpawnPlanView,
    role: Option<Seq<char>>,
    board: bool,
) -> PaneView {
    PaneView {
        name: match plan.name {
            Some(n) => Some(n),
            None => p.name,
        },
        life: PaneLifeView {
            model: match plan.profile {
                Some(profile) => Some(ModelRunView { profile, index: 0, switched: None }),
                None => p.life.model,
            },
            role: match role {
                Some(r) => Some(r),
                None => p.life.role,
            },
            board: board || p.life.board,
            spawned_by_pane: plan.by,
            ..p.life
        },
        ..p
    }
}

/// A session with a new pane told what it is for.
pub open spec fn outfitting(
    s: SessionView,
    id: u64,
    plan: SpawnPlanView,
    role: Option<Seq<char>>,
    board: bool,
) -> SessionView {
    let i = s.pane_at(id);
    if i < s.panes.len() {
        SessionView { panes: s.panes.update(i, outfitted(s.panes[i], plan, role, board)), ..s }
    } else {
        s
    }
}

/// The name of the space a pane is in.
pub open spec fn space_name_of(s: SessionView, pane: u64) -> Option<Seq<char>> {
    if s.has_pane(pane) && s.has_space(s.panes[s.pane_at(pane)].space) {
        Some(s.spaces[s.space_at(s.panes[s.pane_at(pane)].space)].name)
    } else {
        None
    }
}

/// What is said of a first job while the board is off.
pub open spec fn no_board_text() -> Seq<char> {
    "the task board is off (agents.board) — use --brief to give the new agent its first instruction instead"@
}

/// The first instruction of an agent, and the name it will answer to.
pub open spec fn brief_of(q: RequestView, plan: SpawnPlanView, pane: u64) -> Option<
    (Seq<char>, Seq<char>),
> {
    match q.text("brief"@) {
        Some(t) if trimmed(t).len() > 0 => Some(
            (
                match plan.name {
                    Some(n) => n,
                    None => decimal(pane as nat),
                },
                t,
            ),
        ),
        _ => None,
    }
}

/// What placing an agent does, with its worktree made where it has one. It comes up beside the
/// pane that asked: the focused pane is wherever a person happens to be looking.
pub open spec fn agent_begun(
    e: EngineView,
    q: RequestView,
    rules: Rules,
    ctx: Context,
    plan: SpawnPlanView,
    tree: Option<Seq<char>>,
) -> (EngineView, Result<u64, FaultView>) {
    let (s, r) = splitting_in(
        e.session,
        rules.bars,
        rules.shell@,
        plan.by,
        plan.dir,
        Some(plan.cmd),
        tree,
        ctx.facts.fits,
    );
    match r {
        Err(x) => (EngineView { session: s, ..e }, Err(failed_of(x.message()))),
        Ok(id) => (
            EngineView {
                session: outfitting(s, id, plan, opt_text(ctx.role), q.is_on("board"@)),
                ..e
            },
            Ok(id),
        ),
    }
}

/// What is left to do for an agent that has started: its first task, and what it is told.
pub open spec fn agent_finished(
    e: EngineView,
    q: RequestView,
    rules: Rules,
    ctx: Context,
    plan: SpawnPlanView,
    id: u64,
) -> (EngineView, Result<SpawnedView, FaultView>) {
    let brief = brief_of(q, plan, id);
    match q.text("task"@) {
        Some(_) if !rules.board => (e, Err(failed_of(no_board_text()))),
        Some(text) => {
            let (b, added) = adding(
                e.board,
                text,
                ctx.sender@,
                space_name_of(e.session, id),
                ctx.now,
            );
            match added {
                Err(x) => (EngineView { board: b, ..e }, Err(failed_of(x.message()))),
                Ok(task) => (
                    EngineView { board: b, dirty_shape: true, detect_soon: true, ..e },
                    Ok(SpawnedView { pane: id, task: Some(task.id), brief }),
                ),
            }
        },
        None => (
            EngineView { dirty_shape: true, detect_soon: true, ..e },
            Ok(SpawnedView { pane: id, task: None, brief }),
        ),
    }
}

/// What starting an agent does, where its program starts.
pub open spec fn spawning(
    e: EngineView,
    q: RequestView,
    rules: Rules,
    ctx: Context,
    plan: SpawnPlanView,
    tree: Option<Seq<char>>,
) -> (EngineView, Result<SpawnedView, FaultView>) {
    match agent_begun(e, q, rules, ctx, plan, tree) {
        (there, Err(f)) => (there, Err(f)),
        (there, Ok(id)) => agent_finished(there, q, rules, ctx, plan, id),
    }
}

/// An agent that was started, or why it was not, as values.
pub open spec fn spawned_outcome(r: Result<Spawned, Fault>) -> Result<SpawnedView, FaultView> {
    match r {
        Ok(x) => Ok(x@),
        Err(f) => Err(f@),
    }
}

/// Tell a new pane what it is for.
fn outfit_pane(p: &mut Pane, plan: &SpawnPlan, role: &Option<String>, board: bool)
    ensures
        final(p)@ == outfitted(old(p)@, plan@, opt_text(*role), board),
{
    if let Some(n) = &plan.name {
        p.name = Some(n.clone());
    }
    if let Some(profile) = &plan.profile {
        p.life.model = Some(ModelRun { profile: profile.clone(), index: 0, switched: None });
    }
    if let Some(r) = role {
        p.life.role = Some(r.clone());
    }
    if board {
        p.life.board = true;
    }
    p.life.spawned_by_pane = plan.by;
}

impl Engine {
    /// Tell a new pane what it is for.
    fn outfit(&mut self, id: u64, plan: &SpawnPlan, role: &Option<String>, board: bool)
        ensures
            final(self)@ == (EngineView {
                session: outfitting(old(self)@.session, id, plan@, opt_text(*role), board),
                ..old(self)@
            }),
            old(self)@.wf() ==> final(self)@.wf(),
    {
        let i: usize = self.session.pane_index(id);
        if i >= self.session.panes.len() {
            return;
        }
        let ghost before = self@.session;
        outfit_pane(&mut self.session.panes[i], plan, role, board);
        proof {
            assert(self@.session.panes =~= before.panes.update(
                i as int,
                outfitted(before.panes[i as int], plan@, opt_text(*role), board),
            ));
        }
    }

    /// Place an agent as planned. `tree` is the worktree that was made for it. What is left
    /// follows with [`Engine::agent_finish`], once its program has started.
    pub fn agent_begin(
        &mut self,
        q: &Request,
        rules: &Rules,
        ctx: &Context,
        plan: &SpawnPlan,
        tree: Option<&str>,
    ) -> (r: Result<u64, Fault>)
        requires
            old(self)@.ready(),
        ensures
            (final(self)@, refusal(r)) == agent_begun(
                old(self)@,
                q@,
                *rules,
                *ctx,
                plan@,
                opt_str(tree),
            ),
            final(self)@.wf(),
            final(self)@.board == old(self)@.board,
    {
        let id: u64 = match self.session.split_in(
            rules.bars,
            rules.shell.as_str(),
            plan.by,
            plan.dir,
            Some(plan.cmd.as_str()),
            tree,
            ctx.facts.fits,
        ) {
            Ok(id) => id,
            Err(x) => {
                return Err(failed(x.message().as_str()));
            },
        };
        self.outfit(id, plan, &ctx.role, q.bool_arg("board"));
        Ok(id)
    }

    /// Do what is left for an agent that has started.
    pub fn agent_finish(
        &mut self,
        q: &Request,
        rules: &Rules,
        ctx: &Context,
        plan: &SpawnPlan,
        id: u64,
    ) -> (r: Result<Spawned, Fault>)
        requires
            old(self)@.wf(),
            old(self)@.board.next_id < u64::MAX,
        ensures
            (final(self)@, spawned_outcome(r)) == agent_finished(
                old(self)@,
                q@,
                *rules,
                *ctx,
                plan@,
                id,
            ),
            final(self)@.wf(),
    {
        let mut task: Option<u64> = None;
        if let Some(text) = q.str_arg("task") {
            if !rules.board {
                return Err(
                    failed(
                        "the task board is off (agents.board) — use --brief to give the new agent its first instruction instead",
                    ),
                );
            }
            let space = match self.session.pane(id) {
                Some(p) => match self.session.space(p.space) {
                    Some(sp) => Some(sp.name.clone()),
                    None => None,
                },
                None => None,
            };
            match self.board.add_at(text, ctx.sender.as_str(), as_opt(&space), ctx.now) {
                Ok(t) => {
                    task = Some(t.id);
                },
                Err(x) => {
                    return Err(failed(x.message().as_str()));
                },
            }
        }
        let brief = match q.str_arg("brief") {
            Some(t) => if trim(t).as_str().is_empty() {
                None
            } else {
                let to = match &plan.name {
                    Some(n) => n.clone(),
                    None => number(id),
                };
                Some((to, owned(t)))
            },
            None => None,
        };
        self.dirty_shape = true;
        self.detect_soon = true;
        Ok(Spawned { pane: id, task, brief })
    }

    /// Start an agent as planned, where its program starts.
    pub fn agent_spawn(
        &mut self,
        q: &Request,
        rules: &Rules,
        ctx: &Context,
        plan: &SpawnPlan,
        tree: Option<&str>,
    ) -> (r: Result<Spawned, Fault>)
        requires
            old(self)@.ready(),
        ensures
            (final(self)@, spawned_outcome(r)) == spawning(
                old(self)@,
                q@,
                *rules,
                *ctx,
                plan@,
                opt_str(tree),
            ),
            final(self)@.wf(),
    {
        match self.agent_begin(q, rules, ctx, plan, tree) {
            Err(f) => Err(f),
            Ok(id) => self.agent_finish(q, rules, ctx, plan, id),
        }
    }
}

// -- the roster --------------------------------------------------------------

/// An agent, as the roster shows it.
pub struct RosterLine {
    pub pane: u64,
    pub space: String,
    pub tab: String,
    pub cwd: String,
    pub class: AgentClass,
    /// How many messages wait for it.
    pub queued: usize,
    /// The trigger that started it, where one did.
    pub spawned_by: Option<u64>,
    pub info: AgentInfo,
}

/// The same, as values.
pub struct RosterLineView {
    pub pane: u64,
    pub space: Seq<char>,
    pub tab: Seq<char>,
    pub cwd: Seq<char>,
    pub class: AgentClass,
    pub queued: nat,
    pub spawned_by: Option<u64>,
    pub info: AgentInfoView,
}

impl View for RosterLine {
    type V = RosterLineView;

    open spec fn view(&self) -> RosterLineView {
        RosterLineView {
            pane: self.pane,
            space: self.space@,
            tab: self.tab@,
            cwd: self.cwd@,
            class: self.class,
            queued: self.queued as nat,
            spawned_by: self.spawned_by,
            info: self.info@,
        }
    }
}

/// Lines, as values.
pub open spec fn roster_views(v: Seq<RosterLine>) -> Seq<RosterLineView> {
    Seq::new(v.len(), |i: int| v[i]@)
}

/// A pane with an agent in it.
pub open spec fn is_manned(s: SessionView) -> spec_fn(u64) -> bool {
    |p: u64| s.has_pane(p) && s.panes[s.pane_at(p)].life.agent is Some
}

/// How the roster shows an agent.
pub open spec fn roster_line(s: SessionView, sp: SpaceView, tab: TabView, now: u64) -> spec_fn(
    u64,
) -> RosterLineView {
    |p: u64|
        {
            let pane = s.panes[s.pane_at(p)];
            let a = pane.life.agent->Some_0;
            RosterLineView {
                pane: p,
                space: sp.name,
                tab: tab.name,
                cwd: pane.cwd,
                class: a.class,
                queued: a.queued.len(),
                spawned_by: pane.life.spawned_by,
                info: a.info_at(now),
            }
        }
}

/// The agents of the first `n` tabs of a space.
pub open spec fn roster_of_tabs(s: SessionView, sp: SpaceView, n: int, now: u64) -> Seq<
    RosterLineView,
>
    decreases n,
{
    if n <= 0 {
        Seq::empty()
    } else {
        let t = sp.tabs[n - 1];
        roster_of_tabs(s, sp, n - 1, now) + (if s.has_tab(t) {
            let tab = s.tabs[s.tab_at(t)];
            pick(tab.layout.order(), is_manned(s), roster_line(s, sp, tab, now))
        } else {
            Seq::empty()
        })
    }
}

/// The agents of the first `n` spaces, in the order the sidebar has them.
pub open spec fn roster_of(s: SessionView, n: int, now: u64) -> Seq<RosterLineView>
    decreases n,
{
    if n <= 0 {
        Seq::empty()
    } else {
        let sp = s.spaces[n - 1];
        roster_of(s, n - 1, now) + roster_of_tabs(s, sp, sp.tabs.len() as int, now)
    }
}

/// The agents of one tab.
fn tab_roster(s: &Session, i: usize, k: usize, now: u64) -> (r: Vec<RosterLine>)
    requires
        i < s.spaces@.len(),
        k < s.tabs@.len(),
    ensures
        roster_views(r@) == pick(
            s@.tabs[k as int].layout.order(),
            is_manned(s@),
            roster_line(s@, s@.spaces[i as int], s@.tabs[k as int], now),
        ),
{
    let ghost order = s@.tabs[k as int].layout.order();
    let ghost f = roster_line(s@, s@.spaces[i as int], s@.tabs[k as int], now);
    let panes = s.tabs[k].layout.panes();
    let mut out: Vec<RosterLine> = Vec::new();
    let mut j: usize = 0;
    proof {
        assert(roster_views(out@) =~= pick(order.take(0), is_manned(s@), f));
    }
    while j < panes.len()
        invariant
            j <= panes@.len(),
            i < s.spaces@.len(),
            k < s.tabs@.len(),
            panes@ == order,
            f == roster_line(s@, s@.spaces[i as int], s@.tabs[k as int], now),
            roster_views(out@) == pick(order.take(j as int), is_manned(s@), f),
        decreases panes@.len() - j,
    {
        proof {
            lemma_pick_take(order, is_manned(s@), f, j as int);
        }
        let id: u64 = panes[j];
        let x: usize = s.pane_index(id);
        if x < s.panes.len() {
            let p = &s.panes[x];
            if let Some(a) = &p.life.agent {
                let ghost had = roster_views(out@);
                out.push(
                    RosterLine {
                        pane: id,
                        space: s.spaces[i].name.clone(),
                        tab: s.tabs[k].name.clone(),
                        cwd: p.cwd.clone(),
                        class: a.class,
                        queued: a.queued.len(),
                        spawned_by: p.life.spawned_by,
                        info: a.info(now),
                    },
                );
                proof {
                    assert(roster_views(out@) =~= had.push(f(id)));
                }
            }
        }
        j = j + 1;
    }
    proof {
        assert(order.take(j as int) =~= order);
    }
    out
}

/// Every agent, by space, then tab, then place, so that it reads like the sidebar.
pub fn roster(s: &Session, now: u64) -> (r: Vec<RosterLine>)
    ensures
        roster_views(r@) == roster_of(s@, s@.spaces.len() as int, now),
{
    let mut out: Vec<RosterLine> = Vec::new();
    let mut i: usize = 0;
    proof {
        assert(roster_views(out@) =~= Seq::<RosterLineView>::empty());
    }
    while i < s.spaces.len()
        invariant
            i <= s.spaces@.len(),
            roster_views(out@) == roster_of(s@, i as int, now),
        decreases s.spaces@.len() - i,
    {
        let ghost start = roster_views(out@);
        let ghost sp = s@.spaces[i as int];
        let n: usize = s.spaces[i].tabs.len();
        let mut t: usize = 0;
        proof {
            assert(start + roster_of_tabs(s@, sp, 0, now) =~= start);
        }
        while t < n
            invariant
                i < s.spaces@.len(),
                sp == s@.spaces[i as int],
                n == s.spaces@[i as int].tabs@.len(),
                t <= n,
                roster_views(out@) == start + roster_of_tabs(s@, sp, t as int, now),
            decreases n - t,
        {
            let id: u64 = s.spaces[i].tabs[t];
            let k: usize = s.tab_index(id);
            let ghost had = roster_views(out@);
            if k < s.tabs.len() {
                let mut more = tab_roster(s, i, k, now);
                let ghost extra = roster_views(more@);
                out.append(&mut more);
                proof {
                    assert(roster_views(out@) =~= had + extra);
                    assert(had + extra =~= start + (roster_of_tabs(s@, sp, t as int, now) + extra));
                }
            } else {
                proof {
                    assert(had =~= start + (roster_of_tabs(s@, sp, t as int, now) + Seq::<
                        RosterLineView,
                    >::empty()));
                }
            }
            t = t + 1;
        }
        i = i + 1;
    }
    out
}

// -- roles -------------------------------------------------------------------

/// A role, how many panes wear it, and whether it is configured.
#[derive(Debug, Clone, PartialEq, Eq)]
pub struct RoleLine {
    pub name: String,
    pub panes: usize,
    pub declared: bool,
}

/// The same, as values.
pub struct RoleLineView {
    pub name: Seq<char>,
    pub panes: nat,
    pub declared: bool,
}

impl View for RoleLine {
    type V = RoleLineView;

    open spec fn view(&self) -> RoleLineView {
        RoleLineView { name: self.name@, panes: self.panes as nat, declared: self.declared }
    }
}

/// Lines, as values.
pub open spec fn role_views(v: Seq<RoleLine>) -> Seq<RoleLineView> {
    Seq::new(v.len(), |i: int| v[i]@)
}

/// A pane with a role.
pub open spec fn has_role() -> spec_fn(PaneView) -> bool {
    |p: PaneView| p.life.role is Some
}

/// The role of a pane.
pub open spec fn its_role() -> spec_fn(PaneView) -> Seq<char> {
    |p: PaneView| p.life.role->Some_0
}

/// A pane with this role.
pub open spec fn wears(role: Seq<char>) -> spec_fn(PaneView) -> bool {
    |p: PaneView| p.life.role == Some(role)
}

/// Every role that is configured or worn, in order, each once.
pub open spec fn role_names(s: SessionView, declared: Seq<Seq<char>>) -> Seq<Seq<char>> {
    ordered(declared + pick(s.panes, has_role(), its_role()))
}

/// Every role in use or declared, and how many panes wear it.
pub open spec fn role_lines(s: SessionView, declared: Seq<Seq<char>>) -> Seq<RoleLineView> {
    Seq::new(
        role_names(s, declared).len(),
        |i: int|
            RoleLineView {
                name: role_names(s, declared)[i],
                panes: count_where(s.panes, wears(role_names(s, declared)[i])),
                declared: declared.contains(role_names(s, declared)[i]),
            },
    )
}

/// Such lines, as values.
pub open spec fn role_line_views(v: Seq<RoleLine>) -> Seq<RoleLineView> {
    Seq::new(v.len(), |i: int| v[i]@)
}

/// Every role in use, and how many panes wear it.
pub fn role_list(s: &Session, declared: &Vec<String>) -> (r: Vec<RoleLine>)
    ensures
        role_line_views(r@) == role_lines(s@, texts(declared@)),
{
    let ghost ds = texts(declared@);
    let mut all = copy_texts(declared);
    let mut i: usize = 0;
    proof {
        assert(texts(all@) =~= ds + pick(s@.panes.take(0), has_role(), its_role()));
    }
    while i < s.panes.len()
        invariant
            i <= s.panes@.len(),
            texts(all@) == ds + pick(s@.panes.take(i as int), has_role(), its_role()),
        decreases s.panes@.len() - i,
    {
        proof {
            lemma_pick_take(s@.panes, has_role(), its_role(), i as int);
        }
        if let Some(r) = &s.panes[i].life.role {
            let ghost had = texts(all@);
            all.push(r.clone());
            proof {
                assert(texts(all@) =~= had.push(r@));
                assert(texts(all@) =~= ds + pick(
                    s@.panes.take(i as int + 1),
                    has_role(),
                    its_role(),
                ));
            }
        }
        i = i + 1;
    }
    proof {
        assert(s@.panes.take(i as int) =~= s@.panes);
    }
    let names = sort_unique(&all);
    let ghost ns = role_names(s@, ds);
    let mut out: Vec<RoleLine> = Vec::new();
    let mut k: usize = 0;
    while k < names.len()
        invariant
            k <= names@.len(),
            texts(names@) == ns,
            ds == texts(declared@),
            out@.len() == k,
            forall|j: int|
                0 <= j < k ==> (#[trigger] out@[j])@ == (RoleLineView {
                    name: ns[j],
                    panes: count_where(s@.panes, wears(ns[j])),
                    declared: ds.contains(ns[j]),
                }),
        decreases names@.len() - k,
    {
        proof {
            assert(ns[k as int] == names@[k as int]@);
        }
        let panes: usize = wearers(s, names[k].as_str());
        let known = listed(declared.as_slice(), names[k].as_str());
        out.push(RoleLine { name: names[k].clone(), panes, declared: known });
        k = k + 1;
    }
    proof {
        assert(ns.len() == names@.len());
    }
    out
}

/// How many panes wear a role.
fn wearers(s: &Session, role: &str) -> (r: usize)
    ensures
        r as nat == count_where(s@.panes, wears(role@)),
{
    let mut n: usize = 0;
    let mut i: usize = 0;
    proof {
        assert(s@.panes.take(0) =~= Seq::<PaneView>::empty());
    }
    while i < s.panes.len()
        invariant
            i <= s.panes@.len(),
            n <= i,
            n as nat == count_where(s@.panes.take(i as int), wears(role@)),
        decreases s.panes@.len() - i,
    {
        proof {
            lemma_count_take(s@.panes, wears(role@), i as int);
        }
        if let Some(r) = &s.panes[i].life.role {
            if same(r.as_str(), role) {
                n = n + 1;
            }
        }
        i = i + 1;
    }
    proof {
        assert(s@.panes.take(i as int) =~= s@.panes);
    }
    n
}

/// What an agent that sets a role is told.
pub open spec fn no_role_text() -> Seq<char> {
    "an agent cannot set a role — a role decides what work is offered to whom. Give one at spawn (`horde spawn --role <role>`), or ask your human"@
}

/// Whether there is an agent in the pane a call is from.
pub open spec fn from_agent(s: SessionView, from: Option<u64>) -> bool {
    from matches Some(p) && s.has_pane(p) && s.panes[s.pane_at(p)].life.agent is Some
}

/// Whether a call may set a role. An agent may not, its own or another's: a role decides what
/// work is offered to whom. A person at a shell in a pane is still a person.
pub fn may_set_role(s: &Session, from: Option<u64>) -> (r: Result<(), Fault>)
    ensures
        match r {
            Ok(_) => !from_agent(s@, from),
            Err(f) => from_agent(s@, from) && f@ == failed_of(no_role_text()),
        },
{
    if let Some(p) = from {
        if let Some(pane) = s.pane(p) {
            if pane.life.agent.is_some() {
                return Err(
                    failed(
                        "an agent cannot set a role — a role decides what work is offered to whom. Give one at spawn (`horde spawn --role <role>`), or ask your human",
                    ),
                );
            }
        }
    }
    Ok(())
}

// -- worktrees ---------------------------------------------------------------

/// A pane that works here.
pub open spec fn works_in(path: Seq<char>) -> spec_fn(PaneView) -> bool {
    |p: PaneView| same_place(p.cwd, path)
}

/// The pane that works in a directory.
pub open spec fn occupant_of(s: SessionView, path: Seq<char>) -> Option<u64> {
    let i = first_where(s.panes, works_in(path));
    if i < s.panes.len() {
        Some(s.panes[i].id)
    } else {
        None
    }
}

/// The pane that works in a directory.
pub fn occupant(s: &Session, path: &str) -> (r: Option<u64>)
    ensures
        r == occupant_of(s@, path@),
{
    let mut i: usize = 0;
    while i < s.panes.len()
        invariant
            i <= s.panes@.len(),
            forall|j: int| 0 <= j < i ==> !works_in(path@)(#[trigger] s@.panes[j]),
        decreases s.panes@.len() - i,
    {
        if same_path(s.panes[i].cwd.as_str(), path) {
            proof {
                assert(works_in(path@)(s@.panes[i as int]));
                lemma_first_where_is(s@.panes, works_in(path@), i as int);
            }
            return Some(s.panes[i].id);
        }
        proof {
            assert(!works_in(path@)(s@.panes[i as int]));
        }
        i = i + 1;
    }
    proof {
        lemma_first_where_is(s@.panes, works_in(path@), s@.panes.len() as int);
    }
    None
}

/// Whether a worktree may be removed: not from under somebody who works in it.
pub fn may_remove(s: &Session, name: &str, path: &str) -> (r: Result<(), Fault>)
    ensures
        match (r, occupant_of(s@, path@)) {
            (Ok(_), None) => true,
            (Err(f), Some(p)) => f@ == bad_of(
                "pane "@ + decimal(p as nat) + " is still working in "@ + name@
                    + "; close it first"@,
            ),
            _ => false,
        },
{
    match occupant(s, path) {
        None => Ok(()),
        Some(p) => {
            let mut m = owned("pane ");
            m.append(number(p).as_str());
            m.append(" is still working in ");
            m.append(name);
            m.append("; close it first");
            Err(bad(m.as_str()))
        },
    }
}

// -- what agents report ------------------------------------------------------

/// The state that a report names.
pub open spec fn state_named(q: RequestView) -> Result<AgentState, FaultView> {
    match q.text("state"@) {
        None => Err(bad_of("state required"@)),
        Some(s) => if s == "working"@ {
            Ok(AgentState::Working)
        } else if s == "blocked"@ {
            Ok(AgentState::Blocked)
        } else if s == "idle"@ {
            Ok(AgentState::Idle)
        } else if s == "done"@ {
            Ok(AgentState::Done)
        } else {
            Err(bad_of("unknown state "@ + quoted(s)))
        },
    }
}

/// The state that a report names.
pub fn state_arg(q: &Request) -> (r: Result<AgentState, Fault>)
    ensures
        match r {
            Ok(s) => state_named(q@) == Ok::<AgentState, FaultView>(s),
            Err(f) => state_named(q@) == Err::<AgentState, FaultView>(f@),
        },
{
    match q.str_arg("state") {
        None => Err(bad("state required")),
        Some(s) => if same(s, "working") {
            Ok(AgentState::Working)
        } else if same(s, "blocked") {
            Ok(AgentState::Blocked)
        } else if same(s, "idle") {
            Ok(AgentState::Idle)
        } else if same(s, "done") {
            Ok(AgentState::Done)
        } else {
            let mut m = owned("unknown state ");
            m.append(quote(s).as_str());
            Err(bad(m.as_str()))
        },
    }
}

/// What an agent has done, and the files it touched.
pub struct DoingsView {
    pub activity: ActivityView,
    pub touched: Seq<Seq<char>>,
}

/// A new turn: the counters describe one turn.
pub open spec fn turned(d: DoingsView) -> DoingsView {
    DoingsView {
        activity: ActivityView {
            turns: (d.activity.turns + 1) as u32,
            tools: 0,
            files: 0,
            errors: 0,
            last_tool: None,
        },
        touched: Seq::empty(),
    }
}

/// A tool call, at a file where it named one. A file counts once.
pub open spec fn tooled(d: DoingsView, tool: Option<Seq<char>>, file: Option<Seq<char>>) -> DoingsView {
    let new = file matches Some(f) && !d.touched.contains(f);
    DoingsView {
        activity: ActivityView {
            tools: (d.activity.tools + 1) as u32,
            last_tool: if tool is Some {
                tool
            } else {
                d.activity.last_tool
            },
            files: if new {
                (d.touched.len() + 1) as u32
            } else {
                d.activity.files
            },
            ..d.activity
        },
        touched: if new {
            d.touched.push(file->Some_0)
        } else {
            d.touched
        },
    }
}

/// A tool call that failed.
pub open spec fn erred(d: DoingsView) -> DoingsView {
    DoingsView {
        activity: ActivityView { errors: (d.activity.errors + 1) as u32, ..d.activity },
        ..d
    }
}

/// What a report says an agent did.
pub open spec fn reported(d: DoingsView, q: RequestView) -> DoingsView {
    let a = if q.is_on("new_turn"@) {
        turned(d)
    } else {
        d
    };
    let b = if q.is_on("counts_tool"@) {
        tooled(a, q.text("tool"@), q.text("file"@))
    } else {
        a
    };
    if q.is_on("tool_failed"@) {
        erred(b)
    } else {
        b
    }
}

/// Note what a report says an agent did.
pub fn record_activity(a: &mut AgentRuntime, q: &Request)
    requires
        old(a).activity.turns < u32::MAX,
        old(a).activity.tools < u32::MAX,
        old(a).activity.errors < u32::MAX,
        old(a).touched@.len() < u32::MAX,
    ensures
        (DoingsView { activity: final(a).activity@, touched: texts(final(a).touched@) })
            == reported(
            (DoingsView { activity: old(a).activity@, touched: texts(old(a).touched@) }),
            q@,
        ),
        *final(a) == (AgentRuntime {
            activity: final(a).activity,
            touched: final(a).touched,
            ..*old(a)
        }),
{
    if q.bool_arg("new_turn") {
        a.begin_turn();
        proof {
            assert(texts(a.touched@) =~= Seq::<Seq<char>>::empty());
        }
    }
    if q.bool_arg("counts_tool") {
        a.record_tool(q.str_arg("tool"), q.str_arg("file"));
    }
    if q.bool_arg("tool_failed") {
        a.record_error();
    }
}

// -- reading a screen --------------------------------------------------------

/// The last `n` lines.
pub open spec fn last_lines(all: Seq<Seq<char>>, n: int) -> Seq<Seq<char>> {
    if n >= all.len() {
        all
    } else {
        all.skip(all.len() - n)
    }
}

/// What a caller reads off a screen: what detection looks at, the most recent lines, or all.
pub fn read_screen(screen: &Screen, source: &str, lines: usize) -> (r: Vec<String>)
    ensures
        texts(r@) == (if source@ == "detection"@ {
            detected(screen@, lines as int)
        } else if source@ == "recent"@ {
            last_lines(shown(screen@.rows), lines as int)
        } else {
            shown(screen@.rows)
        }),
{
    if same(source, "detection") {
        return screen.detection_snapshot(lines);
    }
    let all = screen.visible_text();
    if !same(source, "recent") {
        return all;
    }
    let n: usize = all.len();
    if lines >= n {
        return all;
    }
    let ghost whole = texts(all@);
    let mut out: Vec<String> = Vec::new();
    let mut i: usize = n - lines;
    proof {
        assert(texts(out@) =~= whole.subrange(n - lines, n - lines));
    }
    while i < n
        invariant
            n - lines <= i <= n,
            lines < n,
            n == all@.len(),
            whole == texts(all@),
            texts(out@) == whole.subrange(n - lines, i as int),
        decreases n - i,
    {
        let ghost had = texts(out@);
        out.push(all[i].clone());
        proof {
            assert(texts(out@) =~= had.push(whole[i as int]));
            assert(texts(out@) =~= whole.subrange(n - lines, i as int + 1));
        }
        i = i + 1;
    }
    proof {
        assert(whole.subrange(n - lines, n as int) =~= whole.skip(n - lines));
    }
    out
}

// -- laws --------------------------------------------------------------------

/// A person is not capped: a spawn from outside any pane is not refused for the fleet's size.
pub proof fn law_a_person_is_not_capped(
    q: RequestView,
    s: SessionView,
    ks: Seq<(Seq<char>, u64)>,
    ps: Seq<ProfileView>,
    usual: Seq<char>,
    max_fleet: nat,
)
    requires
        asking_pane(q, s, ks) is None,
        command_for(q, ps, usual) is Ok,
        worktree_wanted(q, s, None) is Ok,
    ensures
        spawn_planned(q, s, ks, ps, usual, max_fleet) is Ok,
{
}

/// Agents never open more panes than they may: with the fleet at its size, what one asks for is
/// refused.
pub proof fn law_the_fleet_is_capped(
    q: RequestView,
    s: SessionView,
    ks: Seq<(Seq<char>, u64)>,
    ps: Seq<ProfileView>,
    usual: Seq<char>,
    max_fleet: nat,
)
    requires
        asking_pane(q, s, ks) is Some,
        count_where(s.panes, opened_by_agent()) >= max_fleet,
    ensures
        spawn_planned(q, s, ks, ps, usual, max_fleet) is Err,
{
}

} // verus!
