//! Agents that run out: of a model, and of their budget.
//!
//! What a provider refuses is read off the pane like every other agent state: as text on a
//! screen. A model that stopped serving is followed by the next of its profile, and an agent
//! that is out is followed by a successor with a brief.

use crate::agent::AgentClass;
use crate::journal::{called, name_in, name_of, notified, Journal};
use crate::proto::Dir;
use crate::repo::{Repo, RepoView};
use crate::seqs::{
    count_where, first_where, lemma_count_take, lemma_first_where_is, lemma_pick_take, pick,
};
use crate::state::{
    splitting, Bars, ModelRun, ModelRunView, Pane, PaneLifeView, PaneView, Session, SessionError,
    SessionErrorView, SessionView,
};
use crate::text::{
    contains, occurs, opt_str, opt_text, owned, replace, replaced_all, same, squash, squashed,
    texts, trim, trim_end, trimmed, trimmed_end,
};
use vstd::prelude::*;
use vstd::string::*;

verus! {

/// How long after a switch, in millis, to ignore what is on the screen: the message that
/// caused it is still there.
pub const SWITCH_QUIET: u64 = 30_000;

/// Whether a screen says something, wherever the terminal broke the lines.
pub open spec fn says(screen: Seq<char>, phrase: Seq<char>) -> bool {
    trimmed(phrase).len() > 0 && occurs(squashed(screen), squashed(phrase))
}

/// Match a phrase against a terminal screen, ignoring where the terminal broke the lines.
///
/// A pane is narrow, and every agent wraps to fit, even inside words. So both sides have their
/// whitespace removed before comparing.
pub fn screen_says(screen: &str, phrase: &str) -> (r: bool)
    ensures
        r == says(screen@, phrase@),
{
    if trim(phrase).as_str().is_empty() {
        return false;
    }
    let a = squash(screen);
    let b = squash(phrase);
    contains(a.as_str(), b.as_str())
}

/// Whether a screen says any of some things.
pub open spec fn says_any(screen: Seq<char>, phrases: Seq<Seq<char>>) -> bool {
    exists|i: int| 0 <= i < phrases.len() && says(screen, #[trigger] phrases[i])
}

/// Whether a screen says any of some things.
pub fn screen_says_any(screen: &str, phrases: &Vec<String>) -> (r: bool)
    ensures
        r == says_any(screen@, texts(phrases@)),
{
    let mut i: usize = 0;
    while i < phrases.len()
        invariant
            i <= phrases@.len(),
            forall|j: int| 0 <= j < i ==> !says(screen@, #[trigger] texts(phrases@)[j]),
        decreases phrases@.len() - i,
    {
        if screen_says(screen, phrases[i].as_str()) {
            proof {
                assert(says(screen@, texts(phrases@)[i as int]));
            }
            return true;
        }
        i = i + 1;
    }
    false
}

/// Where the lines break does not matter: two screens with the same text between the
/// whitespace say the same things.
pub proof fn law_wrapping_hides_nothing(a: Seq<char>, b: Seq<char>, phrase: Seq<char>)
    requires
        squashed(a) == squashed(b),
    ensures
        says(a, phrase) == says(b, phrase),
{
}

// -- models ------------------------------------------------------------------

/// A list of models for one command, in the order they are tried.
#[derive(Debug, Clone, PartialEq, Eq)]
pub struct Profile {
    pub name: String,
    pub cmd: String,
    pub order: Vec<String>,
    /// What is on the screen when a model has stopped serving.
    pub exhausted: Vec<String>,
    /// What to type to move to another model.
    pub switch: Option<String>,
}

/// The same, as text.
pub struct ProfileView {
    pub name: Seq<char>,
    pub cmd: Seq<char>,
    pub order: Seq<Seq<char>>,
    pub exhausted: Seq<Seq<char>>,
    pub switch: Option<Seq<char>>,
}

impl View for Profile {
    type V = ProfileView;

    open spec fn view(&self) -> ProfileView {
        ProfileView {
            name: self.name@,
            cmd: self.cmd@,
            order: texts(self.order@),
            exhausted: texts(self.exhausted@),
            switch: opt_text(self.switch),
        }
    }
}

/// Profiles, as text.
pub open spec fn profile_views(v: Seq<Profile>) -> Seq<ProfileView> {
    Seq::new(v.len(), |i: int| v[i]@)
}

/// A profile of this name.
pub open spec fn profile_is(name: Seq<char>) -> spec_fn(ProfileView) -> bool {
    |p: ProfileView| p.name == name
}

/// The profile of a name.
pub open spec fn profile_of(ps: Seq<ProfileView>, name: Seq<char>) -> Option<ProfileView> {
    let i = first_where(ps, profile_is(name));
    if i < ps.len() {
        Some(ps[i])
    } else {
        None
    }
}

impl ProfileView {
    /// The command that runs the `i`th model.
    pub open spec fn command_of(self, i: int) -> Option<Seq<char>> {
        if 0 <= i < self.order.len() {
            Some(replaced_all(self.cmd, "{model}"@, self.order[i]))
        } else {
            None
        }
    }
}

impl Profile {
    /// The command that runs the `i`th model.
    pub fn command(&self, i: usize) -> (r: Option<String>)
        ensures
            opt_text(r) == self@.command_of(i as int),
    {
        if i < self.order.len() {
            proof {
                reveal_strlit("{model}");
                assert(self@.order[i as int] == self.order@[i as int]@);
            }
            Some(replace(self.cmd.as_str(), "{model}", self.order[i].as_str()))
        } else {
            None
        }
    }
}

/// The place of the profile of a name.
pub fn find_profile(ps: &Vec<Profile>, name: &str) -> (r: Option<usize>)
    ensures
        match r {
            Some(i) => i < ps@.len() && profile_of(profile_views(ps@), name@) == Some(ps@[i as int]@),
            None => profile_of(profile_views(ps@), name@) is None,
        },
{
    let ghost vs = profile_views(ps@);
    let mut i: usize = 0;
    while i < ps.len()
        invariant
            i <= ps@.len(),
            vs == profile_views(ps@),
            forall|j: int| 0 <= j < i ==> !profile_is(name@)(#[trigger] vs[j]),
        decreases ps@.len() - i,
    {
        if same(ps[i].name.as_str(), name) {
            proof {
                lemma_first_where_is(vs, profile_is(name@), i as int);
            }
            return Some(i);
        }
        i = i + 1;
    }
    proof {
        lemma_first_where_is(vs, profile_is(name@), i as int);
    }
    None
}

/// What is to be done about a pane's model.
pub enum MoveView {
    Stay,
    /// Type this, to move to that model.
    Switch { command: Seq<char>, model: Seq<char> },
    /// There is no other: say so.
    Spent { profile: Seq<char> },
}

/// Whether a switch was too short ago to believe the screen.
pub open spec fn too_soon(switched: Option<u64>, now: u64) -> bool {
    switched matches Some(t) && now < t + SWITCH_QUIET
}

/// What is to be done about a pane's model. Deliberately not wrapping round: going back to the
/// one that just refused is a loop that looks like work.
pub open spec fn move_for(p: PaneView, ps: Seq<ProfileView>, screen: Seq<char>, now: u64) -> MoveView {
    match p.life.model {
        None => MoveView::Stay,
        Some(m) => match profile_of(ps, m.profile) {
            None => MoveView::Stay,
            Some(profile) => if too_soon(m.switched, now) || profile.switch is None || !says_any(
                screen,
                profile.exhausted,
            ) {
                MoveView::Stay
            } else if m.index + 1 < profile.order.len() {
                let model = profile.order[m.index + 1];
                MoveView::Switch {
                    command: replaced_all(profile.switch->Some_0, "{model}"@, model),
                    model,
                }
            } else {
                MoveView::Spent { profile: m.profile }
            },
        },
    }
}

/// A pane after that.
pub open spec fn pane_moved(p: PaneView, m: MoveView, now: u64) -> PaneView {
    match (m, p.life.model) {
        (MoveView::Switch { command, model }, Some(run)) => PaneView {
            life: PaneLifeView {
                model: Some(
                    ModelRunView {
                        index: (run.index + 1) as usize,
                        switched: Some(now),
                        ..run
                    },
                ),
                ..p.life
            },
            ..p
        },
        (MoveView::Spent { profile }, Some(run)) => PaneView {
            life: PaneLifeView {
                model: Some(ModelRunView { switched: Some(now), ..run }),
                ..p.life
            },
            ..p
        },
        _ => p,
    }
}

/// A line to type into an agent, so that it moves to another model.
#[derive(Debug, Clone, PartialEq, Eq)]
pub struct Switch {
    pub pane: u64,
    pub command: String,
    pub model: String,
}

/// The same, as text.
pub struct SwitchView {
    pub pane: u64,
    pub command: Seq<char>,
    pub model: Seq<char>,
}

impl View for Switch {
    type V = SwitchView;

    open spec fn view(&self) -> SwitchView {
        SwitchView { pane: self.pane, command: self.command@, model: self.model@ }
    }
}

/// Switches, as text.
pub open spec fn switch_views(v: Seq<Switch>) -> Seq<SwitchView> {
    Seq::new(v.len(), |i: int| v[i]@)
}

/// A pane whose profile has no model left, and the profile.
#[derive(Debug, Clone, PartialEq, Eq)]
pub struct Spent {
    pub pane: u64,
    pub profile: String,
}

/// The same, as text.
pub struct SpentView {
    pub pane: u64,
    pub profile: Seq<char>,
}

impl View for Spent {
    type V = SpentView;

    open spec fn view(&self) -> SpentView {
        SpentView { pane: self.pane, profile: self.profile@ }
    }
}

/// Spent profiles, as text.
pub open spec fn spent_views(v: Seq<Spent>) -> Seq<SpentView> {
    Seq::new(v.len(), |i: int| v[i]@)
}

/// The lines to type into the agents of the first `n` panes.
pub open spec fn switches_of(
    s: SessionView,
    ps: Seq<ProfileView>,
    screens: Seq<Seq<char>>,
    now: u64,
    n: int,
) -> Seq<SwitchView>
    decreases n,
{
    if n <= 0 {
        Seq::empty()
    } else {
        let before = switches_of(s, ps, screens, now, n - 1);
        match move_for(s.panes[n - 1], ps, screens[n - 1], now) {
            MoveView::Switch { command, model } => before.push(
                SwitchView { pane: s.panes[n - 1].id, command, model },
            ),
            _ => before,
        }
    }
}

/// The first `n` panes whose profiles have no model left.
pub open spec fn spent_of(
    s: SessionView,
    ps: Seq<ProfileView>,
    screens: Seq<Seq<char>>,
    now: u64,
    n: int,
) -> Seq<SpentView>
    decreases n,
{
    if n <= 0 {
        Seq::empty()
    } else {
        let before = spent_of(s, ps, screens, now, n - 1);
        match move_for(s.panes[n - 1], ps, screens[n - 1], now) {
            MoveView::Spent { profile } => before.push(
                SpentView { pane: s.panes[n - 1].id, profile },
            ),
            _ => before,
        }
    }
}

/// A session with every spent model moved on.
pub open spec fn models_advanced(
    s: SessionView,
    ps: Seq<ProfileView>,
    screens: Seq<Seq<char>>,
    now: u64,
) -> SessionView {
    SessionView {
        panes: Seq::new(
            s.panes.len(),
            |i: int| pane_moved(s.panes[i], move_for(s.panes[i], ps, screens[i], now), now),
        ),
        ..s
    }
}

/// What is to be done about a pane's model.
enum Move {
    Stay,
    Switch { command: String, model: String },
    Spent { profile: String },
}

spec fn move_view(m: Move) -> MoveView {
    match m {
        Move::Stay => MoveView::Stay,
        Move::Switch { command, model } => MoveView::Switch { command: command@, model: model@ },
        Move::Spent { profile } => MoveView::Spent { profile: profile@ },
    }
}

/// What is to be done about a pane's model.
fn decide_move(p: &Pane, ps: &Vec<Profile>, screen: &str, now: u64) -> (r: Move)
    ensures
        move_view(r) == move_for(p@, profile_views(ps@), screen@, now),
        r is Switch ==> p.life.model is Some && p.life.model->Some_0.index < usize::MAX,
{
    let m = match &p.life.model {
        None => {
            return Move::Stay;
        },
        Some(m) => m,
    };
    let k: usize = match find_profile(ps, m.profile.as_str()) {
        None => {
            return Move::Stay;
        },
        Some(k) => k,
    };
    if let Some(t) = m.switched {
        if now < t || now - t < SWITCH_QUIET {
            return Move::Stay;
        }
    }
    let profile = &ps[k];
    let switch = match &profile.switch {
        None => {
            return Move::Stay;
        },
        Some(s) => s,
    };
    if !screen_says_any(screen, &profile.exhausted) {
        return Move::Stay;
    }
    let n: usize = profile.order.len();
    proof {
        reveal_strlit("{model}");
        assert(profile@.order.len() == n);
    }
    if n > 0 && m.index < n - 1 {
        let model = profile.order[m.index + 1].clone();
        proof {
            assert(profile@.order[m.index + 1] == model@);
        }
        let command = replace(switch.as_str(), "{model}", model.as_str());
        Move::Switch { command, model }
    } else {
        Move::Spent { profile: m.profile.clone() }
    }
}

/// What the journal says of agents that moved to another model. Work done by a model that nobody
/// chose has to be found out from somewhere.
pub open spec fn switch_lines(ms: Seq<SwitchView>, names: Seq<(u64, Seq<char>)>) -> Seq<Seq<char>> {
    Seq::new(ms.len(), |i: int| name_in(names, ms[i].pane) + " switched to "@ + ms[i].model)
}

/// What the journal says of agents that have no model left.
pub open spec fn spent_lines(xs: Seq<SpentView>, names: Seq<(u64, Seq<char>)>) -> Seq<Seq<char>> {
    Seq::new(xs.len(), |i: int| name_in(names, xs[i].pane) + " exhausted profile "@ + xs[i].profile)
}

fn lines_of_switches(ms: &Vec<Switch>, names: &Vec<(u64, String)>) -> (r: Vec<String>)
    ensures
        texts(r@) == switch_lines(switch_views(ms@), called(names@)),
{
    let ghost want = switch_lines(switch_views(ms@), called(names@));
    let mut out: Vec<String> = Vec::new();
    let mut i: usize = 0;
    while i < ms.len()
        invariant
            i <= ms@.len(),
            want == switch_lines(switch_views(ms@), called(names@)),
            out@.len() == i,
            forall|j: int| 0 <= j < i ==> (#[trigger] out@[j])@ == want[j],
        decreases ms@.len() - i,
    {
        let mut l = name_of(names, ms[i].pane);
        l.append(" switched to ");
        l.append(ms[i].model.as_str());
        proof {
            assert(l@ == want[i as int]);
        }
        out.push(l);
        i = i + 1;
    }
    proof {
        assert(texts(out@) =~= want);
    }
    out
}

fn lines_of_spent(xs: &Vec<Spent>, names: &Vec<(u64, String)>) -> (r: Vec<String>)
    ensures
        texts(r@) == spent_lines(spent_views(xs@), called(names@)),
{
    let ghost want = spent_lines(spent_views(xs@), called(names@));
    let mut out: Vec<String> = Vec::new();
    let mut i: usize = 0;
    while i < xs.len()
        invariant
            i <= xs@.len(),
            want == spent_lines(spent_views(xs@), called(names@)),
            out@.len() == i,
            forall|j: int| 0 <= j < i ==> (#[trigger] out@[j])@ == want[j],
        decreases xs@.len() - i,
    {
        let mut l = name_of(names, xs[i].pane);
        l.append(" exhausted profile ");
        l.append(xs[i].profile.as_str());
        proof {
            assert(l@ == want[i as int]);
        }
        out.push(l);
        i = i + 1;
    }
    proof {
        assert(texts(out@) =~= want);
    }
    out
}

/// Move any agent whose model has stopped serving it onto the next one in its profile. Gives
/// the lines to type, and the panes whose profiles are spent, and puts both into the journal.
/// `screens` has what each pane shows, and `names` what each is called.
pub fn advance_spent_models(
    s: &mut Session,
    ps: &Vec<Profile>,
    screens: &Vec<String>,
    names: &Vec<(u64, String)>,
    journal: &mut Journal,
    now: u64,
) -> (r: (Vec<Switch>, Vec<Spent>))
    requires
        screens@.len() == old(s)@.panes.len(),
    ensures
        final(journal)@ == old(journal)@ + notified(
            switch_lines(switch_views(r.0@), called(names@)),
            now,
        ) + notified(spent_lines(spent_views(r.1@), called(names@)), now),
        final(s)@ == models_advanced(old(s)@, profile_views(ps@), texts(screens@), now),
        switch_views(r.0@) == switches_of(
            old(s)@,
            profile_views(ps@),
            texts(screens@),
            now,
            old(s)@.panes.len() as int,
        ),
        spent_views(r.1@) == spent_of(
            old(s)@,
            profile_views(ps@),
            texts(screens@),
            now,
            old(s)@.panes.len() as int,
        ),
{
    let ghost s0 = s@;
    let ghost vs = profile_views(ps@);
    let ghost sc = texts(screens@);
    let mut switches: Vec<Switch> = Vec::new();
    let mut spent: Vec<Spent> = Vec::new();
    let mut i: usize = 0;
    proof {
        assert(switch_views(switches@) =~= switches_of(s0, vs, sc, now, 0));
        assert(spent_views(spent@) =~= spent_of(s0, vs, sc, now, 0));
    }
    while i < s.panes.len()
        invariant
            i <= s.panes@.len(),
            s@.panes.len() == s0.panes.len(),
            screens@.len() == s0.panes.len(),
            vs == profile_views(ps@),
            sc == texts(screens@),
            s@ == (SessionView { panes: s@.panes, ..s0 }),
            forall|j: int| i <= j < s0.panes.len() ==> #[trigger] s@.panes[j] == s0.panes[j],
            forall|j: int|
                0 <= j < i ==> #[trigger] s@.panes[j] == pane_moved(
                    s0.panes[j],
                    move_for(s0.panes[j], vs, sc[j], now),
                    now,
                ),
            switch_views(switches@) == switches_of(s0, vs, sc, now, i as int),
            spent_views(spent@) == spent_of(s0, vs, sc, now, i as int),
        decreases s0.panes.len() - i,
    {
        proof {
            assert(s@.panes[i as int] == s0.panes[i as int]);
            assert(s.panes@[i as int]@ == s0.panes[i as int]);
            assert(sc[i as int] == screens@[i as int]@);
        }
        let id: u64 = s.panes[i].id;
        let m = decide_move(&s.panes[i], ps, screens[i].as_str(), now);
        let ghost before = s@;
        match m {
            Move::Stay => {},
            Move::Switch { command, model } => {
                let ghost had = switch_views(switches@);
                if let Some(run) = &mut s.panes[i].life.model {
                    run.index = run.index + 1;
                    run.switched = Some(now);
                }
                let sw = Switch { pane: id, command, model };
                switches.push(sw);
                proof {
                    assert(switch_views(switches@) =~= had.push(sw@));
                }
            },
            Move::Spent { profile } => {
                let ghost had = spent_views(spent@);
                if let Some(run) = &mut s.panes[i].life.model {
                    run.switched = Some(now);
                }
                let sp = Spent { pane: id, profile };
                spent.push(sp);
                proof {
                    assert(spent_views(spent@) =~= had.push(sp@));
                }
            },
        }
        proof {
            assert(s@.panes =~= before.panes.update(
                i as int,
                pane_moved(
                    s0.panes[i as int],
                    move_for(s0.panes[i as int], vs, sc[i as int], now),
                    now,
                ),
            ));
        }
        i = i + 1;
    }
    proof {
        assert(s@.panes =~= models_advanced(s0, vs, sc, now).panes);
    }
    journal.notify(&lines_of_switches(&switches, names), now);
    journal.notify(&lines_of_spent(&spent, names), now);
    (switches, spent)
}

/// One refusal moves an agent one model on: having moved, or having been found spent, it stays
/// where it is for as long as the message may still be on its screen.
pub proof fn law_one_refusal_is_one_switch(
    p: PaneView,
    ps: Seq<ProfileView>,
    screen: Seq<char>,
    later_screen: Seq<char>,
    now: u64,
    later: u64,
)
    requires
        !(move_for(p, ps, screen, now) is Stay),
        now <= later < now + SWITCH_QUIET,
    ensures
        move_for(pane_moved(p, move_for(p, ps, screen, now), now), ps, later_screen, later) is Stay,
{
}

/// A spent profile stops instead of starting over: the model never goes back, and never past
/// the last.
pub proof fn law_a_spent_profile_stops(
    p: PaneView,
    ps: Seq<ProfileView>,
    screen: Seq<char>,
    now: u64,
)
    requires
        p.life.model is Some,
        profile_of(ps, p.life.model->Some_0.profile) matches Some(f) ==> f.order.len()
            <= usize::MAX,
    ensures
        ({
            let m = p.life.model->Some_0;
            let after = pane_moved(p, move_for(p, ps, screen, now), now).life.model->Some_0;
            &&& after.index == m.index || after.index == m.index + 1
            &&& after.index == m.index + 1 ==> (profile_of(ps, m.profile) matches Some(f)
                && after.index < f.order.len())
        }),
{
}

// -- handing over ------------------------------------------------------------

/// What is to be done about agents that run out of their budget.
#[derive(Debug, Clone, PartialEq, Eq)]
pub struct Handover {
    /// What is on the screen of an agent that is nearly out.
    pub warning: Vec<String>,
    /// What is on the screen of one that is.
    pub exhausted: Vec<String>,
    /// What its successor runs on.
    pub profile: Option<String>,
    /// What an agent that is nearly out is told.
    pub instruct: Option<String>,
    /// How many agents may follow one another.
    pub max_chain: u32,
}

/// The same, as text.
pub struct HandoverView {
    pub warning: Seq<Seq<char>>,
    pub exhausted: Seq<Seq<char>>,
    pub profile: Option<Seq<char>>,
    pub instruct: Option<Seq<char>>,
    pub max_chain: u32,
}

impl View for Handover {
    type V = HandoverView;

    open spec fn view(&self) -> HandoverView {
        HandoverView {
            warning: texts(self.warning@),
            exhausted: texts(self.exhausted@),
            profile: opt_text(self.profile),
            instruct: opt_text(self.instruct),
            max_chain: self.max_chain,
        }
    }
}

/// Whether an agent is to be told to hand over: it is something there is a conversation with,
/// has not been told, and is nearly out.
pub open spec fn to_be_told(h: HandoverView, p: PaneView, screen: Seq<char>) -> bool {
    &&& p.life.agent matches Some(a) && a.class == AgentClass::Agent
    &&& !p.life.handover_told
    &&& says_any(screen, h.warning)
}

/// What it is told.
pub open spec fn instruction(
    h: HandoverView,
    standard: Seq<char>,
    name: Seq<char>,
    profile: Seq<char>,
) -> Seq<char> {
    let base = match h.instruct {
        Some(i) => i,
        None => standard,
    };
    replaced_all(replaced_all(base, "{name}"@, name), "{profile}"@, profile)
}

/// A line for an agent that is nearly out.
#[derive(Debug, Clone, PartialEq, Eq)]
pub struct Told {
    pub pane: u64,
    pub name: String,
    pub body: String,
}

/// The same, as text.
pub struct ToldView {
    pub pane: u64,
    pub name: Seq<char>,
    pub body: Seq<char>,
}

impl View for Told {
    type V = ToldView;

    open spec fn view(&self) -> ToldView {
        ToldView { pane: self.pane, name: self.name@, body: self.body@ }
    }
}

/// Lines, as text.
pub open spec fn told_views(v: Seq<Told>) -> Seq<ToldView> {
    Seq::new(v.len(), |i: int| v[i]@)
}

/// The lines for the first `n` panes.
pub open spec fn told_of(
    s: SessionView,
    h: HandoverView,
    standard: Seq<char>,
    screens: Seq<Seq<char>>,
    n: int,
) -> Seq<ToldView>
    decreases n,
{
    if n <= 0 {
        Seq::empty()
    } else {
        let before = told_of(s, h, standard, screens, n - 1);
        let p = s.panes[n - 1];
        if to_be_told(h, p, screens[n - 1]) {
            let name = p.life.agent->Some_0.name;
            before.push(
                ToldView {
                    pane: p.id,
                    name,
                    body: instruction(h, standard, name, h.profile->Some_0),
                },
            )
        } else {
            before
        }
    }
}

/// A session with those told marked.
pub open spec fn marked_told(s: SessionView, h: HandoverView, screens: Seq<Seq<char>>) -> SessionView {
    SessionView {
        panes: Seq::new(
            s.panes.len(),
            |i: int|
                if to_be_told(h, s.panes[i], screens[i]) {
                    PaneView {
                        life: PaneLifeView { handover_told: true, ..s.panes[i].life },
                        ..s.panes[i]
                    }
                } else {
                    s.panes[i]
                },
        ),
        ..s
    }
}

/// What telling agents to hand over does: nothing without a warning to look for or a profile
/// to hand over to.
pub open spec fn telling(
    s: SessionView,
    h: HandoverView,
    standard: Seq<char>,
    screens: Seq<Seq<char>>,
) -> (SessionView, Seq<ToldView>) {
    if h.warning.len() == 0 || h.profile is None {
        (s, Seq::empty())
    } else {
        (
            marked_told(s, h, screens),
            told_of(s, h, standard, screens, s.panes.len() as int),
        )
    }
}

/// What the journal says of agents that were told to hand over.
pub open spec fn told_lines(ts: Seq<ToldView>, names: Seq<(u64, Seq<char>)>) -> Seq<Seq<char>> {
    Seq::new(
        ts.len(),
        |i: int| name_in(names, ts[i].pane) + " told to hand over before running out"@,
    )
}

/// Tell every agent that is nearly out of budget to hand over, while it still can, and say so in
/// the journal. Each is told once. `standard` is what it is told where nothing else is
/// configured, and `names` what each pane is called.
pub fn nudge_handover(
    s: &mut Session,
    h: &Handover,
    standard: &str,
    screens: &Vec<String>,
    names: &Vec<(u64, String)>,
    journal: &mut Journal,
    now: u64,
) -> (r: Vec<Told>)
    requires
        screens@.len() == old(s)@.panes.len(),
    ensures
        (final(s)@, told_views(r@)) == telling(old(s)@, h@, standard@, texts(screens@)),
        final(journal)@ == old(journal)@ + notified(told_lines(told_views(r@), called(names@)), now),
{
    let out = tell_to_hand_over(s, h, standard, screens);
    let ghost want = told_lines(told_views(out@), called(names@));
    let mut lines: Vec<String> = Vec::new();
    let mut i: usize = 0;
    while i < out.len()
        invariant
            i <= out@.len(),
            want == told_lines(told_views(out@), called(names@)),
            lines@.len() == i,
            forall|j: int| 0 <= j < i ==> (#[trigger] lines@[j])@ == want[j],
        decreases out@.len() - i,
    {
        let mut l = name_of(names, out[i].pane);
        l.append(" told to hand over before running out");
        proof {
            assert(l@ == want[i as int]);
        }
        lines.push(l);
        i = i + 1;
    }
    proof {
        assert(texts(lines@) =~= want);
    }
    journal.notify(&lines, now);
    out
}

/// Mark every agent that is nearly out, and say what each is to be told.
fn tell_to_hand_over(s: &mut Session, h: &Handover, standard: &str, screens: &Vec<String>) -> (r: Vec<
    Told,
>)
    requires
        screens@.len() == old(s)@.panes.len(),
    ensures
        (final(s)@, told_views(r@)) == telling(old(s)@, h@, standard@, texts(screens@)),
{
    let mut out: Vec<Told> = Vec::new();
    let ghost s0 = s@;
    let ghost sc = texts(screens@);
    proof {
        assert(told_views(out@) =~= Seq::<ToldView>::empty());
        assert(texts(h.warning@).len() == h.warning@.len());
    }
    if h.warning.len() == 0 {
        return out;
    }
    let profile = match &h.profile {
        Some(p) => p.clone(),
        None => {
            return out;
        },
    };
    let mut i: usize = 0;
    while i < s.panes.len()
        invariant
            i <= s.panes@.len(),
            s@.panes.len() == s0.panes.len(),
            screens@.len() == s0.panes.len(),
            sc == texts(screens@),
            h@.profile == Some(profile@),
            s@ == (SessionView { panes: s@.panes, ..s0 }),
            forall|j: int| i <= j < s0.panes.len() ==> #[trigger] s@.panes[j] == s0.panes[j],
            forall|j: int|
                0 <= j < i ==> #[trigger] s@.panes[j] == marked_told(s0, h@, sc).panes[j],
            told_views(out@) == told_of(s0, h@, standard@, sc, i as int),
        decreases s0.panes.len() - i,
    {
        proof {
            assert(s@.panes[i as int] == s0.panes[i as int]);
            assert(s.panes@[i as int]@ == s0.panes[i as int]);
            assert(sc[i as int] == screens@[i as int]@);
            reveal_strlit("{name}");
            reveal_strlit("{profile}");
        }
        let ghost before = s@;
        let talks = match &s.panes[i].life.agent {
            Some(a) => a.class == AgentClass::Agent,
            None => false,
        };
        if talks && !s.panes[i].life.handover_told && screen_says_any(
            screens[i].as_str(),
            &h.warning,
        ) {
            let name = match &s.panes[i].life.agent {
                Some(a) => a.name.clone(),
                None => String::new(),
            };
            let base = match &h.instruct {
                Some(x) => x.clone(),
                None => owned(standard),
            };
            let named = replace(base.as_str(), "{name}", name.as_str());
            let body = replace(named.as_str(), "{profile}", profile.as_str());
            let t = Told { pane: s.panes[i].id, name, body };
            let ghost had = told_views(out@);
            s.panes[i].life.handover_told = true;
            out.push(t);
            proof {
                assert(told_views(out@) =~= had.push(t@));
            }
        }
        proof {
            assert(s@.panes =~= before.panes.update(
                i as int,
                marked_told(s0, h@, sc).panes[i as int],
            ));
        }
        i = i + 1;
    }
    proof {
        assert(s@.panes =~= marked_told(s0, h@, sc).panes);
    }
    out
}

/// An agent is told once: having been told, it is never told again, whatever stays on its
/// screen.
pub proof fn law_told_exactly_once(
    s: SessionView,
    h: HandoverView,
    standard: Seq<char>,
    screens: Seq<Seq<char>>,
    again: Seq<Seq<char>>,
    i: int,
)
    requires
        0 <= i < s.panes.len(),
        h.warning.len() > 0,
        h.profile is Some,
        to_be_told(h, s.panes[i], screens[i]),
    ensures
        !to_be_told(h, telling(s, h, standard, screens).0.panes[i], again[i]),
{
}

/// A pane that is running something this daemon started.
pub open spec fn self_started() -> spec_fn(PaneView) -> bool {
    |p: PaneView| p.life.spawned_by is Some && !p.life.exited
}

/// How many agents that were started here are still running.
pub fn live_spawned(s: &Session) -> (r: usize)
    ensures
        r as nat == count_where(s@.panes, self_started()),
{
    let mut n: usize = 0;
    let mut i: usize = 0;
    proof {
        assert(s@.panes.take(0) =~= Seq::<PaneView>::empty());
    }
    while i < s.panes.len()
        invariant
            i <= s.panes@.len(),
            n <= i,
            n as nat == count_where(s@.panes.take(i as int), self_started()),
        decreases s.panes@.len() - i,
    {
        proof {
            lemma_count_take(s@.panes, self_started(), i as int);
            assert(s@.panes[i as int] == s.panes@[i as int]@);
        }
        if s.panes[i].life.spawned_by.is_some() && !s.panes[i].life.exited {
            n = n + 1;
        }
        i = i + 1;
    }
    proof {
        assert(s@.panes.take(i as int) =~= s@.panes);
    }
    n
}

/// Whether an agent has run out and may have a successor.
pub open spec fn is_out(h: HandoverView, p: PaneView, screen: Seq<char>) -> bool {
    &&& p.life.agent matches Some(a) && a.class == AgentClass::Agent
    &&& !p.life.succeeded
    &&& p.life.succession_depth < h.max_chain
    &&& says_any(screen, h.exhausted)
}

/// The first such pane from `i` on, or the number of panes.
pub open spec fn first_out(s: SessionView, h: HandoverView, screens: Seq<Seq<char>>, i: int) -> int
    decreases s.panes.len() - i,
{
    if i < 0 || i >= s.panes.len() || is_out(h, s.panes[i], screens[i]) {
        i
    } else {
        first_out(s, h, screens, i + 1)
    }
}

/// What became of an agent that ran out.
#[derive(Debug, Clone, PartialEq, Eq)]
pub enum Succession {
    /// None did, or nothing is configured for it.
    Nothing,
    /// There is no such profile.
    NoProfile(String),
    /// It did, and as many agents are running as may be started.
    Capped { name: String, live: usize },
    /// It did, and a successor could not be placed.
    NotPlaced { name: String, error: SessionError },
    /// It did, and the program of a successor did not start.
    NotStarted { name: String, why: String },
    /// It did, and a successor is starting.
    Started { dead: u64, name: String, pane: u64, successor: String, profile: String },
}

/// The same, as text.
pub enum SuccessionView {
    Nothing,
    NoProfile(Seq<char>),
    Capped { name: Seq<char>, live: usize },
    NotPlaced { name: Seq<char>, error: SessionErrorView },
    NotStarted { name: Seq<char>, why: Seq<char> },
    Started { dead: u64, name: Seq<char>, pane: u64, successor: Seq<char>, profile: Seq<char> },
}

impl View for Succession {
    type V = SuccessionView;

    open spec fn view(&self) -> SuccessionView {
        match *self {
            Succession::Nothing => SuccessionView::Nothing,
            Succession::NoProfile(p) => SuccessionView::NoProfile(p@),
            Succession::Capped { name, live } => SuccessionView::Capped { name: name@, live },
            Succession::NotPlaced { name, error } => SuccessionView::NotPlaced {
                name: name@,
                error: error@,
            },
            Succession::NotStarted { name, why } => SuccessionView::NotStarted {
                name: name@,
                why: why@,
            },
            Succession::Started { dead, name, pane, successor, profile } =>
                SuccessionView::Started {
                dead,
                name: name@,
                pane,
                successor: successor@,
                profile: profile@,
            },
        }
    }
}

/// A session with a pane marked as succeeded.
pub open spec fn marked_succeeded(s: SessionView, pane: u64) -> SessionView {
    let i = s.pane_at(pane);
    if i < s.panes.len() {
        SessionView {
            panes: s.panes.update(
                i,
                PaneView {
                    life: PaneLifeView { succeeded: true, ..s.panes[i].life },
                    ..s.panes[i]
                },
            ),
            ..s
        }
    } else {
        s
    }
}

/// A session with a pane made a successor.
pub open spec fn made_successor(
    s: SessionView,
    pane: u64,
    name: Seq<char>,
    depth: u32,
    profile: Seq<char>,
) -> SessionView {
    let i = s.pane_at(pane);
    if i < s.panes.len() {
        SessionView {
            panes: s.panes.update(
                i,
                PaneView {
                    name: Some(name),
                    life: PaneLifeView {
                        spawned_by: Some(0),
                        succession_depth: depth,
                        model: Some(ModelRunView { profile, index: 0, switched: None }),
                        ..s.panes[i].life
                    },
                    ..s.panes[i]
                },
            ),
            ..s
        }
    } else {
        s
    }
}

/// What placing a successor for the first agent that ran out does. One pass places at most one;
/// against a full house the agent is marked as succeeded all the same, so that it is not tried
/// again.
pub open spec fn placing(
    s: SessionView,
    h: HandoverView,
    ps: Seq<ProfileView>,
    screens: Seq<Seq<char>>,
    max_spawned: usize,
    bars: Bars,
    shell: Seq<char>,
    fits: bool,
) -> (SessionView, SuccessionView) {
    let i = first_out(s, h, screens, 0);
    if h.exhausted.len() == 0 || h.profile is None {
        (s, SuccessionView::Nothing)
    } else {
        let profile = h.profile->Some_0;
        match profile_of(ps, profile) {
            None => (s, SuccessionView::NoProfile(profile)),
            Some(f) => if f.command_of(0) is None || i >= s.panes.len() {
                (s, SuccessionView::Nothing)
            } else {
                let dead = s.panes[i];
                let name = dead.life.agent->Some_0.name;
                let live = count_where(s.panes, self_started());
                if live >= max_spawned {
                    (
                        marked_succeeded(s, dead.id),
                        SuccessionView::Capped { name, live: live as usize },
                    )
                } else {
                    let (t, r) = splitting(
                        s,
                        bars,
                        shell,
                        Some(dead.id),
                        Dir::Right,
                        f.command_of(0),
                        fits,
                    );
                    match r {
                        Err(e) => (t, SuccessionView::NotPlaced { name, error: e }),
                        Ok(pane) => {
                            let successor = name + "-next"@;
                            (
                                made_successor(
                                    t,
                                    pane,
                                    successor,
                                    (dead.life.succession_depth + 1) as u32,
                                    profile,
                                ),
                                SuccessionView::Started {
                                    dead: dead.id,
                                    name,
                                    pane,
                                    successor,
                                    profile,
                                },
                            )
                        },
                    }
                }
            },
        }
    }
}

/// What comes of a successor once it is known whether its program started: the agent that ran out
/// is marked as succeeded where it did, and may be tried again where it did not.
pub open spec fn settled(s: SessionView, r: SuccessionView, failed: Option<Seq<char>>) -> (
    SessionView,
    SuccessionView,
) {
    match (r, failed) {
        (SuccessionView::Started { dead, .. }, None) => (marked_succeeded(s, dead), r),
        (SuccessionView::Started { name, .. }, Some(why)) => (
            s,
            SuccessionView::NotStarted { name, why },
        ),
        _ => (s, r),
    }
}

/// What starting a successor for the first agent that ran out does, where its program starts.
pub open spec fn succeeding(
    s: SessionView,
    h: HandoverView,
    ps: Seq<ProfileView>,
    screens: Seq<Seq<char>>,
    max_spawned: usize,
    bars: Bars,
    shell: Seq<char>,
    fits: bool,
) -> (SessionView, SuccessionView) {
    let (t, r) = placing(s, h, ps, screens, max_spawned, bars, shell, fits);
    settled(t, r, None)
}

/// Mark a pane as succeeded.
fn mark_succeeded(s: &mut Session, pane: u64)
    requires
        old(s)@.wf(),
    ensures
        final(s)@ == marked_succeeded(old(s)@, pane),
        final(s)@.wf(),
{
    let i: usize = s.pane_index(pane);
    if i < s.panes.len() {
        let ghost before = s@;
        s.panes[i].life.succeeded = true;
        proof {
            assert(s@.panes =~= marked_succeeded(before, pane).panes);
        }
    }
}

/// Make a pane a successor.
fn make_successor(s: &mut Session, pane: u64, name: &str, depth: u32, profile: &str)
    requires
        old(s)@.wf(),
    ensures
        final(s)@ == made_successor(old(s)@, pane, name@, depth, profile@),
        final(s)@.wf(),
{
    let i: usize = s.pane_index(pane);
    if i < s.panes.len() {
        let ghost before = s@;
        s.panes[i].name = Some(owned(name));
        s.panes[i].life.spawned_by = Some(0);
        s.panes[i].life.succession_depth = depth;
        s.panes[i].life.model =
        Some(ModelRun { profile: owned(profile), index: 0, switched: None });
        proof {
            assert(s@.panes =~= made_successor(before, pane, name@, depth, profile@).panes);
        }
    }
}

/// What the journal says of a succession, if anything: that the work changed hands.
pub open spec fn succession_lines(r: SuccessionView) -> Seq<Seq<char>> {
    match r {
        SuccessionView::Started { dead, name, pane, successor, profile } => seq![
            name + " ran out; "@ + successor + " took over"@,
        ],
        _ => Seq::empty(),
    }
}

/// It is known whether the program of a successor started, or why it did not: the journal is told
/// of one that did. The pane of one that did not is to be gone by then.
pub fn settle_succession(
    s: &mut Session,
    r: Succession,
    failed: Option<&str>,
    journal: &mut Journal,
    now: u64,
) -> (after: Succession)
    requires
        old(s)@.wf(),
    ensures
        (final(s)@, after@) == settled(old(s)@, r@, opt_str(failed)),
        final(s)@.wf(),
        final(journal)@ == old(journal)@ + notified(succession_lines(after@), now),
{
    let mut lines: Vec<String> = Vec::new();
    let after = match r {
        Succession::Started { dead, name, pane, successor, profile } => match failed {
            Some(why) => Succession::NotStarted { name, why: owned(why) },
            None => {
                mark_succeeded(s, dead);
                let mut l = name.clone();
                l.append(" ran out; ");
                l.append(successor.as_str());
                l.append(" took over");
                lines.push(l);
                Succession::Started { dead, name, pane, successor, profile }
            },
        },
        other => other,
    };
    proof {
        assert(texts(lines@) =~= succession_lines(after@));
    }
    journal.notify(&lines, now);
    after
}

/// Start a successor for an agent that ran out without handing over, where its program starts, and
/// say so in the journal. `screens` has what each pane shows, and `fits` says whether there is room
/// beside the one that ran out.
pub fn succeed_exhausted(
    s: &mut Session,
    h: &Handover,
    ps: &Vec<Profile>,
    screens: &Vec<String>,
    max_spawned: usize,
    bars: Bars,
    shell: &str,
    fits: bool,
    journal: &mut Journal,
    now: u64,
) -> (r: Succession)
    requires
        old(s)@.wf(),
        old(s)@.has_ids(),
        screens@.len() == old(s)@.panes.len(),
    ensures
        (final(s)@, r@) == succeeding(
            old(s)@,
            h@,
            profile_views(ps@),
            texts(screens@),
            max_spawned,
            bars,
            shell@,
            fits,
        ),
        final(s)@.wf(),
        final(journal)@ == old(journal)@ + notified(succession_lines(r@), now),
{
    let r = place_successor(s, h, ps, screens, max_spawned, bars, shell, fits);
    settle_succession(s, r, None, journal, now)
}

/// Place a successor for an agent that ran out. What is left follows with [`settle_succession`],
/// once it is known whether its program started.
pub fn place_successor(
    s: &mut Session,
    h: &Handover,
    ps: &Vec<Profile>,
    screens: &Vec<String>,
    max_spawned: usize,
    bars: Bars,
    shell: &str,
    fits: bool,
) -> (r: Succession)
    requires
        old(s)@.wf(),
        old(s)@.has_ids(),
        screens@.len() == old(s)@.panes.len(),
    ensures
        (final(s)@, r@) == placing(
            old(s)@,
            h@,
            profile_views(ps@),
            texts(screens@),
            max_spawned,
            bars,
            shell@,
            fits,
        ),
        final(s)@.wf(),
{
    let ghost sc = texts(screens@);
    proof {
        assert(texts(h.exhausted@).len() == h.exhausted@.len());
    }
    if h.exhausted.len() == 0 {
        return Succession::Nothing;
    }
    let profile = match &h.profile {
        Some(p) => p.clone(),
        None => {
            return Succession::Nothing;
        },
    };
    let k: usize = match find_profile(ps, profile.as_str()) {
        Some(k) => k,
        None => {
            return Succession::NoProfile(profile);
        },
    };
    let cmd = match ps[k].command(0) {
        Some(c) => c,
        None => {
            return Succession::Nothing;
        },
    };
    let i: usize = find_out(s, h, screens);
    if i == s.panes.len() {
        return Succession::Nothing;
    }
    proof {
        assert(s@.panes[i as int] == s.panes@[i as int]@);
    }
    let dead: u64 = s.panes[i].id;
    let depth: u32 = s.panes[i].life.succession_depth;
    let name = match &s.panes[i].life.agent {
        Some(a) => a.name.clone(),
        None => String::new(),
    };
    let live: usize = live_spawned(s);
    if live >= max_spawned {
        mark_succeeded(s, dead);
        return Succession::Capped { name, live };
    }
    let pane = match s.split(bars, shell, Some(dead), Dir::Right, Some(cmd.as_str()), fits) {
        Ok(p) => p,
        Err(error) => {
            return Succession::NotPlaced { name, error };
        },
    };
    let mut successor = name.clone();
    successor.append("-next");
    make_successor(s, pane, successor.as_str(), depth + 1, profile.as_str());
    Succession::Started { dead, name, pane, successor, profile }
}

/// The first pane whose agent has run out and may have a successor.
pub fn find_out(s: &Session, h: &Handover, screens: &Vec<String>) -> (r: usize)
    requires
        screens@.len() == s@.panes.len(),
    ensures
        r <= s.panes@.len(),
        r == first_out(s@, h@, texts(screens@), 0),
        r < s.panes@.len() ==> is_out(h@, s@.panes[r as int], texts(screens@)[r as int]),
{
    let ghost sc = texts(screens@);
    let mut i: usize = 0;
    while i < s.panes.len()
        invariant
            i <= s.panes@.len(),
            screens@.len() == s@.panes.len(),
            sc == texts(screens@),
            first_out(s@, h@, sc, 0) == first_out(s@, h@, sc, i as int),
        decreases s.panes@.len() - i,
    {
        proof {
            assert(s@.panes[i as int] == s.panes@[i as int]@);
            assert(sc[i as int] == screens@[i as int]@);
        }
        let p = &s.panes[i];
        let talks = match &p.life.agent {
            Some(a) => a.class == AgentClass::Agent,
            None => false,
        };
        if talks && !p.life.succeeded && p.life.succession_depth < h.max_chain && screen_says_any(
            screens[i].as_str(),
            &h.exhausted,
        ) {
            return i;
        }
        i = i + 1;
    }
    i
}

/// A chain of successors stops at its limit: an agent that is as far along as agents may
/// follow one another has none.
pub proof fn law_a_chain_stops_at_its_limit(h: HandoverView, p: PaneView, screen: Seq<char>)
    requires
        p.life.succession_depth >= h.max_chain || p.life.succeeded,
    ensures
        !is_out(h, p, screen),
{
}

// -- briefs ------------------------------------------------------------------

/// The lines with anything in them.
pub open spec fn unblank(ls: Seq<Seq<char>>) -> Seq<Seq<char>> {
    pick(ls, |l: Seq<char>| trimmed(l).len() > 0, |l: Seq<char>| l)
}

/// How many lines of a screen a brief quotes.
pub const QUOTED: usize = 12;

/// The last lines of a screen that have anything in them.
pub open spec fn last_lines(ls: Seq<Seq<char>>) -> Seq<Seq<char>> {
    let u = unblank(ls);
    if u.len() <= QUOTED {
        u
    } else {
        u.skip(u.len() - QUOTED)
    }
}

/// Lines, each indented and on its own.
pub open spec fn indented(ls: Seq<Seq<char>>) -> Seq<char>
    decreases ls.len(),
{
    if ls.len() == 0 {
        Seq::empty()
    } else {
        indented(ls.drop_last()) + "  "@ + trimmed_end(ls.last()) + "\n"@
    }
}

/// What a successor is told about the agent it replaces.
pub open spec fn brief_text(
    name: Seq<char>,
    cwd: Seq<char>,
    note: Option<Seq<char>>,
    facts: Option<RepoView>,
    screen: Seq<Seq<char>>,
) -> Seq<char> {
    let a = "You are taking over from "@ + name
        + ", which ran out mid-task and could not brief you itself.\n"@ + "Working directory: "@
        + cwd + "\n"@;
    let b = match note {
        Some(n) => a + "It left notes at "@ + n + " — read those first.\n"@,
        None => a,
    };
    let c = match facts {
        Some(f) => b + "Git: branch "@ + f.branch + ", working tree "@ + (if f.dirty {
            "DIRTY — it stopped mid-edit, check `git diff` before changing anything"@
        } else {
            "clean"@
        }) + ".\n"@,
        None => b,
    };
    let tail = last_lines(screen);
    let d = if tail.len() > 0 {
        c + "\nThe last of its screen:\n"@ + indented(tail)
    } else {
        c
    };
    d
        + "\nRead before writing. Its work is unfinished, not wrong, and undoing it costs more than finishing it."@
}

/// The last lines of a screen that have anything in them.
fn tail_lines(ls: &Vec<String>) -> (r: Vec<String>)
    ensures
        texts(r@) == last_lines(texts(ls@)),
{
    let ghost all = texts(ls@);
    let ghost p = |l: Seq<char>| trimmed(l).len() > 0;
    let ghost f = |l: Seq<char>| l;
    let mut full: Vec<String> = Vec::new();
    let mut i: usize = 0;
    proof {
        assert(texts(full@) =~= pick(all.take(0), p, f));
    }
    while i < ls.len()
        invariant
            i <= ls@.len(),
            all == texts(ls@),
            p == (|l: Seq<char>| trimmed(l).len() > 0),
            f == (|l: Seq<char>| l),
            texts(full@) == pick(all.take(i as int), p, f),
        decreases ls@.len() - i,
    {
        proof {
            lemma_pick_take(all, p, f, i as int);
            assert(all[i as int] == ls@[i as int]@);
        }
        if !trim(ls[i].as_str()).as_str().is_empty() {
            let ghost had = texts(full@);
            full.push(ls[i].clone());
            proof {
                assert(texts(full@) =~= had.push(ls@[i as int]@));
            }
        }
        i = i + 1;
    }
    proof {
        assert(all.take(i as int) =~= all);
        assert(texts(full@) == unblank(all));
        assert(texts(full@).len() == full@.len());
    }
    let n: usize = full.len();
    if n <= QUOTED {
        return full;
    }
    let mut out: Vec<String> = Vec::new();
    let mut k: usize = n - QUOTED;
    while k < n
        invariant
            n == full@.len(),
            n > QUOTED,
            n - QUOTED <= k <= n,
            out@.len() == k - (n - QUOTED),
            forall|j: int|
                0 <= j < out@.len() ==> (#[trigger] out@[j])@ == full@[n - QUOTED + j]@,
        decreases n - k,
    {
        out.push(full[k].clone());
        k = k + 1;
    }
    proof {
        assert(texts(out@) =~= texts(full@).skip(n - QUOTED));
    }
    out
}

/// Everything known about an agent that ran out, as a briefing for the one replacing it.
/// `note` is where it left notes, if it did, and `screen` the lines it showed.
pub fn compose_brief(
    name: &str,
    cwd: &str,
    note: Option<&str>,
    facts: Option<&Repo>,
    screen: &Vec<String>,
) -> (r: String)
    ensures
        r@ == brief_text(
            name@,
            cwd@,
            opt_str(note),
            match facts {
                Some(f) => Some(f@),
                None => None,
            },
            texts(screen@),
        ),
{
    let mut out = owned("You are taking over from ");
    out.append(name);
    out.append(", which ran out mid-task and could not brief you itself.\n");
    out.append("Working directory: ");
    out.append(cwd);
    out.append("\n");
    // If the agent did leave a note, that beats everything below it: say so first.
    if let Some(n) = note {
        out.append("It left notes at ");
        out.append(n);
        out.append(" — read those first.\n");
    }
    if let Some(f) = facts {
        out.append("Git: branch ");
        out.append(f.branch.as_str());
        out.append(", working tree ");
        out.append(
            if f.dirty {
                "DIRTY — it stopped mid-edit, check `git diff` before changing anything"
            } else {
                "clean"
            },
        );
        out.append(".\n");
    }
    let tail = tail_lines(screen);
    proof {
        assert(texts(tail@).len() == tail@.len());
    }
    if tail.len() > 0 {
        out.append("\nThe last of its screen:\n");
        let mut quoted_lines = String::new();
        let mut i: usize = 0;
        proof {
            assert(texts(tail@).take(0) =~= Seq::<Seq<char>>::empty());
        }
        while i < tail.len()
            invariant
                i <= tail@.len(),
                quoted_lines@ == indented(texts(tail@).take(i as int)),
            decreases tail@.len() - i,
        {
            quoted_lines.append("  ");
            quoted_lines.append(trim_end(tail[i].as_str()).as_str());
            quoted_lines.append("\n");
            proof {
                let ts = texts(tail@);
                assert(ts.take(i as int + 1).drop_last() =~= ts.take(i as int));
                assert(ts.take(i as int + 1).last() == tail@[i as int]@);
            }
            i = i + 1;
        }
        proof {
            assert(texts(tail@).take(i as int) =~= texts(tail@));
        }
        out.append(quoted_lines.as_str());
    }
    out.append(
        "\nRead before writing. Its work is unfinished, not wrong, and undoing it costs more than finishing it.",
    );
    out
}

/// The note that a handover is filed as, linked to both ends: nothing for an agent that left
/// nothing.
pub fn handoff_note(name: &str, project: &str, successor: &str, left: &str) -> (r: Option<String>)
    ensures
        opt_text(r) == (if trimmed(left@).len() == 0 {
            None
        } else {
            Some(
                "# Handoff — "@ + name@ + "\n\nProject: [["@ + project@
                    + "]]\nTaken over by: [["@ + successor@ + "]]\n\n"@ + trimmed(left@),
            )
        }),
{
    let body = trim(left);
    if body.as_str().is_empty() {
        return None;
    }
    let mut note = owned("# Handoff — ");
    note.append(name);
    note.append("\n\nProject: [[");
    note.append(project);
    note.append("]]\nTaken over by: [[");
    note.append(successor);
    note.append("]]\n\n");
    note.append(body.as_str());
    Some(note)
}

/// The name of the note that a handover is filed as.
pub fn handoff_name(name: &str, day: &str) -> (r: String)
    ensures
        r@ == "Handoff — "@ + name@ + " "@ + day@ + ".md"@,
{
    let mut n = owned("Handoff — ");
    n.append(name);
    n.append(" ");
    n.append(day);
    n.append(".md");
    n
}

/// Where an agent leaves its notes.
pub fn notes_path(name: &str) -> (r: String)
    ensures
        r@ == ".horde/handoff-"@ + name@ + ".md"@,
{
    let mut p = owned(".horde/handoff-");
    p.append(name);
    p.append(".md");
    p
}

} // verus!
