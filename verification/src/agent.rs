//! What is known about the agent in a pane.

use crate::proto::{AgentState, Question, QuestionView};
use crate::tasks::listed;
use crate::text::{as_opt, opt_str, opt_text, own_opt, owned, texts};
use vstd::prelude::*;
use vstd::string::*;

verus! {

/// What an agent has done this turn, counted from its hooks.
#[derive(Debug, Clone, PartialEq, Eq)]
pub struct Activity {
    pub turns: u32,
    pub tools: u32,
    pub files: u32,
    pub errors: u32,
    pub last_tool: Option<String>,
}

/// The same, as values.
pub struct ActivityView {
    pub turns: u32,
    pub tools: u32,
    pub files: u32,
    pub errors: u32,
    pub last_tool: Option<Seq<char>>,
}

impl View for Activity {
    type V = ActivityView;

    open spec fn view(&self) -> ActivityView {
        ActivityView {
            turns: self.turns,
            tools: self.tools,
            files: self.files,
            errors: self.errors,
            last_tool: opt_text(self.last_tool),
        }
    }
}

impl Activity {
    /// Nothing done yet.
    pub fn none() -> (r: Activity)
        ensures
            r@ == (ActivityView { turns: 0, tools: 0, files: 0, errors: 0, last_tool: None }),
    {
        Activity { turns: 0, tools: 0, files: 0, errors: 0, last_tool: None }
    }

    /// A copy.
    pub fn copy(&self) -> (r: Activity)
        ensures
            r@ == self@,
    {
        Activity {
            turns: self.turns,
            tools: self.tools,
            files: self.files,
            errors: self.errors,
            last_tool: own_opt(as_opt(&self.last_tool)),
        }
    }
}

/// The counters as a turn begins: they describe one turn, not a session.
pub open spec fn turn_begun(a: ActivityView) -> ActivityView {
    ActivityView { turns: (a.turns + 1) as u32, tools: 0, files: 0, errors: 0, last_tool: None }
}

/// What kind of program an agent is.
#[derive(Debug, Clone, Copy, PartialEq, Eq, Structural)]
pub enum AgentClass {
    /// Something there is a conversation with.
    Agent,
    /// A program that runs and is watched, such as a server.
    Service,
}

/// Agent state attached to a pane.
#[derive(Debug, Clone, PartialEq, Eq)]
pub struct AgentRuntime {
    pub kind: String,
    pub name: String,
    pub class: AgentClass,
    pub state: AgentState,
    /// When the state began, in unix millis.
    pub since: u64,
    pub authority: String,
    pub reason: String,
    /// True once the user has looked at this pane since it finished.
    pub seen: bool,
    /// Native session id reported by an integration, used to resume after a restart.
    pub session_id: Option<String>,
    /// Messages held back because the agent was mid-stream.
    pub queued: Vec<String>,
    /// What it is waiting to be told, where that could be read off its screen.
    pub question: Option<Question>,
    pub activity: Activity,
    /// Files touched this turn, each once.
    pub touched: Vec<String>,
    /// The `since` value at which this agent was last told about board work: each idle period
    /// earns exactly one nudge.
    pub nudged_since: Option<u64>,
    /// The `since` value at which an alert about this agent was last sent: one wait earns one
    /// notification.
    pub alerted_since: Option<u64>,
}

/// An agent, as values.
pub struct AgentView {
    pub kind: Seq<char>,
    pub name: Seq<char>,
    pub class: AgentClass,
    pub state: AgentState,
    pub since: u64,
    pub authority: Seq<char>,
    pub reason: Seq<char>,
    pub seen: bool,
    pub session_id: Option<Seq<char>>,
    pub queued: Seq<Seq<char>>,
    pub question: Option<QuestionView>,
    pub activity: ActivityView,
    pub touched: Seq<Seq<char>>,
    pub nudged_since: Option<u64>,
    pub alerted_since: Option<u64>,
}

impl View for AgentRuntime {
    type V = AgentView;

    open spec fn view(&self) -> AgentView {
        AgentView {
            kind: self.kind@,
            name: self.name@,
            class: self.class,
            state: self.state,
            since: self.since,
            authority: self.authority@,
            reason: self.reason@,
            seen: self.seen,
            session_id: opt_text(self.session_id),
            queued: texts(self.queued@),
            question: match self.question {
                Some(q) => Some(q@),
                None => None,
            },
            activity: self.activity@,
            touched: texts(self.touched@),
            nudged_since: self.nudged_since,
            alerted_since: self.alerted_since,
        }
    }
}

/// An agent that may not be there, as values.
pub open spec fn opt_agent(a: Option<AgentRuntime>) -> Option<AgentView> {
    match a {
        Some(a) => Some(a@),
        None => None,
    }
}

/// What a client is told about an agent.
#[derive(Debug, Clone, PartialEq, Eq)]
pub struct AgentInfo {
    pub kind: String,
    pub name: String,
    pub state: AgentState,
    /// Seconds in the state.
    pub elapsed: u64,
    pub authority: String,
    pub reason: String,
    pub activity: Activity,
}

/// The same, as values.
pub struct AgentInfoView {
    pub kind: Seq<char>,
    pub name: Seq<char>,
    pub state: AgentState,
    pub elapsed: u64,
    pub authority: Seq<char>,
    pub reason: Seq<char>,
    pub activity: ActivityView,
}

impl View for AgentInfo {
    type V = AgentInfoView;

    open spec fn view(&self) -> AgentInfoView {
        AgentInfoView {
            kind: self.kind@,
            name: self.name@,
            state: self.state,
            elapsed: self.elapsed,
            authority: self.authority@,
            reason: self.reason@,
            activity: self.activity@,
        }
    }
}

/// Whole seconds from one moment to another: none where the clock has gone back.
pub open spec fn secs_since(since: u64, now: u64) -> u64 {
    if now < since {
        0
    } else {
        ((now - since) / 1000) as u64
    }
}

impl AgentView {
    /// What a client is told.
    pub open spec fn info_at(self, now: u64) -> AgentInfoView {
        AgentInfoView {
            kind: self.kind,
            name: self.name,
            state: self.state,
            elapsed: secs_since(self.since, now),
            authority: self.authority,
            reason: self.reason,
            activity: self.activity,
        }
    }
}

impl AgentRuntime {
    /// What a client is told about this agent, at a given time.
    pub fn info(&self, now: u64) -> (r: AgentInfo)
        ensures
            r@ == self@.info_at(now),
    {
        AgentInfo {
            kind: self.kind.clone(),
            name: self.name.clone(),
            state: self.state,
            elapsed: now.saturating_sub(self.since) / 1000,
            authority: self.authority.clone(),
            reason: self.reason.clone(),
            activity: self.activity.copy(),
        }
    }

    /// Start of a new turn: the per-turn counters describe one turn, not a session.
    pub fn begin_turn(&mut self)
        requires
            old(self).activity.turns < u32::MAX,
        ensures
            final(self).activity@ == turn_begun(old(self).activity@),
            final(self).touched@.len() == 0,
            *final(self) == (AgentRuntime {
                activity: final(self).activity,
                touched: final(self).touched,
                ..*old(self)
            }),
    {
        self.activity = Activity {
            turns: self.activity.turns + 1,
            tools: 0,
            files: 0,
            errors: 0,
            last_tool: None,
        };
        self.touched = Vec::new();
    }

    /// A tool call started. `file` is whatever path the tool was given, when it had one. A file
    /// edited five times counts once.
    pub fn record_tool(&mut self, tool: Option<&str>, file: Option<&str>)
        requires
            old(self).activity.tools < u32::MAX,
            old(self).touched@.len() < u32::MAX,
        ensures
            (texts(final(self).touched@), final(self).activity@) == recorded(
                texts(old(self).touched@),
                old(self).activity@,
                Call { tool: opt_str(tool), file: opt_str(file) },
            ),
            *final(self) == (AgentRuntime {
                activity: final(self).activity,
                touched: final(self).touched,
                ..*old(self)
            }),
    {
        let last_tool = match tool {
            Some(t) => Some(owned(t)),
            None => own_opt(as_opt(&self.activity.last_tool)),
        };
        let mut files: u32 = self.activity.files;
        if let Some(f) = file {
            if !listed(self.touched.as_slice(), f) {
                self.touched.push(owned(f));
                files = self.touched.len() as u32;
            }
        }
        proof {
            if file is Some && !texts(old(self).touched@).contains(file->Some_0@) {
                assert(texts(self.touched@) =~= texts(old(self).touched@).push(file->Some_0@));
            } else {
                assert(texts(self.touched@) =~= texts(old(self).touched@));
            }
        }
        self.activity = Activity {
            turns: self.activity.turns,
            tools: self.activity.tools + 1,
            files,
            errors: self.activity.errors,
            last_tool,
        };
    }

    /// A tool call failed.
    pub fn record_error(&mut self)
        requires
            old(self).activity.errors < u32::MAX,
        ensures
            *final(self) == (AgentRuntime {
                activity: Activity {
                    errors: (old(self).activity.errors + 1) as u32,
                    ..old(self).activity
                },
                ..*old(self)
            }),
    {
        self.activity.errors = self.activity.errors + 1;
    }
}

/// A tool call: the tool, and the file it was given, as far as they are known.
pub struct Call {
    pub tool: Option<Seq<char>>,
    pub file: Option<Seq<char>>,
}

/// What recording a call does to the files touched and the counters.
pub open spec fn recorded(touched: Seq<Seq<char>>, a: ActivityView, c: Call) -> (
    Seq<Seq<char>>,
    ActivityView,
) {
    let new = c.file is Some && !touched.contains(c.file->Some_0);
    (
        if new {
            touched.push(c.file->Some_0)
        } else {
            touched
        },
        ActivityView {
            tools: (a.tools + 1) as u32,
            last_tool: if c.tool is Some {
                c.tool
            } else {
                a.last_tool
            },
            files: if new {
                (touched.len() + 1) as u32
            } else {
                a.files
            },
            ..a
        },
    )
}

/// What recording some calls, one after the other, does.
pub open spec fn all_recorded(touched: Seq<Seq<char>>, a: ActivityView, cs: Seq<Call>) -> (
    Seq<Seq<char>>,
    ActivityView,
)
    decreases cs.len(),
{
    if cs.len() == 0 {
        (touched, a)
    } else {
        let (t, b) = all_recorded(touched, a, cs.drop_last());
        recorded(t, b, cs.last())
    }
}

/// The files that some calls were given.
pub open spec fn files_given(cs: Seq<Call>) -> Set<Seq<char>> {
    Set::new(
        |f: Seq<char>| exists|i: int| 0 <= i < cs.len() && (#[trigger] cs[i]).file == Some(f),
    )
}

/// The last tool that some calls name.
pub open spec fn last_tool(cs: Seq<Call>) -> Option<Seq<char>>
    decreases cs.len(),
{
    if cs.len() == 0 {
        None
    } else if cs.last().tool is Some {
        cs.last().tool
    } else {
        last_tool(cs.drop_last())
    }
}

proof fn lemma_turn(turns: u32, cs: Seq<Call>)
    requires
        cs.len() <= u32::MAX,
    ensures
        ({
            let begun = ActivityView { turns, tools: 0, files: 0, errors: 0, last_tool: None };
            let (touched, a) = all_recorded(Seq::empty(), begun, cs);
            &&& a.tools == cs.len()
            &&& a.files == touched.len()
            &&& touched.no_duplicates()
            &&& touched.to_set() == files_given(cs)
            &&& files_given(cs).finite()
            &&& a.files == files_given(cs).len()
            &&& a.last_tool == last_tool(cs)
            &&& a.errors == 0
            &&& a.turns == turns
            &&& touched.len() <= cs.len()
        }),
    decreases cs.len(),
{
    let begun = ActivityView { turns, tools: 0, files: 0, errors: 0, last_tool: None };
    let (touched, a) = all_recorded(Seq::empty(), begun, cs);
    if cs.len() == 0 {
        assert(touched.to_set() =~= files_given(cs));
    } else {
        let before = cs.drop_last();
        lemma_turn(turns, before);
        let (t, b) = all_recorded(Seq::empty(), begun, before);
        let c = cs.last();
        if c.file is Some {
            law_a_file_counts_once(t, c.file->Some_0);
        }
        assert forall|f: Seq<char>| touched.contains(f) == files_given(cs).contains(f) by {
            if t.contains(f) {
                assert(files_given(before).contains(f)) by {
                    assert(t.to_set().contains(f));
                }
                let i = choose|i: int|
                    0 <= i < before.len() && (#[trigger] before[i]).file == Some(f);
                assert(cs[i].file == Some(f));
                let k = choose|k: int| 0 <= k < t.len() && t[k] == f;
                assert(touched[k] == f);
            }
            if c.file == Some(f) {
                assert(cs[cs.len() - 1].file == Some(f));
                if !t.contains(f) {
                    assert(touched[t.len() as int] == f);
                }
            }
            if files_given(cs).contains(f) && c.file != Some(f) {
                let i = choose|i: int| 0 <= i < cs.len() && (#[trigger] cs[i]).file == Some(f);
                assert(before[i].file == Some(f));
                assert(files_given(before).contains(f));
                assert(t.to_set().contains(f));
            }
            if touched.contains(f) && c.file != Some(f) {
                let k = choose|k: int| 0 <= k < touched.len() && touched[k] == f;
                assert(t[k] == f);
            }
        }
        assert(touched.to_set() =~= files_given(cs));
    }
    touched.unique_seq_to_set();
}

/// A turn's counters, however many calls there were since it began: as many tools as calls, as
/// many files as there are different ones among those given, the last tool that was named, no
/// errors, and one turn more than before.
pub proof fn law_a_turn_is_counted(before: ActivityView, cs: Seq<Call>)
    requires
        before.turns < u32::MAX,
        cs.len() <= u32::MAX,
    ensures
        ({
            let (touched, a) = all_recorded(Seq::empty(), turn_begun(before), cs);
            &&& a.tools == cs.len()
            &&& a.files == touched.len()
            &&& touched.no_duplicates()
            &&& touched.to_set() == files_given(cs)
            &&& files_given(cs).finite()
            &&& a.files == files_given(cs).len()
            &&& a.last_tool == last_tool(cs)
            &&& a.errors == 0
            &&& a.turns == before.turns + 1
        }),
{
    lemma_turn((before.turns + 1) as u32, cs);
}

/// Files counted for a turn are distinct: recording calls keeps the list of files free of
/// repetitions and the count equal to its length.
pub proof fn law_a_file_counts_once(touched: Seq<Seq<char>>, file: Seq<char>)
    requires
        touched.no_duplicates(),
    ensures
        !touched.contains(file) ==> touched.push(file).no_duplicates(),
{
    if !touched.contains(file) {
        let t = touched.push(file);
        assert forall|i: int, j: int| 0 <= i < t.len() && 0 <= j < t.len() && i != j implies t[i]
            != t[j] by {
            if i < touched.len() && j == touched.len() {
                assert(touched[i] != file);
            }
            if j < touched.len() && i == touched.len() {
                assert(touched[j] != file);
            }
        }
    }
}

} // verus!
