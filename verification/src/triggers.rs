//! The part that acts when nobody is watching.
//!
//! Almost all of this is about *not* firing. The mechanism is a timestamp comparison; the
//! engineering is the guards: a master switch, one piece of work in flight per trigger, a floor
//! on the interval, a ceiling on firings per hour across all triggers, a cap on agents started,
//! an unmet condition that spends its interval, and a failed action that still counts.
//!
//! The store never runs anything and never touches a file. Changes to rules are queued in
//! `unwritten` for the log, conditions are started and polled by whoever drives the store, and
//! what a firing does outside the board is handed back as an [`Act`].

use std::collections::HashMap;

use crate::clock::now_millis;
use crate::journal::{fired_from, EntryView, HappeningView};
use crate::schedule::{
    day_allowed, day_start, has_day, last_occurrence, occurrence, LocalTime, MAX_MILLIS, MIN_INTERVAL_SECS,
    When,
};
use crate::seqs::{
    count_where, first_where, lemma_count_none, lemma_count_take, lemma_first_where,
    lemma_first_where_is, lemma_pick_take, pick,
};
use crate::tasks::{
    adding, law_outstanding_work_is_never_forgotten, new_task, Board, BoardView, TaskView,
};
use crate::text::{as_opt, decimal, number, opt_str, opt_text, own_opt, owned, same, trim, trimmed};
use vstd::prelude::*;
use vstd::string::*;

verus! {

broadcast use vstd::std_specs::hash::group_hash_axioms;

/// Triggers kept in memory. Far above any plausible number of rules; a backstop.
pub const CAP: usize = 500;

/// Most firings allowed in any rolling hour, counted across every trigger together.
pub const MAX_PER_HOUR: usize = 12;

/// A rolling hour, in millis.
pub const HOUR: u64 = 3_600_000;

/// How long a condition may take, in millis, before it is abandoned.
pub const PROBE_TIMEOUT: u64 = 60_000;

/// The time from one moment to another: none where the clock has gone back.
pub open spec fn elapsed(from: u64, to: u64) -> int {
    if to < from {
        0
    } else {
        to - from
    }
}

/// What a trigger does.
#[derive(Debug, Clone, PartialEq, Eq)]
pub enum What {
    /// Put work on the board. The one to reach for: it composes with the nudge and the claim.
    Task { text: String },
    /// Push a line at one named agent.
    Send { to: String, body: String },
    /// Start an agent.
    Spawn { cmd: String, name: Option<String> },
}

/// What a trigger does, as text.
pub enum WhatView {
    Task { text: Seq<char> },
    Send { to: Seq<char>, body: Seq<char> },
    Spawn { cmd: Seq<char>, name: Option<Seq<char>> },
}

impl View for What {
    type V = WhatView;

    open spec fn view(&self) -> WhatView {
        match *self {
            What::Task { text } => WhatView::Task { text: text@ },
            What::Send { to, body } => WhatView::Send { to: to@, body: body@ },
            What::Spawn { cmd, name } => WhatView::Spawn { cmd: cmd@, name: opt_text(name) },
        }
    }
}

impl WhatView {
    /// How an action reads.
    pub open spec fn words(self) -> Seq<char> {
        match self {
            WhatView::Task { text } => "board: "@ + text,
            WhatView::Send { to, body } => "send "@ + to + ": "@ + body,
            WhatView::Spawn { cmd, name } => match name {
                Some(n) => "spawn "@ + cmd + " as "@ + n,
                None => "spawn "@ + cmd,
            },
        }
    }
}

impl What {
    /// A copy.
    pub fn copy(&self) -> (r: What)
        ensures
            r@ == self@,
    {
        match self {
            What::Task { text } => What::Task { text: text.clone() },
            What::Send { to, body } => What::Send { to: to.clone(), body: body.clone() },
            What::Spawn { cmd, name } => What::Spawn {
                cmd: cmd.clone(),
                name: own_opt(as_opt(name)),
            },
        }
    }

    /// The action on one line.
    pub fn describe(&self) -> (r: String)
        ensures
            r@ == self@.words(),
    {
        match self {
            What::Task { text } => {
                let mut s = owned("board: ");
                s.append(text.as_str());
                s
            },
            What::Send { to, body } => {
                let mut s = owned("send ");
                s.append(to.as_str());
                s.append(": ");
                s.append(body.as_str());
                s
            },
            What::Spawn { cmd, name } => {
                let mut s = owned("spawn ");
                s.append(cmd.as_str());
                if let Some(n) = name {
                    s.append(" as ");
                    s.append(n.as_str());
                }
                s
            },
        }
    }
}

#[derive(Debug, Clone, PartialEq, Eq)]
pub struct Trigger {
    pub id: u64,
    pub when: When,
    pub what: What,
    pub enabled: bool,
    /// Unix millis.
    pub created: u64,
    /// Who added it: `user`, or the agent that did.
    pub by: String,
    /// Which project the rule belongs to, by space name.
    pub space: Option<String>,
    pub last_fired: Option<u64>,
    pub fire_count: u64,
    /// Shell condition. The rule acts only when this exits 0.
    pub only_if: Option<String>,
    /// When the schedule last came round, whether or not it fired.
    pub last_eval: Option<u64>,
    /// Removed. Kept in the log so the record of what once fired here survives.
    pub deleted: bool,
}

/// A trigger, as text and numbers.
pub struct TriggerView {
    pub id: u64,
    pub when: When,
    pub what: WhatView,
    pub enabled: bool,
    pub created: u64,
    pub by: Seq<char>,
    pub space: Option<Seq<char>>,
    pub last_fired: Option<u64>,
    pub fire_count: u64,
    pub only_if: Option<Seq<char>>,
    pub last_eval: Option<u64>,
    pub deleted: bool,
}

impl View for Trigger {
    type V = TriggerView;

    open spec fn view(&self) -> TriggerView {
        TriggerView {
            id: self.id,
            when: self.when,
            what: self.what@,
            enabled: self.enabled,
            created: self.created,
            by: self.by@,
            space: opt_text(self.space),
            last_fired: self.last_fired,
            fire_count: self.fire_count,
            only_if: opt_text(self.only_if),
            last_eval: self.last_eval,
            deleted: self.deleted,
        }
    }
}

impl TriggerView {
    /// The whole rule on one line.
    pub open spec fn words(self) -> Seq<char> {
        match self.only_if {
            Some(c) => self.when.words() + " if `"@ + c + "` · "@ + self.what.words(),
            None => self.when.words() + " · "@ + self.what.words(),
        }
    }

    /// What the next firing is measured from: the last time the schedule came round, or the
    /// last firing, or creation.
    pub open spec fn measured_from(self) -> u64 {
        match (self.last_eval, self.last_fired) {
            (Some(t), _) => t,
            (None, Some(t)) => t,
            (None, None) => self.created,
        }
    }

    /// Whether the schedule has come round. `wday` is the local weekday of the last time an
    /// `at` came round. A day the rule excludes wins over running late: a run that was missed on
    /// a day of the rule's is not made up on one that is not.
    pub open spec fn due(self, now: u64, here: LocalTime, wday: u32) -> bool {
        match self.when {
            When::Every { secs } => elapsed(self.measured_from(), now) >= secs * 1000,
            When::At { hour, min, days } => has_day(days, wday as u8) && has_day(
                days,
                here.wday as u8,
            ) && self.measured_from() < occurrence(now as int, here, hour as int, min as int),
        }
    }

    /// A rule that has fired.
    pub open spec fn fired(self, now: u64) -> TriggerView {
        TriggerView {
            last_fired: Some(now),
            last_eval: Some(now),
            fire_count: if self.fire_count == u64::MAX {
                u64::MAX
            } else {
                (self.fire_count + 1) as u64
            },
            ..self
        }
    }

    /// A rule whose schedule came round to no effect.
    pub open spec fn checked(self, now: u64) -> TriggerView {
        TriggerView { last_eval: Some(now), ..self }
    }
}

impl Trigger {
    /// A copy.
    pub fn copy(&self) -> (r: Trigger)
        ensures
            r@ == self@,
    {
        Trigger {
            id: self.id,
            when: self.when,
            what: self.what.copy(),
            enabled: self.enabled,
            created: self.created,
            by: self.by.clone(),
            space: own_opt(as_opt(&self.space)),
            last_fired: self.last_fired,
            fire_count: self.fire_count,
            only_if: own_opt(as_opt(&self.only_if)),
            last_eval: self.last_eval,
            deleted: self.deleted,
        }
    }

    /// The whole rule on one line: schedule, condition, action.
    pub fn describe(&self) -> (r: String)
        ensures
            r@ == self@.words(),
    {
        let mut s = self.when.describe();
        match &self.only_if {
            Some(c) => {
                s.append(" if `");
                s.append(c.as_str());
                s.append("` · ");
            },
            None => {
                s.append(" · ");
            },
        }
        s.append(self.what.describe().as_str());
        s
    }

    /// What the next firing is measured from.
    ///
    /// Creation rather than zero for a rule that never fired, so adding `every 30m` waits its
    /// thirty minutes instead of firing the instant you add it.
    pub fn baseline(&self) -> (r: u64)
        ensures
            r == self@.measured_from(),
    {
        match self.last_eval {
            Some(t) => t,
            None => match self.last_fired {
                Some(t) => t,
                None => self.created,
            },
        }
    }

    /// The moment whose weekday [`Trigger::is_due`] needs: the last time the rule's time of
    /// day came round, or now for a rule without one.
    pub fn schedule_point(&self, now: u64, here: LocalTime) -> (r: u64)
        requires
            now <= MAX_MILLIS,
        ensures
            r == self@.point(now, here),
    {
        match self.when {
            When::Every { secs } => now,
            When::At { hour, min, days } => last_occurrence(now, here, hour, min),
        }
    }

    /// Whether the schedule has come round.
    ///
    /// Late rather than skipped: if nothing ran at nine, a rule that has not run since before
    /// nine still runs later that day. It does not run on a day that the rule excludes: running
    /// late is a courtesy, and running on such a day is disobeying the rule.
    pub fn is_due(&self, now: u64, here: LocalTime, wday: u32) -> (r: bool)
        requires
            now <= MAX_MILLIS,
            here.wday < 7,
            wday < 7,
        ensures
            r == self@.due(now, here, wday),
    {
        match self.when {
            When::Every { secs } => {
                let base = self.baseline();
                now.saturating_sub(base) / 1000 >= secs
            },
            When::At { hour, min, days } => {
                let then = last_occurrence(now, here, hour, min);
                day_allowed(wday, days) && day_allowed(here.wday, days) && self.baseline() < then
            },
        }
    }
}

impl TriggerView {
    /// The moment whose weekday decides an `at` rule.
    pub open spec fn point(self, now: u64, here: LocalTime) -> int {
        match self.when {
            When::Every { secs } => now as int,
            When::At { hour, min, days } => occurrence(
                now as int,
                here,
                hour as int,
                min as int,
            ),
        }
    }
}

// -- the store ---------------------------------------------------------------

/// Why a rule was refused, or an action not done.
#[derive(Debug, Clone, PartialEq, Eq)]
pub enum TriggerError {
    /// A shorter interval than is allowed.
    TooFast,
    /// A task with nothing in it.
    EmptyTask,
    /// No trigger has that id.
    NoSuch(u64),
    /// The rule wants to place work, and the board is closed.
    BoardOff,
    /// As many agents are running as may be started.
    Full { live: usize, cap: usize },
}

impl TriggerError {
    /// The sentence a person is shown.
    pub open spec fn text(self) -> Seq<char> {
        match self {
            TriggerError::TooFast =>
                "the shortest interval is 60s — a faster trigger is a busy-wait, not a schedule"@,
            TriggerError::EmptyTask => "a task needs a description"@,
            TriggerError::NoSuch(id) => "no trigger #"@ + decimal(id as nat),
            TriggerError::BoardOff =>
                "the task board is off (agents.board), so this rule cannot place work"@,
            TriggerError::Full { live, cap } => "already running "@ + decimal(live as nat)
                + " agent"@ + (if live == 1 {
                ""@
            } else {
                "s"@
            }) + " horde started, and the cap is "@ + decimal(cap as nat)
                + " (triggers.max_spawned)"@,
        }
    }

    /// The sentence a person is shown.
    pub fn message(&self) -> (r: String)
        ensures
            r@ == self.text(),
    {
        match self {
            TriggerError::TooFast => owned(
                "the shortest interval is 60s — a faster trigger is a busy-wait, not a schedule",
            ),
            TriggerError::EmptyTask => owned("a task needs a description"),
            TriggerError::NoSuch(id) => {
                let mut m = owned("no trigger #");
                m.append(number(*id).as_str());
                m
            },
            TriggerError::BoardOff => owned(
                "the task board is off (agents.board), so this rule cannot place work",
            ),
            TriggerError::Full { live, cap } => {
                let mut m = owned("already running ");
                m.append(number(*live as u64).as_str());
                m.append(" agent");
                m.append(
                    if *live == 1 {
                        ""
                    } else {
                        "s"
                    },
                );
                m.append(" horde started, and the cap is ");
                m.append(number(*cap as u64).as_str());
                m.append(" (triggers.max_spawned)");
                m
            },
        }
    }
}

/// The rules in order of id, the conditions being asked, and what the log has yet to be told.
pub struct Store {
    pub triggers: Vec<Trigger>,
    pub next_id: u64,
    /// When the hourly ceiling was last complained about, so a capped hour produces one
    /// warning rather than one per tick.
    pub capped_notice_at: u64,
    /// When the condition of a rule was started, by trigger id.
    pub probes: HashMap<u64, u64>,
    pub unwritten: Vec<Trigger>,
}

/// A store, as values.
pub struct StoreView {
    pub triggers: Seq<TriggerView>,
    pub next_id: u64,
    pub capped_notice_at: u64,
    pub probes: Map<u64, u64>,
    pub unwritten: Seq<TriggerView>,
}

/// Triggers, as values.
pub open spec fn views(ts: Seq<Trigger>) -> Seq<TriggerView> {
    Seq::new(ts.len(), |i: int| ts[i]@)
}

/// In order of id, each id once.
pub open spec fn by_id(ts: Seq<TriggerView>) -> bool {
    forall|i: int, j: int| 0 <= i < j < ts.len() ==> (#[trigger] ts[i]).id < (#[trigger] ts[j]).id
}

impl View for Store {
    type V = StoreView;

    open spec fn view(&self) -> StoreView {
        StoreView {
            triggers: views(self.triggers@),
            next_id: self.next_id,
            capped_notice_at: self.capped_notice_at,
            probes: self.probes@,
            unwritten: views(self.unwritten@),
        }
    }
}

/// A rule that has not been removed.
pub open spec fn living() -> spec_fn(TriggerView) -> bool {
    |t: TriggerView| !t.deleted
}

/// A rule that could fire.
pub open spec fn armed() -> spec_fn(TriggerView) -> bool {
    |t: TriggerView| !t.deleted && t.enabled
}

/// A rule that has been removed.
pub open spec fn removed() -> spec_fn(TriggerView) -> bool {
    |t: TriggerView| t.deleted
}

/// The rule with this id, where it has not been removed.
pub open spec fn is_living(id: u64) -> spec_fn(TriggerView) -> bool {
    |t: TriggerView| t.id == id && !t.deleted
}

impl StoreView {
    /// Ids are in order and unique, and the next one is new.
    pub open spec fn wf(self) -> bool {
        &&& by_id(self.triggers)
        &&& forall|i: int|
            0 <= i < self.triggers.len() ==> (#[trigger] self.triggers[i]).id < self.next_id
    }

    /// Where the living rule with this id is, or the number of rules.
    pub open spec fn find(self, id: u64) -> int {
        first_where(self.triggers, is_living(id))
    }

    /// The living rule with this id.
    pub open spec fn got(self, id: u64) -> Option<TriggerView> {
        if self.find(id) < self.triggers.len() {
            Some(self.triggers[self.find(id)])
        } else {
            None
        }
    }

    /// One rule put in another's place, and the log told.
    pub open spec fn put(self, i: int, t: TriggerView) -> StoreView {
        StoreView {
            triggers: self.triggers.update(i, t),
            unwritten: self.unwritten.push(t),
            ..self
        }
    }

    /// The living rule with this id replaced by what `f` makes of it, or nothing changed
    /// where there is none.
    pub open spec fn changed(
        self,
        id: u64,
        f: spec_fn(TriggerView) -> TriggerView,
    ) -> (StoreView, Result<TriggerView, TriggerError>) {
        let i = self.find(id);
        if i < self.triggers.len() {
            (self.put(i, f(self.triggers[i])), Ok(f(self.triggers[i])))
        } else {
            (self, Err(TriggerError::NoSuch(id)))
        }
    }
}

/// Every rule that is on, off.
pub open spec fn disarmed(s: StoreView) -> StoreView {
    StoreView {
        triggers: Seq::new(
            s.triggers.len(),
            |i: int|
                if armed()(s.triggers[i]) {
                    off()(s.triggers[i])
                } else {
                    s.triggers[i]
                },
        ),
        unwritten: s.unwritten + pick(s.triggers, armed(), off()),
        ..s
    }
}

/// A rule switched off.
pub open spec fn off() -> spec_fn(TriggerView) -> TriggerView {
    |t: TriggerView| TriggerView { enabled: false, ..t }
}

/// While there are too many rules, the oldest removed one is forgotten.
pub open spec fn trimmed_to_cap(ts: Seq<TriggerView>) -> Seq<TriggerView>
    decreases ts.len(),
{
    let k = first_where(ts, removed());
    if ts.len() > CAP && 0 <= k < ts.len() {
        trimmed_to_cap(ts.remove(k))
    } else {
        ts
    }
}

/// The rule written under its id, in order.
pub open spec fn written(ts: Seq<TriggerView>, t: TriggerView) -> Seq<TriggerView> {
    let k = first_where(ts, |x: TriggerView| x.id >= t.id);
    if k < ts.len() && ts[k].id == t.id {
        ts.update(k, t)
    } else {
        ts.insert(k, t)
    }
}

/// What a log of rules comes to: later entries for an id supersede earlier ones, and the
/// rules stand in order of id.
pub open spec fn replayed(log: Seq<TriggerView>) -> Seq<TriggerView>
    decreases log.len(),
{
    if log.len() == 0 {
        Seq::empty()
    } else {
        written(replayed(log.drop_last()), log.last())
    }
}

/// The result of an operation, as values.
pub open spec fn outcome(r: Result<Trigger, TriggerError>) -> Result<TriggerView, TriggerError> {
    match r {
        Ok(t) => Ok(t@),
        Err(e) => Err(e),
    }
}

/// A new rule, as it goes into the store.
pub open spec fn new_trigger(
    id: u64,
    when: When,
    what: WhatView,
    by: Seq<char>,
    only_if: Option<Seq<char>>,
    space: Option<Seq<char>>,
    now: u64,
) -> TriggerView {
    TriggerView {
        id,
        when,
        what,
        enabled: true,
        created: now,
        by,
        space,
        last_fired: None,
        fire_count: 0,
        only_if: match only_if {
            Some(c) if trimmed(c).len() > 0 => Some(trimmed(c)),
            _ => None,
        },
        last_eval: None,
        deleted: false,
    }
}

/// What adding a rule does.
pub open spec fn adding_rule(
    s: StoreView,
    when: When,
    what: WhatView,
    by: Seq<char>,
    only_if: Option<Seq<char>>,
    space: Option<Seq<char>>,
    now: u64,
) -> (StoreView, Result<TriggerView, TriggerError>) {
    if when matches When::Every { secs } && secs < MIN_INTERVAL_SECS {
        (s, Err(TriggerError::TooFast))
    } else if what matches WhatView::Task { text } && trimmed(text).len() == 0 {
        (s, Err(TriggerError::EmptyTask))
    } else {
        let t = new_trigger(s.next_id, when, what, by, only_if, space, now);
        (
            StoreView {
                triggers: trimmed_to_cap(s.triggers.push(t)),
                next_id: (s.next_id + 1) as u64,
                unwritten: s.unwritten.push(t),
                ..s
            },
            Ok(t),
        )
    }
}

proof fn lemma_written_by_id(ts: Seq<TriggerView>, t: TriggerView)
    requires
        by_id(ts),
    ensures
        by_id(written(ts, t)),
        forall|i: int|
            0 <= i < written(ts, t).len() ==> (#[trigger] written(ts, t)[i] == t || exists|j: int|
                0 <= j < ts.len() && ts[j] == written(ts, t)[i]),
{
    let p = |x: TriggerView| x.id >= t.id;
    lemma_first_where(ts, p);
    let k = first_where(ts, p);
    let w = written(ts, t);
    if k < ts.len() && ts[k].id == t.id {
        assert forall|i: int| 0 <= i < w.len() implies (#[trigger] w[i] == t || exists|j: int|
            0 <= j < ts.len() && ts[j] == w[i]) by {
            if i != k {
                assert(ts[i] == w[i]);
            }
        }
    } else {
        ts.insert_ensures(k, t);
        assert forall|i: int, j: int| 0 <= i < j < w.len() implies (#[trigger] w[i]).id < (
        #[trigger] w[j]).id by {
            if i < k {
                assert(!p(ts[i]));
            }
            if j == k {
            } else if i == k {
                assert(w[j] == ts[j - 1]);
                assert(p(ts[k]));
            } else if j < k {
            } else {
                assert(w[j] == ts[j - 1]);
                if i > k {
                    assert(w[i] == ts[i - 1]);
                }
            }
        }
        assert forall|i: int| 0 <= i < w.len() implies (#[trigger] w[i] == t || exists|j: int|
            0 <= j < ts.len() && ts[j] == w[i]) by {
            if i < k {
                assert(ts[i] == w[i]);
            } else if i > k {
                assert(ts[i - 1] == w[i]);
            }
        }
    }
}

/// A replayed log is in order of id.
pub proof fn lemma_replayed_by_id(log: Seq<TriggerView>)
    ensures
        by_id(replayed(log)),
    decreases log.len(),
{
    if log.len() > 0 {
        lemma_replayed_by_id(log.drop_last());
        lemma_written_by_id(replayed(log.drop_last()), log.last());
    }
}

/// Every replayed rule is an entry of the log.
pub proof fn lemma_replayed_from(log: Seq<TriggerView>, i: int) -> (k: int)
    requires
        0 <= i < replayed(log).len(),
    ensures
        0 <= k < log.len(),
        log[k] == replayed(log)[i],
    decreases log.len(),
{
    let before = log.drop_last();
    lemma_replayed_by_id(before);
    lemma_written_by_id(replayed(before), log.last());
    if replayed(log)[i] == log.last() {
        log.len() - 1
    } else {
        let j = choose|j: int|
            0 <= j < replayed(before).len() && replayed(before)[j] == replayed(log)[i];
        let k = lemma_replayed_from(before, j);
        assert(before[k] == log[k]);
        k
    }
}

/// Replay the entries of a log, later entries for an id superseding earlier ones.
pub fn replay(entries: Vec<Trigger>) -> (r: Vec<Trigger>)
    ensures
        views(r@) == replayed(views(entries@)),
{
    let mut out: Vec<Trigger> = Vec::new();
    let ghost log = views(entries@);
    let mut i: usize = 0;
    proof {
        assert(views(out@) =~= replayed(log.take(0)));
    }
    while i < entries.len()
        invariant
            i <= entries@.len(),
            log == views(entries@),
            views(out@) == replayed(log.take(i as int)),
        decreases entries@.len() - i,
    {
        let t = entries[i].copy();
        let ghost before = views(out@);
        let ghost p = |x: TriggerView| x.id >= t.id;
        let mut k: usize = 0;
        while k < out.len() && out[k].id < t.id
            invariant
                k <= out@.len(),
                before == views(out@),
                p == (|x: TriggerView| x.id >= t.id),
                forall|j: int| 0 <= j < k ==> !p(#[trigger] before[j]),
            decreases out@.len() - k,
        {
            k = k + 1;
        }
        proof {
            lemma_first_where_is(before, p, k as int);
            assert(log.take(i as int + 1).drop_last() =~= log.take(i as int));
            assert(log.take(i as int + 1).last() == log[i as int]);
        }
        if k < out.len() && out[k].id == t.id {
            out.set(k, t);
            proof {
                assert(views(out@) =~= before.update(k as int, t@));
            }
        } else {
            out.insert(k, t);
            proof {
                assert(views(out@) =~= before.insert(k as int, t@));
            }
        }
        i = i + 1;
    }
    proof {
        assert(log.take(log.len() as int) =~= log);
    }
    out
}

proof fn lemma_remove_by_id(ts: Seq<TriggerView>, k: int)
    requires
        by_id(ts),
        0 <= k < ts.len(),
    ensures
        by_id(ts.remove(k)),
        forall|i: int| 0 <= i < ts.remove(k).len() ==> ts.contains(#[trigger] ts.remove(k)[i]),
{
    ts.remove_ensures(k);
    let u = ts.remove(k);
    assert forall|i: int, j: int| 0 <= i < j < u.len() implies (#[trigger] u[i]).id < (
    #[trigger] u[j]).id by {
        let a = if i < k { i } else { i + 1 };
        let b = if j < k { j } else { j + 1 };
        assert(u[i] == ts[a] && u[j] == ts[b]);
    }
    assert forall|i: int| 0 <= i < u.len() implies ts.contains(#[trigger] u[i]) by {
        let a = if i < k { i } else { i + 1 };
        assert(u[i] == ts[a]);
    }
}

impl Store {
    /// A store as the entries of its log leave it.
    pub fn new(entries: Vec<Trigger>) -> (r: Store)
        requires
            forall|i: int| 0 <= i < entries@.len() ==> (#[trigger] entries@[i]).id < u64::MAX,
        ensures
            r@.wf(),
            r@.triggers == replayed(views(entries@)),
            r@.unwritten.len() == 0,
            r@.capped_notice_at == 0,
            r@.probes == Map::<u64, u64>::empty(),
            r@.triggers.len() == 0 ==> r@.next_id == 1,
            r@.triggers.len() > 0 ==> r@.next_id == r@.triggers.last().id + 1,
    {
        let ghost log = views(entries@);
        let triggers = replay(entries);
        proof {
            lemma_replayed_by_id(log);
            assert forall|i: int| 0 <= i < triggers@.len() implies (#[trigger] triggers@[i]).id
                < u64::MAX by {
                let k = lemma_replayed_from(log, i);
                assert(log[k].id == entries@[k].id);
                assert(views(triggers@)[i] == triggers@[i]@);
            }
        }
        let n: usize = triggers.len();
        let next_id: u64 = if n == 0 {
            1
        } else {
            triggers[n - 1].id + 1
        };
        let s = Store {
            triggers,
            next_id,
            capped_notice_at: 0,
            probes: HashMap::new(),
            unwritten: Vec::new(),
        };
        proof {
            assert forall|i: int| 0 <= i < s@.triggers.len() implies (#[trigger] s@.triggers[i]).id
                < s@.next_id by {
                if i < s@.triggers.len() - 1 {
                    assert(s@.triggers[i].id < s@.triggers[s@.triggers.len() - 1].id);
                }
            }
        }
        s
    }

    /// What the log has not been told yet, which is then taken as told.
    pub fn take_unwritten(&mut self) -> (r: Vec<Trigger>)
        ensures
            views(r@) == old(self)@.unwritten,
            final(self)@ == (StoreView { unwritten: Seq::empty(), ..old(self)@ }),
    {
        let mut out: Vec<Trigger> = Vec::new();
        core::mem::swap(&mut self.unwritten, &mut out);
        proof {
            assert(self@.unwritten =~= Seq::<TriggerView>::empty());
        }
        out
    }

    /// Every trigger that still exists, removed ones excluded.
    pub fn all(&self) -> (r: Vec<&Trigger>)
        ensures
            Seq::new(r@.len(), |i: int| r@[i]@) == pick(
                self@.triggers,
                living(),
                |t: TriggerView| t,
            ),
    {
        let mut out: Vec<&Trigger> = Vec::new();
        let ghost f = |t: TriggerView| t;
        let mut i: usize = 0;
        proof {
            assert(Seq::new(out@.len(), |i: int| out@[i]@) =~= pick(
                self@.triggers.take(0),
                living(),
                f,
            ));
        }
        while i < self.triggers.len()
            invariant
                i <= self.triggers@.len(),
                f == (|t: TriggerView| t),
                Seq::new(out@.len(), |i: int| out@[i]@) == pick(
                    self@.triggers.take(i as int),
                    living(),
                    f,
                ),
            decreases self.triggers@.len() - i,
        {
            proof {
                lemma_pick_take(self@.triggers, living(), f, i as int);
            }
            if !self.triggers[i].deleted {
                let ghost before = Seq::new(out@.len(), |i: int| out@[i]@);
                out.push(&self.triggers[i]);
                proof {
                    assert(Seq::new(out@.len(), |i: int| out@[i]@) =~= before.push(
                        self.triggers@[i as int]@,
                    ));
                }
            }
            i = i + 1;
        }
        proof {
            assert(self@.triggers.take(i as int) =~= self@.triggers);
        }
        out
    }

    /// Where the living rule with this id is.
    fn position(&self, id: u64) -> (r: usize)
        ensures
            r == self@.find(id),
            r <= self.triggers@.len(),
            r < self.triggers@.len() ==> self.triggers@[r as int].id == id
                && !self.triggers@[r as int].deleted,
    {
        let mut i: usize = 0;
        while i < self.triggers.len() && !(self.triggers[i].id == id && !self.triggers[i].deleted)
            invariant
                i <= self.triggers@.len(),
                forall|j: int| 0 <= j < i ==> !is_living(id)(#[trigger] self@.triggers[j]),
            decreases self.triggers@.len() - i,
        {
            i = i + 1;
        }
        proof {
            lemma_first_where_is(self@.triggers, is_living(id), i as int);
        }
        i
    }

    /// The trigger with this id, unless it was removed.
    pub fn get(&self, id: u64) -> (r: Option<&Trigger>)
        ensures
            match r {
                Some(t) => self@.got(id) == Some(t@),
                None => self@.got(id) is None,
            },
    {
        let i: usize = self.position(id);
        if i < self.triggers.len() {
            Some(&self.triggers[i])
        } else {
            None
        }
    }

    /// How many triggers there are, removed ones excluded.
    pub fn count(&self) -> (r: usize)
        ensures
            r as nat == count_where(self@.triggers, living()),
    {
        let mut n: usize = 0;
        let mut i: usize = 0;
        proof {
            assert(self@.triggers.take(0) =~= Seq::<TriggerView>::empty());
        }
        while i < self.triggers.len()
            invariant
                i <= self.triggers@.len(),
                n <= i,
                n as nat == count_where(self@.triggers.take(i as int), living()),
            decreases self.triggers@.len() - i,
        {
            proof {
                lemma_count_take(self@.triggers, living(), i as int);
            }
            if !self.triggers[i].deleted {
                n = n + 1;
            }
            i = i + 1;
        }
        proof {
            assert(self@.triggers.take(i as int) =~= self@.triggers);
        }
        n
    }

    /// Rules that could fire, which is the number the sidebar shows.
    pub fn armed_count(&self) -> (r: usize)
        ensures
            r as nat == count_where(self@.triggers, armed()),
    {
        let mut n: usize = 0;
        let mut i: usize = 0;
        proof {
            assert(self@.triggers.take(0) =~= Seq::<TriggerView>::empty());
        }
        while i < self.triggers.len()
            invariant
                i <= self.triggers@.len(),
                n <= i,
                n as nat == count_where(self@.triggers.take(i as int), armed()),
            decreases self.triggers@.len() - i,
        {
            proof {
                lemma_count_take(self@.triggers, armed(), i as int);
            }
            if !self.triggers[i].deleted && self.triggers[i].enabled {
                n = n + 1;
            }
            i = i + 1;
        }
        proof {
            assert(self@.triggers.take(i as int) =~= self@.triggers);
        }
        n
    }

    /// Put one rule in place of another of the same id, and tell the log.
    fn put(&mut self, i: usize, t: Trigger)
        requires
            old(self)@.wf(),
            i < old(self).triggers@.len(),
            t@.id == old(self)@.triggers[i as int].id,
        ensures
            final(self)@ == old(self)@.put(i as int, t@),
            final(self)@.wf(),
    {
        self.unwritten.push(t.copy());
        self.triggers.set(i, t);
        proof {
            assert(self@.triggers =~= old(self)@.put(i as int, t@).triggers);
            assert(self@.unwritten =~= old(self)@.put(i as int, t@).unwritten);
        }
    }

    /// [`Store::add`], at a given time.
    pub fn add_at(
        &mut self,
        when: When,
        what: What,
        by: &str,
        only_if: Option<String>,
        space: Option<String>,
        now: u64,
    ) -> (r: Result<Trigger, TriggerError>)
        requires
            old(self)@.wf(),
            old(self)@.next_id < u64::MAX,
        ensures
            (final(self)@, outcome(r)) == adding_rule(
                old(self)@,
                when,
                what@,
                by@,
                opt_text(only_if),
                opt_text(space),
                now,
            ),
            final(self)@.wf(),
    {
        if let When::Every { secs } = when {
            if secs < MIN_INTERVAL_SECS {
                return Err(TriggerError::TooFast);
            }
        }
        if let What::Task { text } = &what {
            if trim(text.as_str()).as_str().is_empty() {
                return Err(TriggerError::EmptyTask);
            }
        }
        let only_if = match &only_if {
            Some(c) => {
                let c = trim(c.as_str());
                if c.as_str().is_empty() {
                    None
                } else {
                    Some(c)
                }
            },
            None => None,
        };
        let t = Trigger {
            id: self.next_id,
            when,
            what,
            enabled: true,
            created: now,
            by: owned(by),
            space,
            last_fired: None,
            fire_count: 0,
            only_if,
            last_eval: None,
            deleted: false,
        };
        let out = t.copy();
        let ghost whole = self@.triggers.push(t@);
        self.next_id = self.next_id + 1;
        self.unwritten.push(t.copy());
        self.triggers.push(t);
        proof {
            assert(self@.triggers =~= whole);
            assert(self@.unwritten =~= old(self)@.unwritten.push(t@));
        }
        while self.triggers.len() > CAP
            invariant_except_break
                trimmed_to_cap(self@.triggers) == trimmed_to_cap(whole),
            invariant
                self@.wf(),
                self@.unwritten == old(self)@.unwritten.push(t@),
                self@.next_id == old(self)@.next_id + 1,
                self@.capped_notice_at == old(self)@.capped_notice_at,
                self@.probes == old(self)@.probes,
            ensures
                self@.triggers == trimmed_to_cap(whole),
            decreases self.triggers@.len(),
        {
            let mut k: usize = 0;
            while k < self.triggers.len() && !self.triggers[k].deleted
                invariant
                    k <= self.triggers@.len(),
                    forall|j: int| 0 <= j < k ==> !removed()(#[trigger] self@.triggers[j]),
                decreases self.triggers@.len() - k,
            {
                k = k + 1;
            }
            proof {
                lemma_first_where_is(self@.triggers, removed(), k as int);
            }
            if k == self.triggers.len() {
                break;
            }
            let ghost before = self@.triggers;
            proof {
                lemma_remove_by_id(before, k as int);
            }
            self.triggers.remove(k);
            proof {
                assert(self@.triggers =~= before.remove(k as int));
            }
        }
        Ok(out)
    }

    /// Make a rule.
    pub fn add(
        &mut self,
        when: When,
        what: What,
        by: &str,
        only_if: Option<String>,
        space: Option<String>,
    ) -> (r: Result<Trigger, TriggerError>)
        requires
            old(self)@.wf(),
            old(self)@.next_id < u64::MAX,
        ensures
            exists|now: u64|
                (final(self)@, outcome(r)) == #[trigger] adding_rule(
                    old(self)@,
                    when,
                    what@,
                    by@,
                    opt_text(only_if),
                    opt_text(space),
                    now,
                ),
            final(self)@.wf(),
    {
        let now = now_millis();
        self.add_at(when, what, by, only_if, space, now)
    }

    /// Remove a rule. The record of it stays in the log.
    pub fn remove(&mut self, id: u64) -> (r: Result<Trigger, TriggerError>)
        requires
            old(self)@.wf(),
        ensures
            (final(self)@, outcome(r)) == old(self)@.changed(
                id,
                |t: TriggerView| TriggerView { deleted: true, ..t },
            ),
            final(self)@.wf(),
    {
        let i: usize = self.position(id);
        if i == self.triggers.len() {
            return Err(TriggerError::NoSuch(id));
        }
        let mut t = self.triggers[i].copy();
        t.deleted = true;
        let out = t.copy();
        self.put(i, t);
        Ok(out)
    }

    /// Switch a rule on or off.
    pub fn set_enabled(&mut self, id: u64, on: bool) -> (r: Result<Trigger, TriggerError>)
        requires
            old(self)@.wf(),
        ensures
            (final(self)@, outcome(r)) == old(self)@.changed(
                id,
                |t: TriggerView| TriggerView { enabled: on, ..t },
            ),
            final(self)@.wf(),
    {
        let i: usize = self.position(id);
        if i == self.triggers.len() {
            return Err(TriggerError::NoSuch(id));
        }
        let mut t = self.triggers[i].copy();
        t.enabled = on;
        let out = t.copy();
        self.put(i, t);
        Ok(out)
    }

    /// Turn every trigger off at once: the one keystroke that has to exist.
    pub fn disable_all(&mut self) -> (r: Vec<Trigger>)
        requires
            old(self)@.wf(),
        ensures
            final(self)@ == disarmed(old(self)@),
            views(r@) == pick(old(self)@.triggers, armed(), off()),
            final(self)@.wf(),
    {
        let ghost ts = self@.triggers;
        let mut out: Vec<Trigger> = Vec::new();
        let mut i: usize = 0;
        proof {
            assert(views(out@) =~= pick(ts.take(0), armed(), off()));
            assert(self@.unwritten + pick(ts.take(0), armed(), off()) =~= self@.unwritten);
        }
        while i < self.triggers.len()
            invariant
                i <= self.triggers@.len(),
                ts == old(self)@.triggers,
                self@.triggers.len() == ts.len(),
                forall|j: int| i <= j < ts.len() ==> #[trigger] self@.triggers[j] == ts[j],
                forall|j: int|
                    0 <= j < i ==> #[trigger] self@.triggers[j] == (if armed()(ts[j]) {
                        off()(ts[j])
                    } else {
                        ts[j]
                    }),
                views(out@) == pick(ts.take(i as int), armed(), off()),
                self@.unwritten == old(self)@.unwritten + pick(ts.take(i as int), armed(), off()),
                self@.next_id == old(self)@.next_id,
                self@.probes == old(self)@.probes,
                self@.capped_notice_at == old(self)@.capped_notice_at,
            decreases ts.len() - i,
        {
            proof {
                assert(self@.triggers[i as int] == ts[i as int]);
                lemma_pick_take(ts, armed(), off(), i as int);
            }
            if !self.triggers[i].deleted && self.triggers[i].enabled {
                let ghost was = self@;
                let ghost had = views(out@);
                let mut d = self.triggers[i].copy();
                d.enabled = false;
                out.push(d.copy());
                self.unwritten.push(d.copy());
                self.triggers.set(i, d);
                proof {
                    assert(views(out@) =~= had.push(d@));
                    assert(self@.triggers =~= was.triggers.update(i as int, d@));
                    assert(self@.unwritten =~= was.unwritten.push(d@));
                    assert(self@.unwritten =~= old(self)@.unwritten + pick(
                        ts.take(i as int + 1),
                        armed(),
                        off(),
                    ));
                }
            }
            i = i + 1;
        }
        proof {
            assert(ts.take(i as int) =~= ts);
            assert(self@.triggers =~= disarmed(old(self)@).triggers);
        }
        out
    }

    /// A rule has fired.
    pub fn mark_fired(&mut self, id: u64, now: u64)
        requires
            old(self)@.wf(),
        ensures
            final(self)@ == old(self)@.changed(id, |t: TriggerView| t.fired(now)).0,
            final(self)@.wf(),
    {
        let i: usize = self.position(id);
        if i < self.triggers.len() {
            let mut t = self.triggers[i].copy();
            t.last_fired = Some(now);
            t.last_eval = Some(now);
            t.fire_count = t.fire_count.saturating_add(1);
            self.put(i, t);
        }
    }

    /// The schedule came round and the answer was no. Spends the interval without claiming a
    /// firing, so the condition is asked again next interval rather than next tick.
    pub fn mark_checked(&mut self, id: u64, now: u64)
        requires
            old(self)@.wf(),
        ensures
            final(self)@ == old(self)@.changed(id, |t: TriggerView| t.checked(now)).0,
            final(self)@.wf(),
    {
        let i: usize = self.position(id);
        if i < self.triggers.len() {
            let mut t = self.triggers[i].copy();
            t.last_eval = Some(now);
            self.put(i, t);
        }
    }
}

// -- firing ------------------------------------------------------------------

/// How a triggered task records who added it.
pub open spec fn tag(id: u64) -> Seq<char> {
    "trigger:"@ + decimal(id as nat)
}

/// How a triggered task records who added it, and therefore how its rule finds it again.
pub fn owner_tag(id: u64) -> (r: String)
    ensures
        r@ == tag(id),
{
    let mut s = owned("trigger:");
    s.append(number(id).as_str());
    s
}

/// A task that this rule placed and nobody has finished.
pub open spec fn placed_by(id: u64) -> spec_fn(TaskView) -> bool {
    |x: TaskView| x.by == tag(id) && (x.is_open() || x.is_claimed())
}

/// Whether a rule's own last piece of work is still open or claimed.
pub open spec fn in_flight(b: BoardView, t: TriggerView) -> bool {
    t.what is Task && exists|i: int| 0 <= i < b.tasks.len() && placed_by(t.id)(#[trigger] b.tasks[i])
}

/// Whether this trigger's own last piece of work is still open or claimed.
pub fn outstanding(board: &Board, t: &Trigger) -> (r: bool)
    ensures
        r == in_flight(board@, t@),
{
    match &t.what {
        What::Task { text } => {},
        _ => {
            return false;
        },
    }
    let by = owner_tag(t.id);
    let mut i: usize = 0;
    while i < board.tasks.len()
        invariant
            i <= board.tasks@.len(),
            by@ == tag(t.id),
            t@.what is Task,
            forall|j: int| 0 <= j < i ==> !placed_by(t.id)(#[trigger] board@.tasks[j]),
        decreases board.tasks@.len() - i,
    {
        let x = &board.tasks[i];
        if same(x.by.as_str(), by.as_str()) && (x.is_open() || x.is_claimed()) {
            proof {
                assert(placed_by(t.id)(board@.tasks[i as int]));
            }
            return true;
        }
        i = i + 1;
    }
    false
}

/// Whether a rule is to fire: on, due, and with nothing of its own still outstanding.
pub open spec fn ready(
    t: TriggerView,
    b: BoardView,
    now: u64,
    here: LocalTime,
    wday: u32,
) -> bool {
    !t.deleted && t.enabled && t.due(now, here, wday) && !in_flight(b, t)
}

/// The ids of the rules that are to fire, among the first `n`.
pub open spec fn due_ids(
    ts: Seq<TriggerView>,
    b: BoardView,
    now: u64,
    here: LocalTime,
    wdays: Seq<u32>,
    n: int,
) -> Seq<u64>
    decreases n,
{
    if n <= 0 {
        Seq::empty()
    } else {
        let before = due_ids(ts, b, now, here, wdays, n - 1);
        if ready(ts[n - 1], b, now, here, wdays[n - 1]) {
            before.push(ts[n - 1].id)
        } else {
            before
        }
    }
}

/// What one pass over the rules comes to.
#[derive(Debug, Clone, PartialEq, Eq)]
pub struct Firing {
    /// Warnings for attached clients.
    pub notices: Vec<String>,
    /// The rules to go on with, in order.
    pub ids: Vec<u64>,
}

/// The same, as values.
pub struct FiringView {
    pub notices: Seq<Seq<char>>,
    pub ids: Seq<u64>,
}

impl View for Firing {
    type V = FiringView;

    open spec fn view(&self) -> FiringView {
        FiringView { notices: crate::text::texts(self.notices@), ids: self.ids@ }
    }
}

/// The warning for an hour that is used up.
pub open spec fn ceiling_text(held: nat) -> Seq<char> {
    decimal(MAX_PER_HOUR as nat) + " trigger firings this hour is the ceiling — holding "@
        + decimal(held) + " more. `horde trigger list` shows what is waiting."@
}

/// The warning for an hour that is nearly used up.
pub open spec fn partial_text(due: nat, budget: nat) -> Seq<char> {
    decimal(due) + " triggers due, firing "@ + decimal(budget) + " — hourly ceiling"@
}

/// What one pass over the rules comes to: nothing while the master switch is off or nothing
/// is due, a warning at most once an hour where the hour's firings are used up, and otherwise
/// as many of the rules that are due as the hour has left.
pub open spec fn firing(
    s: StoreView,
    due: Seq<u64>,
    unattended: bool,
    recent: nat,
    now: u64,
) -> (StoreView, FiringView) {
    let budget = if recent < MAX_PER_HOUR {
        (MAX_PER_HOUR - recent) as nat
    } else {
        0
    };
    if !unattended || due.len() == 0 {
        (s, FiringView { notices: Seq::empty(), ids: Seq::empty() })
    } else if budget == 0 {
        if elapsed(s.capped_notice_at, now) >= HOUR {
            (
                StoreView { capped_notice_at: now, ..s },
                FiringView { notices: seq![ceiling_text(due.len())], ids: Seq::empty() },
            )
        } else {
            (s, FiringView { notices: Seq::empty(), ids: Seq::empty() })
        }
    } else if due.len() > budget {
        (
            s,
            FiringView {
                notices: seq![partial_text(due.len(), budget)],
                ids: due.take(budget as int),
            },
        )
    } else {
        (s, FiringView { notices: Seq::empty(), ids: due })
    }
}

/// Where a trigger's condition stands.
#[derive(Debug, Clone, Copy, PartialEq, Eq, Structural)]
pub enum ProbeAnswer {
    /// It exited 0.
    Met,
    /// It exited with anything else.
    NotMet,
    /// It is still running.
    Pending,
    /// It ended without an answer.
    Lost,
}

/// Where a trigger's condition stands this tick.
#[derive(Debug, Clone, PartialEq, Eq)]
pub enum Condition {
    /// Met, or there is none: go.
    Yes,
    /// Not met, which is ordinary operation.
    No,
    /// Still running. Nothing is spent: ask again next tick.
    Waiting,
    /// Could not be answered. Carries the phrase for the warning.
    Failed(String),
    /// Nobody has asked yet: run this command.
    Start(String),
}

/// The same, as text.
pub enum ConditionView {
    Yes,
    No,
    Waiting,
    Failed(Seq<char>),
    Start(Seq<char>),
}

impl View for Condition {
    type V = ConditionView;

    open spec fn view(&self) -> ConditionView {
        match *self {
            Condition::Yes => ConditionView::Yes,
            Condition::No => ConditionView::No,
            Condition::Waiting => ConditionView::Waiting,
            Condition::Failed(s) => ConditionView::Failed(s@),
            Condition::Start(s) => ConditionView::Start(s@),
        }
    }
}

/// How a condition is judged: at most one probe of a rule is in flight, one that answers or
/// takes too long is forgotten, and one that is neither is waited for.
pub open spec fn judged(
    s: StoreView,
    id: u64,
    only_if: Option<Seq<char>>,
    answer: ProbeAnswer,
    now: u64,
) -> (StoreView, ConditionView) {
    let forgotten = StoreView { probes: s.probes.remove(id), ..s };
    match only_if {
        None => (s, ConditionView::Yes),
        Some(cmd) => if !s.probes.contains_key(id) {
            (s, ConditionView::Start(cmd))
        } else {
            match answer {
                ProbeAnswer::Met => (forgotten, ConditionView::Yes),
                ProbeAnswer::NotMet => (forgotten, ConditionView::No),
                ProbeAnswer::Pending => if elapsed(s.probes[id], now) < PROBE_TIMEOUT {
                    (s, ConditionView::Waiting)
                } else {
                    (
                        forgotten,
                        ConditionView::Failed(
                            "took longer than 60s and was abandoned: "@ + cmd,
                        ),
                    )
                },
                ProbeAnswer::Lost => (
                    forgotten,
                    ConditionView::Failed("could not be run: "@ + cmd),
                ),
            }
        },
    }
}

/// What to do next about a rule whose turn it is.
#[derive(Debug, Clone, PartialEq, Eq)]
pub enum Step {
    /// Perform the action.
    Go,
    /// Nothing, this tick.
    Hold,
    /// Nothing, and say why.
    Warn(String),
    /// Start this condition, and say so with [`Store::probe_started`].
    Probe(String),
}

/// The same, as text.
pub enum StepView {
    Go,
    Hold,
    Warn(Seq<char>),
    Probe(Seq<char>),
}

impl View for Step {
    type V = StepView;

    open spec fn view(&self) -> StepView {
        match *self {
            Step::Go => StepView::Go,
            Step::Hold => StepView::Hold,
            Step::Warn(s) => StepView::Warn(s@),
            Step::Probe(s) => StepView::Probe(s@),
        }
    }
}

/// The warning for a condition that could not be answered.
pub open spec fn condition_text(id: u64, why: Seq<char>) -> Seq<char> {
    "trigger #"@ + decimal(id as nat) + " condition "@ + why
}

/// What is next about a rule: an unmet or failed condition spends the interval, one that is
/// being answered spends nothing.
pub open spec fn stepped(s: StoreView, id: u64, answer: ProbeAnswer, now: u64) -> (
    StoreView,
    StepView,
) {
    match s.got(id) {
        None => (s, StepView::Hold),
        Some(t) => {
            let (after, c) = judged(s, id, t.only_if, answer, now);
            let spent = after.changed(id, |t: TriggerView| t.checked(now)).0;
            match c {
                ConditionView::Yes => (after, StepView::Go),
                ConditionView::No => (spent, StepView::Hold),
                ConditionView::Waiting => (after, StepView::Hold),
                ConditionView::Failed(why) => (spent, StepView::Warn(condition_text(id, why))),
                ConditionView::Start(cmd) => (after, StepView::Probe(cmd)),
            }
        },
    }
}

impl Store {
    /// For each rule, the moment whose local weekday [`Store::fire_due`] needs.
    pub fn schedule_points(&self, now: u64, here: LocalTime) -> (r: Vec<u64>)
        requires
            now <= MAX_MILLIS,
        ensures
            r@.len() == self@.triggers.len(),
            forall|i: int|
                0 <= i < r@.len() ==> #[trigger] r@[i] == self@.triggers[i].point(now, here),
    {
        let mut out: Vec<u64> = Vec::new();
        let mut i: usize = 0;
        while i < self.triggers.len()
            invariant
                i <= self.triggers@.len(),
                now <= MAX_MILLIS,
                out@.len() == i,
                forall|j: int|
                    0 <= j < i ==> #[trigger] out@[j] == self@.triggers[j].point(now, here),
            decreases self.triggers@.len() - i,
        {
            out.push(self.triggers[i].schedule_point(now, here));
            i = i + 1;
        }
        out
    }

    /// The rules to fire now, and what to warn about. `recent` is how many firings the last
    /// hour has seen, and `wdays` the local weekdays of [`Store::schedule_points`].
    pub fn fire_due(
        &mut self,
        board: &Board,
        unattended: bool,
        recent: usize,
        now: u64,
        here: LocalTime,
        wdays: &Vec<u32>,
    ) -> (r: Firing)
        requires
            old(self)@.wf(),
            now <= MAX_MILLIS,
            here.wday < 7,
            wdays@.len() == old(self)@.triggers.len(),
            forall|i: int| 0 <= i < wdays@.len() ==> #[trigger] wdays@[i] < 7,
        ensures
            (final(self)@, r@) == firing(
                old(self)@,
                due_ids(
                    old(self)@.triggers,
                    board@,
                    now,
                    here,
                    wdays@,
                    old(self)@.triggers.len() as int,
                ),
                unattended,
                recent as nat,
                now,
            ),
            final(self)@.wf(),
    {
        // The master switch, checked first and cheapest.
        let mut notices: Vec<String> = Vec::new();
        let mut due: Vec<u64> = Vec::new();
        proof {
            assert(crate::text::texts(notices@) =~= Seq::<Seq<char>>::empty());
        }
        if !unattended {
            let f = Firing { notices, ids: due };
            proof {
                assert(f@.ids =~= Seq::<u64>::empty());
            }
            return f;
        }
        let ghost ts = self@.triggers;
        let mut i: usize = 0;
        while i < self.triggers.len()
            invariant
                i <= self.triggers@.len(),
                now <= MAX_MILLIS,
                here.wday < 7,
                self == old(self),
                ts == self@.triggers,
                wdays@.len() == ts.len(),
                forall|i: int| 0 <= i < wdays@.len() ==> #[trigger] wdays@[i] < 7,
                due@ == due_ids(ts, board@, now, here, wdays@, i as int),
                due@.len() <= i,
            decreases self.triggers@.len() - i,
        {
            let t = &self.triggers[i];
            proof {
                assert(ts[i as int] == t@);
                assert(wdays@[i as int] < 7);
            }
            if !t.deleted && t.enabled && t.is_due(now, here, wdays[i]) && !outstanding(board, t) {
                due.push(t.id);
            }
            i = i + 1;
        }
        if due.len() == 0 {
            let f = Firing { notices, ids: due };
            proof {
                assert(f@.ids =~= Seq::<u64>::empty());
            }
            return f;
        }
        let budget: usize = MAX_PER_HOUR.saturating_sub(recent);
        if budget == 0 {
            // Refused, and visibly so; once an hour, because the condition persists.
            if now.saturating_sub(self.capped_notice_at) >= HOUR {
                self.capped_notice_at = now;
                let mut m = number(MAX_PER_HOUR as u64);
                m.append(" trigger firings this hour is the ceiling — holding ");
                m.append(number(due.len() as u64).as_str());
                m.append(" more. `horde trigger list` shows what is waiting.");
                notices.push(m);
                proof {
                    assert(crate::text::texts(notices@) =~= seq![ceiling_text(due@.len())]);
                }
            }
            let f = Firing { notices, ids: Vec::new() };
            proof {
                assert(f@.ids =~= Seq::<u64>::empty());
            }
            return f;
        }
        if due.len() > budget {
            let mut m = number(due.len() as u64);
            m.append(" triggers due, firing ");
            m.append(number(budget as u64).as_str());
            m.append(" — hourly ceiling");
            notices.push(m);
            proof {
                assert(crate::text::texts(notices@) =~= seq![
                    partial_text(due@.len(), budget as nat),
                ]);
            }
            due.truncate(budget);
        }
        Firing { notices, ids: due }
    }

    /// Start, poll, or time out a trigger's condition. `answer` is what the probe in flight
    /// says, where there is one.
    pub fn check_condition(
        &mut self,
        id: u64,
        only_if: &Option<String>,
        answer: ProbeAnswer,
        now: u64,
    ) -> (r: Condition)
        ensures
            (final(self)@, r@) == judged(old(self)@, id, opt_text(*only_if), answer, now),
    {
        let cmd = match only_if {
            None => {
                return Condition::Yes;
            },
            Some(c) => c,
        };
        let started: u64 = match self.probes.get(&id) {
            Some(at) => *at,
            None => {
                return Condition::Start(cmd.clone());
            },
        };
        match answer {
            ProbeAnswer::Met => {
                self.probes.remove(&id);
                Condition::Yes
            },
            ProbeAnswer::NotMet => {
                self.probes.remove(&id);
                Condition::No
            },
            ProbeAnswer::Pending => {
                if now.saturating_sub(started) < PROBE_TIMEOUT {
                    return Condition::Waiting;
                }
                self.probes.remove(&id);
                let mut m = owned("took longer than 60s and was abandoned: ");
                m.append(cmd.as_str());
                Condition::Failed(m)
            },
            ProbeAnswer::Lost => {
                self.probes.remove(&id);
                let mut m = owned("could not be run: ");
                m.append(cmd.as_str());
                Condition::Failed(m)
            },
        }
    }

    /// What to do next about a rule whose turn it is.
    pub fn step(&mut self, id: u64, answer: ProbeAnswer, now: u64) -> (r: Step)
        requires
            old(self)@.wf(),
        ensures
            (final(self)@, r@) == stepped(old(self)@, id, answer, now),
            final(self)@.wf(),
    {
        let only_if = match self.get(id) {
            None => {
                return Step::Hold;
            },
            Some(t) => own_opt(as_opt(&t.only_if)),
        };
        match self.check_condition(id, &only_if, answer, now) {
            Condition::Yes => Step::Go,
            Condition::Waiting => Step::Hold,
            Condition::No => {
                self.mark_checked(id, now);
                Step::Hold
            },
            Condition::Failed(why) => {
                self.mark_checked(id, now);
                let mut m = owned("trigger #");
                m.append(number(id).as_str());
                m.append(" condition ");
                m.append(why.as_str());
                Step::Warn(m)
            },
            Condition::Start(cmd) => Step::Probe(cmd),
        }
    }

    /// A condition has been started.
    pub fn probe_started(&mut self, id: u64, now: u64)
        ensures
            final(self)@ == (StoreView {
                probes: old(self)@.probes.insert(id, now),
                ..old(self)@
            }),
    {
        self.probes.insert(id, now);
    }

    /// A condition could not even be started, which spends the interval.
    pub fn probe_failed(&mut self, id: u64, why: &str, now: u64) -> (r: String)
        requires
            old(self)@.wf(),
        ensures
            final(self)@ == old(self)@.changed(id, |t: TriggerView| t.checked(now)).0,
            r@ == condition_text(id, "could not start: "@ + why@),
            final(self)@.wf(),
    {
        self.mark_checked(id, now);
        let mut w = owned("could not start: ");
        w.append(why);
        let mut m = owned("trigger #");
        m.append(number(id).as_str());
        m.append(" condition ");
        m.append(w.as_str());
        m
    }
}

/// What a firing does outside the store.
#[derive(Debug, Clone, PartialEq, Eq)]
pub enum Act {
    /// Work was put on the board. Carries the phrase for the record.
    Placed(String),
    /// A line to push at an agent.
    Send { to: String, body: String },
    /// An agent to start.
    Spawn { cmd: String, name: Option<String> },
}

/// The same, as text.
pub enum ActView {
    Placed(Seq<char>),
    Send { to: Seq<char>, body: Seq<char> },
    Spawn { cmd: Seq<char>, name: Option<Seq<char>> },
}

impl View for Act {
    type V = ActView;

    open spec fn view(&self) -> ActView {
        match *self {
            Act::Placed(s) => ActView::Placed(s@),
            Act::Send { to, body } => ActView::Send { to: to@, body: body@ },
            Act::Spawn { cmd, name } => ActView::Spawn { cmd: cmd@, name: opt_text(name) },
        }
    }
}

/// An action's result, as values.
pub open spec fn act_outcome(r: Result<Act, TriggerError>) -> Result<ActView, TriggerError> {
    match r {
        Ok(a) => Ok(a@),
        Err(e) => Err(e),
    }
}

/// What performing a rule does to the board, and what is left to do. A closed board takes no
/// work, and no agent is started once `cap` of them are running.
pub open spec fn performing(
    b: BoardView,
    t: TriggerView,
    board_on: bool,
    live: usize,
    cap: usize,
    now: u64,
) -> (BoardView, Result<ActView, TriggerError>) {
    match t.what {
        WhatView::Task { text } => if !board_on {
            (b, Err(TriggerError::BoardOff))
        } else {
            let (after, r) = adding(b, text, tag(t.id), t.space, now);
            match r {
                Ok(task) => (
                    after,
                    Ok(
                        ActView::Placed(
                            "put task #"@ + decimal(task.id as nat) + " on the board: "@
                                + task.text,
                        ),
                    ),
                ),
                Err(_) => (after, Err(TriggerError::EmptyTask)),
            }
        },
        WhatView::Send { to, body } => (b, Ok(ActView::Send { to, body })),
        WhatView::Spawn { cmd, name } => if live >= cap {
            (b, Err(TriggerError::Full { live, cap }))
        } else {
            (b, Ok(ActView::Spawn { cmd, name }))
        },
    }
}

/// Do the part of a rule that is the board's, and say what is left. `live` counts the agents
/// that were started here and are still running.
pub fn perform(
    board: &mut Board,
    t: &Trigger,
    board_on: bool,
    live: usize,
    cap: usize,
    now: u64,
) -> (r: Result<Act, TriggerError>)
    requires
        old(board)@.wf(),
        old(board)@.next_id < u64::MAX,
    ensures
        (final(board)@, act_outcome(r)) == performing(old(board)@, t@, board_on, live, cap, now),
        final(board)@.wf(),
{
    match &t.what {
        What::Task { text } => {
            if !board_on {
                return Err(TriggerError::BoardOff);
            }
            // Scoped to the space the rule was created in.
            let by = owner_tag(t.id);
            match board.add_at(text.as_str(), by.as_str(), as_opt(&t.space), now) {
                Ok(task) => {
                    let mut m = owned("put task #");
                    m.append(number(task.id).as_str());
                    m.append(" on the board: ");
                    m.append(task.text.as_str());
                    Ok(Act::Placed(m))
                },
                Err(e) => Err(TriggerError::EmptyTask),
            }
        },
        What::Send { to, body } => Ok(Act::Send { to: to.clone(), body: body.clone() }),
        What::Spawn { cmd, name } => {
            // What is running, not what ever ran: an agent that exits gives its slot back.
            if live >= cap {
                return Err(TriggerError::Full { live, cap });
            }
            Ok(Act::Spawn { cmd: cmd.clone(), name: own_opt(as_opt(name)) })
        },
    }
}

/// The phrase for a line that was pushed at an agent.
pub fn sent_phrase(to: &str) -> (r: String)
    ensures
        r@ == "sent to "@ + to@,
{
    let mut s = owned("sent to ");
    s.append(to);
    s
}

/// The phrase for an agent that was started.
pub open spec fn spawned_text(name: Option<Seq<char>>, pane: u64, cmd: Seq<char>) -> Seq<char> {
    let who = match name {
        Some(n) => n,
        None => "pane"@ + decimal(pane as nat),
    };
    "spawned "@ + who + " running "@ + cmd
}

/// The phrase for an agent that was started.
pub fn spawned_phrase(name: Option<&str>, pane: u64, cmd: &str) -> (r: String)
    ensures
        r@ == spawned_text(opt_str(name), pane, cmd@),
{
    let who = match name {
        Some(n) => owned(n),
        None => {
            let mut p = owned("pane");
            p.append(number(pane).as_str());
            p
        },
    };
    let mut s = owned("spawned ");
    s.append(who.as_str());
    s.append(" running ");
    s.append(cmd);
    s
}

/// What is written down about a firing.
#[derive(Debug, Clone, PartialEq, Eq)]
pub struct Record {
    /// The line for the journal, which is what the hourly ceiling counts.
    pub journal: Option<String>,
    /// The line for the log.
    pub log: String,
    /// A warning for attached clients.
    pub notice: Option<String>,
}

/// The same, as text.
pub struct RecordView {
    pub journal: Option<Seq<char>>,
    pub log: Seq<char>,
    pub notice: Option<Seq<char>>,
}

impl View for Record {
    type V = RecordView;

    open spec fn view(&self) -> RecordView {
        RecordView {
            journal: opt_text(self.journal),
            log: self.log@,
            notice: opt_text(self.notice),
        }
    }
}

/// The journal's line for a firing.
pub open spec fn fired_line(id: u64, what: Seq<char>) -> Seq<char> {
    "#"@ + decimal(id as nat) + " "@ + what
}

/// What is written down about a firing, done or failed.
pub open spec fn recorded(id: u64, done: Result<Seq<char>, Seq<char>>) -> RecordView {
    match done {
        Ok(what) => RecordView {
            journal: Some(fired_line(id, what)),
            log: "trigger "@ + fired_line(id, what),
            notice: None,
        },
        Err(why) => {
            let text = "trigger #"@ + decimal(id as nat) + " failed: "@ + why;
            RecordView { journal: None, log: text, notice: Some(text) }
        },
    }
}

/// The journal's line for a firing.
fn line_for(id: u64, what: &str) -> (r: String)
    ensures
        r@ == fired_line(id, what@),
{
    let mut s = owned("#");
    s.append(number(id).as_str());
    s.append(" ");
    s.append(what);
    s
}

impl Store {
    /// An automatic firing is over, done or failed. It counts as a firing either way: a rule
    /// whose target no longer exists would otherwise retry every tick.
    pub fn settle(&mut self, id: u64, done: Result<&str, &str>, now: u64) -> (r: Record)
        requires
            old(self)@.wf(),
        ensures
            final(self)@ == old(self)@.changed(id, |t: TriggerView| t.fired(now)).0,
            r@ == recorded(
                id,
                match done {
                    Ok(what) => Ok(what@),
                    Err(why) => Err(why@),
                },
            ),
            final(self)@.wf(),
    {
        self.mark_fired(id, now);
        match done {
            Ok(what) => {
                let line = line_for(id, what);
                let mut log = owned("trigger ");
                log.append(line.as_str());
                Record { journal: Some(line), log, notice: None }
            },
            Err(why) => {
                let mut text = owned("trigger #");
                text.append(number(id).as_str());
                text.append(" failed: ");
                text.append(why);
                Record { journal: None, log: text.clone(), notice: Some(text) }
            },
        }
    }

    /// The rule to fire by hand, whatever its schedule says. Every guard is skipped: they
    /// bound what happens unasked, and this is asked.
    pub fn fire_now(
        &self,
        board: &mut Board,
        id: u64,
        board_on: bool,
        live: usize,
        cap: usize,
        now: u64,
    ) -> (r: Result<Act, TriggerError>)
        requires
            old(board)@.wf(),
            old(board)@.next_id < u64::MAX,
        ensures
            (final(board)@, act_outcome(r)) == (match self@.got(id) {
                None => (old(board)@, Err(TriggerError::NoSuch(id))),
                Some(t) => performing(old(board)@, t, board_on, live, cap, now),
            }),
            final(board)@.wf(),
    {
        match self.get(id) {
            None => Err(TriggerError::NoSuch(id)),
            Some(t) => perform(board, t, board_on, live, cap, now),
        }
    }

    /// A firing by hand was done. It is recorded exactly as an automatic one is, so it counts
    /// against the hour's ceiling.
    pub fn settle_by_hand(&mut self, id: u64, what: &str, now: u64) -> (r: Record)
        requires
            old(self)@.wf(),
        ensures
            final(self)@ == old(self)@.changed(id, |t: TriggerView| t.fired(now)).0,
            r@ == (RecordView {
                journal: Some(fired_line(id, what@)),
                log: "trigger "@ + fired_line(id, what@) + " (by hand)"@,
                notice: None,
            }),
            final(self)@.wf(),
    {
        self.mark_fired(id, now);
        let line = line_for(id, what);
        let mut log = owned("trigger ");
        log.append(line.as_str());
        log.append(" (by hand)");
        Record { journal: Some(line), log, notice: None }
    }
}

// -- laws --------------------------------------------------------------------

/// Adding a rule does not run it: a new interval waits its interval out.
pub proof fn law_new_interval_waits(t: TriggerView, secs: u64, now: u64, here: LocalTime, wday: u32)
    requires
        t.when == (When::Every { secs }),
        t.last_fired is None,
        t.last_eval is None,
        secs > 0,
    ensures
        t.due(now, here, wday) <==> now >= t.created + secs * 1000,
{
}

/// The last time a time of day came round is never in the future.
pub proof fn law_occurrence_is_past(now: u64, here: LocalTime, hour: u32, min: u32)
    requires
        hour <= 23,
        min <= 59,
    ensures
        occurrence(now as int, here, hour as int, min as int) <= now,
{
}

/// A rule whose schedule can be met at most once at a time.
pub open spec fn sensible(when: When) -> bool {
    match when {
        When::Every { secs } => secs > 0,
        When::At { hour, min, days } => hour <= 23 && min <= 59,
    }
}

/// A rule that has just fired is not due, and neither is one whose condition was just found
/// unmet: both spend the interval.
pub proof fn law_firing_and_checking_spend_the_interval(
    t: TriggerView,
    now: u64,
    here: LocalTime,
    wday: u32,
)
    requires
        sensible(t.when),
    ensures
        !t.fired(now).due(now, here, wday),
        !t.checked(now).due(now, here, wday),
{
    if let When::At { hour, min, days } = t.when {
        law_occurrence_is_past(now, here, hour, min);
    }
}

/// Milliseconds in a day.
pub open spec fn whole_day() -> int {
    86_400_000
}

/// A local clock whose days start at `midnight` and every day before and after shows this time
/// now.
pub open spec fn shows(midnight: int, now: u64, here: LocalTime) -> bool {
    (day_start(now as int, here) - midnight) % whole_day() == 0
}

/// On a clock whose days start at `midnight`, `hour:min` comes round at this moment.
pub open spec fn comes_round(midnight: int, hour: u32, min: u32, at: int) -> bool {
    (at - midnight - crate::schedule::day_millis(hour as int, min as int, 0)) % whole_day() == 0
}

/// One occurrence is due once, however many ticks pass: a rule that fired is not due at a later
/// moment unless its time of day comes round in between. The day's start is not before the
/// epoch, from which times are counted.
pub proof fn law_daily_rule_fires_once_per_occurrence(
    t: TriggerView,
    hour: u32,
    min: u32,
    days: u8,
    fired_at: u64,
    later: u64,
    midnight: int,
    here: LocalTime,
    wday: u32,
)
    requires
        t.when == (When::At { hour, min, days }),
        hour <= 23,
        min <= 59,
        fired_at <= later,
        shows(midnight, later, here),
        day_start(later as int, here) >= 0,
        forall|at: int| fired_at < at <= later ==> !#[trigger] comes_round(midnight, hour, min, at),
    ensures
        !t.fired(fired_at).due(later, here, wday),
        !t.checked(fired_at).due(later, here, wday),
{
    law_occurrence_is_past(later, here, hour, min);
    let at = occurrence(later as int, here, hour as int, min as int);
    if at > fired_at {
        assert(comes_round(midnight, hour, min, at)) by {
            let d = day_start(later as int, here) - midnight;
            assert(d % 86_400_000 == 0);
            assert(at - midnight - crate::schedule::day_millis(hour as int, min as int, 0) == d || at
                - midnight - crate::schedule::day_millis(hour as int, min as int, 0) == d - 86_400_000);
        }
    }
}

/// A rule whose time of day comes round between two moments, on a day it runs on, is due at the
/// later one, as long as it last ran before that.
pub proof fn law_a_daily_rule_is_due_when_its_time_comes_round(
    t: TriggerView,
    hour: u32,
    min: u32,
    days: u8,
    fired_at: u64,
    later: u64,
    midnight: int,
    here: LocalTime,
    wday: u32,
    at: int,
)
    requires
        t.when == (When::At { hour, min, days }),
        hour <= 23,
        min <= 59,
        here.hour <= 23,
        here.min <= 59,
        here.sec <= 59,
        shows(midnight, later, here),
        day_start(later as int, here) >= 0,
        fired_at < at <= later,
        comes_round(midnight, hour, min, at),
        has_day(days, wday as u8),
        has_day(days, here.wday as u8),
    ensures
        t.fired(fired_at).due(later, here, wday),
{
    let d = day_start(later as int, here) - midnight;
    let dm = crate::schedule::day_millis(hour as int, min as int, 0);
    let got = occurrence(later as int, here, hour as int, min as int);
    assert((at - midnight - dm) % 86_400_000 == 0);
    assert(d % 86_400_000 == 0);
    let target = day_start(later as int, here) + dm;
    assert((at - target) % 86_400_000 == 0) by {
        assert(at - target == (at - midnight - dm) - d);
    }
    assert(0 <= dm < 86_400_000);
    assert(later < day_start(later as int, here) + 86_400_000);
    assert(later - 86_400_000 < got);
    if at > got {
        assert((at - got) % 86_400_000 == 0);
        assert(at - got < 86_400_000);
    }
}

/// A day the rule excludes is never run on, however late it is: neither for a time that came
/// round on such a day, nor on such a day for a time that came round before it.
pub proof fn law_excluded_day_is_never_due(
    t: TriggerView,
    hour: u32,
    min: u32,
    days: u8,
    now: u64,
    here: LocalTime,
    wday: u32,
)
    requires
        t.when == (When::At { hour, min, days }),
        !has_day(days, here.wday as u8) || !has_day(days, wday as u8),
    ensures
        !t.due(now, here, wday),
{
}

/// With the master switch off nothing fires, nothing is said and nothing changes.
pub proof fn law_nothing_fires_unasked(s: StoreView, due: Seq<u64>, recent: nat, now: u64)
    ensures
        firing(s, due, false, recent, now) == (
            s,
            FiringView { notices: Seq::empty(), ids: Seq::empty() },
        ),
{
}

/// However many rules are due, one pass never takes the hour over its ceiling.
pub proof fn law_the_hour_has_a_ceiling(
    s: StoreView,
    due: Seq<u64>,
    unattended: bool,
    recent: nat,
    now: u64,
)
    ensures
        firing(s, due, unattended, recent, now).1.ids.len() > 0 ==> recent + firing(
            s,
            due,
            unattended,
            recent,
            now,
        ).1.ids.len() <= MAX_PER_HOUR,
{
}

/// What is held back is unchanged, and is spoken of: in every pass that takes some of what is
/// due, and once an hour while it takes none.
pub proof fn law_what_is_held_back_is_said(s: StoreView, due: Seq<u64>, recent: nat, now: u64)
    requires
        due.len() + recent > MAX_PER_HOUR,
        due.len() > 0,
    ensures
        ({
            let (after, f) = firing(s, due, true, recent, now);
            &&& after.triggers == s.triggers
            &&& recent < MAX_PER_HOUR ==> f.ids == due.take(MAX_PER_HOUR - recent) && f.notices
                == seq![partial_text(due.len(), (MAX_PER_HOUR - recent) as nat)]
            &&& recent >= MAX_PER_HOUR ==> f.ids.len() == 0
            &&& recent >= MAX_PER_HOUR && elapsed(s.capped_notice_at, now) >= HOUR ==> f.notices
                == seq![ceiling_text(due.len())] && after.capped_notice_at == now
        }),
{
}

/// The start of the hour that ends at a moment.
pub open spec fn hour_before(at: int) -> int {
    if at < HOUR {
        0
    } else {
        at - HOUR
    }
}

/// A journal in which no firing made more in the hour up to it than there may be.
pub open spec fn within_the_ceiling(j: Seq<EntryView>) -> bool {
    forall|k: int|
        0 <= k < j.len() && (#[trigger] j[k]).what is Fired ==> count_where(
            j.take(k + 1),
            fired_from(hour_before(j[k].at as int)),
        ) <= MAX_PER_HOUR
}

/// Firings of one moment.
pub open spec fn firings(texts: Seq<Seq<char>>, now: u64) -> Seq<EntryView> {
    Seq::new(texts.len(), |i: int| EntryView { at: now, what: HappeningView::Fired(texts[i]) })
}

/// However many passes there are, the journal stays within the ceiling: a pass that is told how
/// many firings the journal has of the last hour adds no more than there is room for.
pub proof fn law_passes_stay_within_the_ceiling(
    j: Seq<EntryView>,
    s: StoreView,
    due: Seq<u64>,
    unattended: bool,
    now: u64,
    done: Seq<Seq<char>>,
)
    requires
        within_the_ceiling(j),
        ({
            let recent = count_where(j, fired_from(hour_before(now as int)));
            done.len() <= firing(s, due, unattended, recent, now).1.ids.len()
        }),
    ensures
        within_the_ceiling(j + firings(done, now)),
    decreases done.len(),
{
    let p = fired_from(hour_before(now as int));
    let after = j + firings(done, now);
    if done.len() > 0 {
        law_passes_stay_within_the_ceiling(j, s, due, unattended, now, done.drop_last());
        let before = j + firings(done.drop_last(), now);
        assert(after.drop_last() =~= before);
        lemma_firings_count(j, done, now);
        assert forall|k: int| 0 <= k < after.len() && (#[trigger] after[k]).what is Fired implies
            count_where(after.take(k + 1), fired_from(hour_before(after[k].at as int)))
            <= MAX_PER_HOUR by {
            if k < after.len() - 1 {
                assert(before[k] == after[k]);
                assert(before.take(k + 1) =~= after.take(k + 1));
            } else {
                assert(after.take(k + 1) =~= after);
                assert(after[k].at == now);
            }
        }
    } else {
        assert(after =~= j);
    }
}

proof fn lemma_firings_count(j: Seq<EntryView>, done: Seq<Seq<char>>, now: u64)
    ensures
        count_where(j + firings(done, now), fired_from(hour_before(now as int))) == count_where(
            j,
            fired_from(hour_before(now as int)),
        ) + done.len(),
    decreases done.len(),
{
    let after = j + firings(done, now);
    if done.len() > 0 {
        lemma_firings_count(j, done.drop_last(), now);
        assert(after.drop_last() =~= j + firings(done.drop_last(), now));
        assert(after.last() == firings(done, now).last());
    } else {
        assert(after =~= j);
    }
}

/// A firing in a stretch of time.
pub open spec fn fired_between(from: int, to: int) -> spec_fn(EntryView) -> bool {
    |e: EntryView| from <= e.at <= to && e.what is Fired
}

/// In a journal within the ceiling, no hour has more firings than there may be.
pub proof fn law_no_hour_has_more_than_the_ceiling(j: Seq<EntryView>, from: int, to: int)
    requires
        within_the_ceiling(j),
        0 <= from,
        to <= from + HOUR,
    ensures
        count_where(j, fired_between(from, to)) <= MAX_PER_HOUR,
    decreases j.len(),
{
    if j.len() > 0 {
        let last = j[j.len() - 1];
        if fired_between(from, to)(last) {
            assert(j.take(j.len() as int) =~= j);
            lemma_fewer_between(j, from, to, hour_before(last.at as int));
        } else {
            let rest = j.drop_last();
            assert forall|k: int| 0 <= k < rest.len() && (#[trigger] rest[k]).what is Fired implies
                count_where(rest.take(k + 1), fired_from(hour_before(rest[k].at as int)))
                <= MAX_PER_HOUR by {
                assert(j[k] == rest[k]);
                assert(j.take(k + 1) =~= rest.take(k + 1));
            }
            law_no_hour_has_more_than_the_ceiling(rest, from, to);
        }
    }
}

proof fn lemma_fewer_between(j: Seq<EntryView>, from: int, to: int, start: int)
    requires
        start <= from,
    ensures
        count_where(j, fired_between(from, to)) <= count_where(j, fired_from(start)),
    decreases j.len(),
{
    if j.len() > 0 {
        lemma_fewer_between(j.drop_last(), from, to, start);
    }
}

/// An hour that is used up is complained about once: having warned, the store stays quiet for
/// an hour.
pub proof fn law_ceiling_is_announced_once_an_hour(
    s: StoreView,
    due: Seq<u64>,
    more: Seq<u64>,
    recent: nat,
    now: u64,
    later: u64,
)
    requires
        recent >= MAX_PER_HOUR,
        due.len() > 0,
        now >= HOUR + s.capped_notice_at,
        now <= later < now + HOUR,
    ensures
        firing(s, due, true, recent, now).1.notices.len() == 1,
        firing(firing(s, due, true, recent, now).0, more, true, recent, later).1.notices.len() == 0,
{
}

/// What fires is on, due and has nothing of its own outstanding.
pub proof fn law_what_fires_is_ready(
    ts: Seq<TriggerView>,
    b: BoardView,
    now: u64,
    here: LocalTime,
    wdays: Seq<u32>,
    n: int,
    k: int,
) -> (i: int)
    requires
        0 <= n <= ts.len(),
        wdays.len() == ts.len(),
        0 <= k < due_ids(ts, b, now, here, wdays, n).len(),
    ensures
        0 <= i < n,
        ts[i].id == due_ids(ts, b, now, here, wdays, n)[k],
        ready(ts[i], b, now, here, wdays[i]),
    decreases n,
{
    let before = due_ids(ts, b, now, here, wdays, n - 1);
    if k < before.len() {
        law_what_fires_is_ready(ts, b, now, here, wdays, n - 1, k)
    } else {
        n - 1
    }
}

/// Work that a rule placed is in flight until somebody finishes it, so the rule places no
/// second piece.
pub proof fn law_one_piece_of_work_in_flight(
    b: BoardView,
    t: TriggerView,
    live: usize,
    cap: usize,
    now: u64,
    later: u64,
    here: LocalTime,
    wday: u32,
)
    requires
        t.what is Task,
        performing(b, t, true, live, cap, now).1 is Ok,
    ensures
        in_flight(performing(b, t, true, live, cap, now).0, t),
        !ready(t, performing(b, t, true, live, cap, now).0, later, here, wday),
{
    let text = t.what->Task_text;
    let task = crate::tasks::new_task(b.next_id, text, tag(t.id), t.space, now);
    let whole = b.tasks.push(task);
    assert(whole[whole.len() - 1] == task);
    crate::tasks::law_outstanding_work_is_never_forgotten(whole, task);
    let after = performing(b, t, true, live, cap, now).0;
    let i = choose|i: int| 0 <= i < after.tasks.len() && after.tasks[i] == task;
    assert(placed_by(t.id)(after.tasks[i]));
}

/// A closed board takes no work, and no agent is to be started once as many run as may.
pub proof fn law_closed_board_and_full_house_refuse(
    b: BoardView,
    t: TriggerView,
    board_on: bool,
    live: usize,
    cap: usize,
    now: u64,
)
    ensures
        t.what is Task && !board_on ==> performing(b, t, board_on, live, cap, now) == (
            b,
            Err::<ActView, _>(TriggerError::BoardOff),
        ),
        performing(b, t, board_on, live, cap, now).1 matches Ok(ActView::Spawn { .. }) ==> live < cap,
{
}

/// Work that a rule places lands on the board of the rule's own project, open, and signed with
/// the rule's number.
pub proof fn law_scheduled_work_lands_in_its_project(
    b: BoardView,
    t: TriggerView,
    live: usize,
    cap: usize,
    now: u64,
)
    requires
        t.what matches WhatView::Task { text } && trimmed(text).len() > 0,
    ensures
        performing(b, t, true, live, cap, now).1 is Ok,
        ({
            let task = new_task(b.next_id, t.what->text, tag(t.id), t.space, now);
            &&& performing(b, t, true, live, cap, now).0.tasks.contains(task)
            &&& task.space == t.space
            &&& task.by == tag(t.id)
            &&& task.is_open()
        }),
{
    let task = new_task(b.next_id, t.what->text, tag(t.id), t.space, now);
    let ts = b.tasks.push(task);
    assert(ts[ts.len() - 1] == task);
    law_outstanding_work_is_never_forgotten(ts, task);
}

/// After everything is turned off nothing is armed, and nothing is gone.
pub proof fn law_everything_can_be_turned_off(s: StoreView)
    ensures
        count_where(disarmed(s).triggers, armed()) == 0,
        count_where(disarmed(s).triggers, living()) == count_where(s.triggers, living()),
{
    let after = disarmed(s).triggers;
    assert forall|i: int| 0 <= i < after.len() implies !armed()(#[trigger] after[i]) by {}
    lemma_count_none(after, armed());
    lemma_same_count(after, s.triggers, living());
}

proof fn lemma_same_count(a: Seq<TriggerView>, b: Seq<TriggerView>, p: spec_fn(TriggerView) -> bool)
    requires
        a.len() == b.len(),
        forall|i: int| 0 <= i < a.len() ==> p(#[trigger] a[i]) == p(b[i]),
    ensures
        count_where(a, p) == count_where(b, p),
    decreases a.len(),
{
    if a.len() > 0 {
        assert(p(a[a.len() - 1]) == p(b[b.len() - 1]));
        assert forall|i: int| 0 <= i < a.len() - 1 implies p(#[trigger] a.drop_last()[i]) == p(
            b.drop_last()[i],
        ) by {
            assert(a.drop_last()[i] == a[i]);
        }
        lemma_same_count(a.drop_last(), b.drop_last(), p);
    }
}

/// A removed rule is hidden: it cannot be had, nor removed again, nor switched back on.
pub proof fn law_removed_is_gone(s: StoreView, id: u64, on: bool)
    requires
        s.wf(),
        s.got(id) is Some,
    ensures
        ({
            let after = s.changed(id, |t: TriggerView| TriggerView { deleted: true, ..t }).0;
            &&& after.got(id) is None
            &&& after.changed(id, |t: TriggerView| TriggerView { deleted: true, ..t }) == (
                after,
                Err::<TriggerView, _>(TriggerError::NoSuch(id)),
            )
            &&& after.changed(id, |t: TriggerView| TriggerView { enabled: on, ..t }) == (
                after,
                Err::<TriggerView, _>(TriggerError::NoSuch(id)),
            )
        }),
{
    let after = s.changed(id, |t: TriggerView| TriggerView { deleted: true, ..t }).0;
    lemma_first_where(s.triggers, is_living(id));
    let i = s.find(id);
    assert(is_living(id)(s.triggers[i]));
    assert forall|j: int| 0 <= j < after.triggers.len() implies !is_living(id)(
        #[trigger] after.triggers[j],
    ) by {
        if j < i {
            assert(s.triggers[j].id < s.triggers[i].id);
        } else if j > i {
            assert(s.triggers[i].id < s.triggers[j].id);
        }
    }
    lemma_first_where_is(after.triggers, is_living(id), after.triggers.len() as int);
}

/// A slow condition is not launched again: while one is in flight for a rule, the rule's next
/// step is never to start another.
pub proof fn law_one_probe_in_flight(s: StoreView, id: u64, answer: ProbeAnswer, now: u64)
    requires
        s.probes.contains_key(id),
    ensures
        !(stepped(s, id, answer, now).1 is Probe),
{
}

/// A condition that never ends does not hold its rule for ever.
pub proof fn law_hung_probe_is_abandoned(s: StoreView, id: u64, cmd: Seq<char>, now: u64)
    requires
        s.probes.contains_key(id),
        now >= s.probes[id] + PROBE_TIMEOUT,
    ensures
        judged(s, id, Some(cmd), ProbeAnswer::Pending, now).1 is Failed,
        !judged(s, id, Some(cmd), ProbeAnswer::Pending, now).0.probes.contains_key(id),
{
}

/// The last entry for an id is the one that counts.
pub proof fn law_last_entry_wins(log: Seq<TriggerView>, k: int)
    requires
        0 <= k < log.len(),
        forall|j: int| k < j < log.len() ==> (#[trigger] log[j]).id != log[k].id,
    ensures
        replayed(log).contains(log[k]),
    decreases log.len(),
{
    let before = log.drop_last();
    let t = log.last();
    let ts = replayed(before);
    let p = |x: TriggerView| x.id >= t.id;
    lemma_first_where(ts, p);
    let at = first_where(ts, p);
    lemma_replayed_by_id(before);
    if k == log.len() - 1 {
        if at < ts.len() && ts[at].id == t.id {
            assert(replayed(log)[at] == t);
        } else {
            ts.insert_ensures(at, t);
            assert(replayed(log)[at] == t);
        }
    } else {
        assert(log[log.len() - 1].id != log[k].id);
        assert(before[k] == log[k]);
        assert forall|j: int| k < j < before.len() implies (#[trigger] before[j]).id
            != before[k].id by {
            assert(before[j] == log[j]);
        }
        law_last_entry_wins(before, k);
        let i = choose|i: int| 0 <= i < ts.len() && ts[i] == log[k];
        if at < ts.len() && ts[at].id == t.id {
            assert(i != at);
            assert(replayed(log)[i] == log[k]);
        } else {
            ts.insert_ensures(at, t);
            if i < at {
                assert(replayed(log)[i] == log[k]);
            } else {
                assert(replayed(log)[i + 1] == log[k]);
            }
        }
    }
}

/// Whether a log, with what it has yet to be told, comes to what is in the store.
pub open spec fn in_step(s: StoreView, log: Seq<TriggerView>) -> bool {
    replayed(log + s.unwritten) == s.triggers
}

proof fn lemma_written_in_place(ts: Seq<TriggerView>, i: int, t: TriggerView)
    requires
        by_id(ts),
        0 <= i < ts.len(),
        ts[i].id == t.id,
    ensures
        written(ts, t) == ts.update(i, t),
{
    let p = |x: TriggerView| x.id >= t.id;
    assert forall|j: int| 0 <= j < i implies !p(#[trigger] ts[j]) by {
        assert(ts[j].id < ts[i].id);
    }
    lemma_first_where_is(ts, p, i);
}

/// The set survives a restart: a change to a rule keeps the log in step with the store.
pub proof fn law_log_keeps_step_with_a_change(
    s: StoreView,
    log: Seq<TriggerView>,
    id: u64,
    f: spec_fn(TriggerView) -> TriggerView,
)
    requires
        s.wf(),
        in_step(s, log),
        forall|t: TriggerView| (#[trigger] f(t)).id == t.id,
    ensures
        in_step(s.changed(id, f).0, log),
{
    let i = s.find(id);
    lemma_first_where(s.triggers, is_living(id));
    if i < s.triggers.len() {
        let t = f(s.triggers[i]);
        let whole = log + s.unwritten;
        assert(log + s.unwritten.push(t) =~= whole.push(t));
        assert(whole.push(t).drop_last() =~= whole);
        lemma_written_in_place(s.triggers, i, t);
    }
}

/// So does a new rule, as long as nothing had to be forgotten for it, and its id is new.
pub proof fn law_log_keeps_step_with_a_new_rule(
    s: StoreView,
    log: Seq<TriggerView>,
    when: When,
    what: WhatView,
    by: Seq<char>,
    only_if: Option<Seq<char>>,
    space: Option<Seq<char>>,
    now: u64,
)
    requires
        s.wf(),
        in_step(s, log),
        s.next_id < u64::MAX,
        s.triggers.len() < CAP,
    ensures
        in_step(adding_rule(s, when, what, by, only_if, space, now).0, log),
{
    let t = new_trigger(s.next_id, when, what, by, only_if, space, now);
    let whole = log + s.unwritten;
    assert(log + s.unwritten.push(t) =~= whole.push(t));
    assert(whole.push(t).drop_last() =~= whole);
    let p = |x: TriggerView| x.id >= t.id;
    lemma_first_where_is(s.triggers, p, s.triggers.len() as int);
    assert(s.triggers.insert(s.triggers.len() as int, t) =~= s.triggers.push(t));
}

proof fn lemma_disarmed_prefix(s: StoreView, log: Seq<TriggerView>, n: int)
    requires
        s.wf(),
        in_step(s, log),
        0 <= n <= s.triggers.len(),
    ensures
        replayed(log + s.unwritten + pick(s.triggers.take(n), armed(), off())) == disarmed(
            s,
        ).triggers.take(n) + s.triggers.skip(n),
    decreases n,
{
    let ts = s.triggers;
    let ds = disarmed(s).triggers;
    let whole = log + s.unwritten;
    if n == 0 {
        assert(whole + pick(ts.take(0), armed(), off()) =~= whole);
        assert(ds.take(0) + ts.skip(0) =~= ts);
    } else {
        lemma_disarmed_prefix(s, log, n - 1);
        lemma_pick_take(ts, armed(), off(), n - 1);
        let before = ds.take(n - 1) + ts.skip(n - 1);
        let after = ds.take(n) + ts.skip(n);
        if armed()(ts[n - 1]) {
            let t = off()(ts[n - 1]);
            let so_far = whole + pick(ts.take(n - 1), armed(), off());
            assert(whole + pick(ts.take(n), armed(), off()) =~= so_far.push(t));
            assert(so_far.push(t).drop_last() =~= so_far);
            assert forall|i: int, j: int| 0 <= i < j < before.len() implies (
            #[trigger] before[i]).id < (#[trigger] before[j]).id by {
                assert(before[i].id == ts[i].id);
                assert(before[j].id == ts[j].id);
            }
            assert(before[n - 1] == ts[n - 1]);
            lemma_written_in_place(before, n - 1, t);
            assert(before.update(n - 1, t) =~= after);
        } else {
            assert(before =~= after);
        }
    }
}

/// And so does turning everything off: a restart does not re-arm it.
pub proof fn law_log_keeps_step_with_turning_off(s: StoreView, log: Seq<TriggerView>)
    requires
        s.wf(),
        in_step(s, log),
    ensures
        in_step(disarmed(s), log),
{
    let n = s.triggers.len() as int;
    lemma_disarmed_prefix(s, log, n);
    assert(s.triggers.take(n) =~= s.triggers);
    assert(disarmed(s).triggers.take(n) + s.triggers.skip(n) =~= disarmed(s).triggers);
    assert(log + (s.unwritten + pick(s.triggers, armed(), off())) =~= log + s.unwritten + pick(
        s.triggers,
        armed(),
        off(),
    ));
}

} // verus!
