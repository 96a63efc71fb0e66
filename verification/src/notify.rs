//! Reaching you when nothing is attached.
//!
//! The rules that keep this quiet: only while detached, only settled facts, one ping per wait,
//! and one ping per window whatever happened. What an alert says, and how it is delivered, is
//! for whoever drives this.

use crate::agent::AgentView;
use crate::journal::{EntryView, Happening, HappeningView, Journal};
use crate::seqs::{lemma_first_where, lemma_pick_complete, lemma_pick_sound, lemma_pick_take, pick};
use crate::state::{pane_is, PaneLifeView, PaneView, Session, SessionView};
use crate::tasks::{Board, BoardView};
use crate::text::owned;
use vstd::prelude::*;

verus! {

/// How long, in millis, an agent has to have been waiting before it counts: nothing transient
/// survives a minute.
pub const SETTLED: u64 = 60_000;

/// Minimum gap between alerts, in millis.
pub const COALESCE: u64 = 300_000;

/// Something worth telling you about. Carries what marking it spent requires.
#[derive(Debug, Clone, Copy, PartialEq, Eq, Structural)]
pub enum Reason {
    /// An agent has been asking for a human, or sitting on a finished turn nobody has read.
    Attention { pane: u64, since: u64 },
    /// The board emptied: the fleet is done.
    BoardClear,
}

/// When the daemon started, and when it last reached out (0 for never).
#[derive(Debug, Clone, Copy, PartialEq, Eq, Structural)]
pub struct AlertClock {
    pub started: u64,
    pub last_alert: u64,
}

/// The time from one moment to another: none where the clock has gone back.
pub open spec fn gone_by(from: u64, to: u64) -> int {
    if to < from {
        0
    } else {
        to - from
    }
}

/// Whether an agent is a reason: it wants a person, has for a while, and this wait has not
/// been reported.
pub open spec fn is_news(a: AgentView, now: u64) -> bool {
    a.state.wants_you() && gone_by(a.since, now) >= SETTLED && a.alerted_since != Some(a.since)
}

/// A pane whose agent is a reason.
pub open spec fn newsworthy(now: u64) -> spec_fn(PaneView) -> bool {
    |p: PaneView| p.life.agent matches Some(a) && is_news(a, now)
}

/// The reason that such a pane is.
pub open spec fn as_reason() -> spec_fn(PaneView) -> Reason {
    |p: PaneView| Reason::Attention { pane: p.id, since: p.life.agent->Some_0.since }
}

/// Whether the board emptied since: nothing is open or claimed, and something was finished
/// strictly after. A task that closed in the very millisecond of the last alert was in it.
pub open spec fn board_cleared(b: BoardView, since: u64) -> bool {
    &&& forall|i: int| 0 <= i < b.tasks.len() ==> (#[trigger] b.tasks[i]).is_finished()
    &&& exists|i: int|
        0 <= i < b.tasks.len() && (#[trigger] b.tasks[i]).done_at is Some && b.tasks[i].done_at->Some_0
            > since
}

/// What there is to tell you.
pub open spec fn reasons_of(s: SessionView, b: BoardView, since: u64, now: u64) -> Seq<Reason> {
    let waiting = pick(s.panes, newsworthy(now), as_reason());
    if board_cleared(b, since) {
        waiting.push(Reason::BoardClear)
    } else {
        waiting
    }
}

/// Whether everything on the board is finished, and something was after `since`.
fn is_board_cleared(board: &Board, since: u64) -> (r: bool)
    ensures
        r == board_cleared(board@, since),
{
    let mut closed = false;
    let mut i: usize = 0;
    while i < board.tasks.len()
        invariant
            i <= board.tasks@.len(),
            forall|j: int| 0 <= j < i ==> (#[trigger] board@.tasks[j]).is_finished(),
            closed == exists|j: int|
                0 <= j < i && (#[trigger] board@.tasks[j]).done_at is Some
                    && board@.tasks[j].done_at->Some_0 > since,
        decreases board.tasks@.len() - i,
    {
        let t = &board.tasks[i];
        proof {
            assert(board@.tasks[i as int] == t@);
        }
        if t.is_open() || t.is_claimed() {
            proof {
                assert(!board@.tasks[i as int].is_finished());
            }
            return false;
        }
        if let Some(at) = t.done_at {
            if at > since {
                closed = true;
                proof {
                    assert(board@.tasks[i as int].done_at->Some_0 > since);
                }
            }
        }
        i = i + 1;
    }
    closed
}

/// What there is to tell you, if anything: what needs you, then what finished.
pub fn reasons(s: &Session, board: &Board, since: u64, now: u64) -> (r: Vec<Reason>)
    ensures
        r@ == reasons_of(s@, board@, since, now),
{
    let mut out: Vec<Reason> = Vec::new();
    let mut i: usize = 0;
    proof {
        assert(out@ =~= pick(s@.panes.take(0), newsworthy(now), as_reason()));
    }
    while i < s.panes.len()
        invariant
            i <= s.panes@.len(),
            out@ == pick(s@.panes.take(i as int), newsworthy(now), as_reason()),
        decreases s.panes@.len() - i,
    {
        proof {
            lemma_pick_take(s@.panes, newsworthy(now), as_reason(), i as int);
            assert(s@.panes[i as int] == s.panes@[i as int]@);
        }
        match &s.panes[i].life.agent {
            Some(a) => {
                let told = match a.alerted_since {
                    Some(x) => x == a.since,
                    None => false,
                };
                if a.state.needs_attention() && now.saturating_sub(a.since) >= SETTLED && !told {
                    out.push(Reason::Attention { pane: s.panes[i].id, since: a.since });
                }
            },
            None => {},
        }
        i = i + 1;
    }
    proof {
        assert(s@.panes.take(i as int) =~= s@.panes);
    }
    if is_board_cleared(board, since) {
        out.push(Reason::BoardClear);
    }
    out
}

/// The start of the window an alert speaks of: the last alert, or the daemon's start.
pub open spec fn window(c: AlertClock) -> u64 {
    if c.last_alert == 0 {
        c.started
    } else {
        c.last_alert
    }
}

/// Whether to reach out, and over what window: `None` to stay quiet.
pub open spec fn alert_due(
    c: AlertClock,
    attached: bool,
    reaches_out: bool,
    have_sink: bool,
    s: SessionView,
    b: BoardView,
    now: u64,
) -> Option<u64> {
    if attached || !reaches_out || !have_sink || gone_by(c.last_alert, now) < COALESCE
        || reasons_of(s, b, window(c), now).len() == 0 {
        None
    } else {
        Some(window(c))
    }
}

/// An agent told about.
pub open spec fn told_of(p: PaneView, since: u64) -> PaneView {
    PaneView {
        life: PaneLifeView {
            agent: match p.life.agent {
                Some(a) => Some(AgentView { alerted_since: Some(since), ..a }),
                None => None,
            },
            ..p.life
        },
        ..p
    }
}

/// A session with the first `n` reasons spent.
pub open spec fn spent(s: SessionView, rs: Seq<Reason>, n: int) -> SessionView
    decreases n,
{
    if n <= 0 {
        s
    } else {
        let t = spent(s, rs, n - 1);
        match rs[n - 1] {
            Reason::Attention { pane, since } => spent_one(t, pane, since),
            Reason::BoardClear => t,
        }
    }
}

/// A session with what one pane wants spent.
pub open spec fn spent_one(s: SessionView, pane: u64, since: u64) -> SessionView {
    let i = s.pane_at(pane);
    if i < s.panes.len() {
        SessionView { panes: s.panes.update(i, told_of(s.panes[i], since)), ..s }
    } else {
        s
    }
}

/// Note that somebody has been told of what a pane wants.
fn spend(s: &mut Session, pane: u64, since: u64)
    ensures
        final(s)@ == spent_one(old(s)@, pane, since),
{
    let k: usize = s.pane_index(pane);
    if k < s.panes.len() {
        let ghost before = s@;
        if let Some(a) = &mut s.panes[k].life.agent {
            a.alerted_since = Some(since);
        }
        proof {
            assert(s@.panes =~= before.panes.update(
                k as int,
                told_of(before.panes[k as int], since),
            ));
        }
    }
}

impl AlertClock {
    /// Decide whether to reach out: the start of the window that the alert is to speak of, or
    /// `None` to stay quiet.
    ///
    /// Rate-limited before looking for reasons rather than after: one found inside the quiet
    /// window has to stay found.
    pub fn prepare(
        &self,
        attached: bool,
        reaches_out: bool,
        have_sink: bool,
        s: &Session,
        board: &Board,
        now: u64,
    ) -> (r: Option<u64>)
        ensures
            r == alert_due(*self, attached, reaches_out, have_sink, s@, board@, now),
    {
        // Attached is not away. The client owns that case.
        if attached || !reaches_out || !have_sink {
            return None;
        }
        if now.saturating_sub(self.last_alert) < COALESCE {
            return None;
        }
        let since: u64 = if self.last_alert == 0 {
            self.started
        } else {
            self.last_alert
        };
        let rs = reasons(s, board, since, now);
        if rs.len() == 0 {
            None
        } else {
            Some(since)
        }
    }

    /// An alert went out, with this headline: the clock moves, its reasons are spent, and the
    /// journal says so.
    pub fn sent(
        &mut self,
        s: &mut Session,
        board: &Board,
        journal: &mut Journal,
        headline: &str,
        now: u64,
    )
        ensures
            final(journal)@ == old(journal)@.push(
                EntryView { at: now, what: HappeningView::Notified(headline@) },
            ),
            *final(self) == (AlertClock { last_alert: now, ..*old(self) }),
            final(s)@ == spent(
                old(s)@,
                reasons_of(old(s)@, board@, window(*old(self)), now),
                reasons_of(old(s)@, board@, window(*old(self)), now).len() as int,
            ),
    {
        let since: u64 = if self.last_alert == 0 {
            self.started
        } else {
            self.last_alert
        };
        let rs = reasons(s, board, since, now);
        let ghost s0 = s@;
        let mut i: usize = 0;
        while i < rs.len()
            invariant
                i <= rs@.len(),
                s@ == spent(s0, rs@, i as int),
            decreases rs@.len() - i,
        {
            if let Reason::Attention { pane, since } = rs[i] {
                spend(s, pane, since);
            }
            i = i + 1;
        }
        self.last_alert = now;
        journal.note(Happening::Notified(owned(headline)), now);
    }
}

/// Claim the one slot for a notify command. A script that hangs must not accumulate.
pub fn claim_slot(busy: &mut bool) -> (r: bool)
    ensures
        r == !*old(busy),
        *final(busy),
{
    let free = !*busy;
    *busy = true;
    free
}

// -- laws --------------------------------------------------------------------

/// Nothing is sent while a client is attached, while it is switched off, or with nothing to
/// send it through.
pub proof fn law_nothing_is_sent_while_you_are_there(
    c: AlertClock,
    attached: bool,
    reaches_out: bool,
    have_sink: bool,
    s: SessionView,
    b: BoardView,
    now: u64,
)
    requires
        attached || !reaches_out || !have_sink,
    ensures
        alert_due(c, attached, reaches_out, have_sink, s, b, now) is None,
{
}

/// One ping per window: having reached out, the daemon stays quiet for the whole of it,
/// whatever happens.
pub proof fn law_one_alert_per_window(
    c: AlertClock,
    s: SessionView,
    b: BoardView,
    now: u64,
    later: u64,
)
    requires
        now <= later < now + COALESCE,
    ensures
        alert_due(AlertClock { last_alert: now, ..c }, false, true, true, s, b, later) is None,
{
}

proof fn lemma_spent_ids(s: SessionView, rs: Seq<Reason>, n: int)
    ensures
        spent(s, rs, n).panes.len() == s.panes.len(),
        forall|j: int|
            0 <= j < s.panes.len() ==> (#[trigger] spent(s, rs, n).panes[j]).id == s.panes[j].id
                && (spent(s, rs, n).panes[j].life.agent is Some) == (s.panes[j].life.agent is Some)
                && (s.panes[j].life.agent matches Some(a) ==> spent(
                s,
                rs,
                n,
            ).panes[j].life.agent->Some_0.since == a.since),
    decreases n,
{
    if n > 0 {
        lemma_spent_ids(s, rs, n - 1);
        let t = spent(s, rs, n - 1);
        if let Reason::Attention { pane, since } = rs[n - 1] {
            lemma_first_where(t.panes, pane_is(pane));
        }
        let u = spent(s, rs, n);
        assert forall|j: int| 0 <= j < s.panes.len() implies (#[trigger] u.panes[j]).id
            == s.panes[j].id && (u.panes[j].life.agent is Some) == (s.panes[j].life.agent is Some)
            && (s.panes[j].life.agent matches Some(a) ==> u.panes[j].life.agent->Some_0.since
            == a.since) by {
            assert(t.panes[j].id == s.panes[j].id);
        }
    }
}

/// Whether what a reason says of a pane is what there is.
spec fn true_of(r: Reason, p: PaneView) -> bool {
    match r {
        Reason::Attention { pane, since } => pane == p.id ==> since == p.life.agent->Some_0.since,
        Reason::BoardClear => true,
    }
}

proof fn lemma_spent_is_no_news(
    s: SessionView,
    rs: Seq<Reason>,
    n: int,
    k: int,
    i: int,
    now: u64,
)
    requires
        s.wf(),
        0 <= k < n <= rs.len(),
        0 <= i < s.panes.len(),
        s.panes[i].life.agent is Some,
        rs[k] == (Reason::Attention {
            pane: s.panes[i].id,
            since: s.panes[i].life.agent->Some_0.since,
        }),
        forall|a: int| 0 <= a < rs.len() ==> true_of(#[trigger] rs[a], s.panes[i]),
    ensures
        !newsworthy(now)(spent(s, rs, n).panes[i]),
    decreases n,
{
    let t = spent(s, rs, n - 1);
    lemma_spent_ids(s, rs, n - 1);
    lemma_spent_ids(s, rs, n);
    assert(t.panes[i].id == s.panes[i].id);
    let u = spent(s, rs, n);
    match rs[n - 1] {
        Reason::Attention { pane, since } => {
            lemma_first_where(t.panes, pane_is(pane));
            let at = t.pane_at(pane);
            if k == n - 1 {
                assert(pane_is(pane)(t.panes[i]));
                if at < i {
                    assert(t.panes[at].id == s.panes[at].id);
                    assert(s.panes[at].id < s.panes[i].id);
                }
                if at > i {
                    assert(!pane_is(pane)(t.panes[i]));
                }
            } else {
                lemma_spent_is_no_news(s, rs, n - 1, k, i, now);
                if at == i {
                    assert(true_of(rs[n - 1], s.panes[i]));
                }
            }
        },
        Reason::BoardClear => {
            lemma_spent_is_no_news(s, rs, n - 1, k, i, now);
        },
    }
}

/// One wait earns one alert: once the reasons are spent, an agent that was among them is not
/// news, however long it stays stuck. A new wait begins at another moment, and is news again.
pub proof fn law_one_wait_earns_one_alert(
    s: SessionView,
    b: BoardView,
    since: u64,
    now: u64,
    later: u64,
    i: int,
)
    requires
        s.wf(),
        0 <= i < s.panes.len(),
        newsworthy(now)(s.panes[i]),
    ensures
        ({
            let rs = reasons_of(s, b, since, now);
            !newsworthy(later)(spent(s, rs, rs.len() as int).panes[i])
        }),
{
    let rs = reasons_of(s, b, since, now);
    let waiting = pick(s.panes, newsworthy(now), as_reason());
    let k = lemma_pick_complete(s.panes, newsworthy(now), as_reason(), i);
    assert(rs[k] == waiting[k]);
    assert forall|a: int| 0 <= a < rs.len() implies true_of(#[trigger] rs[a], s.panes[i]) by {
        if a < waiting.len() {
            assert(rs[a] == waiting[a]);
            let j = lemma_pick_sound(s.panes, newsworthy(now), as_reason(), a);
            if j < i {
                assert(s.panes[j].id < s.panes[i].id);
            } else if j > i {
                assert(s.panes[i].id < s.panes[j].id);
            }
        }
    }
    lemma_spent_is_no_news(s, rs, rs.len() as int, k, i, later);
}

/// An emptied board is not an event twice: once the window has moved past the last task that
/// closed, it is no reason.
pub proof fn law_an_emptied_board_is_reported_once(b: BoardView, since: u64)
    requires
        forall|i: int|
            0 <= i < b.tasks.len() ==> ((#[trigger] b.tasks[i]).done_at matches Some(at) ==> at
                <= since),
    ensures
        !board_cleared(b, since),
{
}

} // verus!
