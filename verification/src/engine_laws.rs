//! What happens at each turn of the daemon: who is attached, and what a tick does.

use crate::commands::{pane_ids, Cmd, Facts, Level};
use crate::engine::{
    client_is, common_size, fingerprint, handled, has_agent, opened, other_client, sighted,
    step_after, task_back, warned, ClientFrame, ClientView, EngineView, EventView, Step, notes_of,
    reads, told_whole, vault_at, Around, SightingView,
};
use crate::seqs::{
    lemma_first_where_is, lemma_pick_complete, lemma_pick_sound, pick, count_where,
    lemma_first_where,
};
use crate::state::{dead, with_space, Bars, SessionView};
use crate::text::decimal;
use crate::paths::same_place;
use crate::proto::Rect;
use crate::tasks::{TaskState, TaskView, give_back, orphaned};
use crate::triggers::{armed, TriggerView};
use vstd::prelude::*;

verus! {

/// Of two windows the smaller counts, each way on its own, and for one alone its own size does.
pub proof fn law_a_size_fits_every_window(cs: Seq<ClientView>, n: int, i: int)
    requires
        0 <= i < n <= cs.len(),
    ensures
        common_size(cs, n).0 <= cs[i].cols,
        common_size(cs, n).1 <= cs[i].rows,
        exists|k: int| 0 <= k < n && common_size(cs, n).0 == (#[trigger] cs[k]).cols,
        exists|k: int| 0 <= k < n && common_size(cs, n).1 == (#[trigger] cs[k]).rows,
    decreases n,
{
    if n == 1 {
        assert(common_size(cs, n).0 == cs[0].cols);
        assert(common_size(cs, n).1 == cs[0].rows);
    } else {
        law_a_size_fits_every_window(cs, n - 1, if i < n - 1 {
            i
        } else {
            0
        });
        let (c, r) = common_size(cs, n - 1);
        let a = choose|k: int| 0 <= k < n - 1 && c == (#[trigger] cs[k]).cols;
        let b = choose|k: int| 0 <= k < n - 1 && r == (#[trigger] cs[k]).rows;
        assert(cs[a].cols == c);
        assert(cs[b].rows == r);
        assert(cs[n - 1].cols >= common_size(cs, n).0);
    }
}

/// With one window, the session has its size, but never under 20 columns and 6 rows; where that is
/// new every window is owed every pane, and programs are redrawn once it settles.
pub proof fn law_the_session_has_the_windows_size(e: EngineView, bars: Bars, now: u64)
    requires
        e.clients.len() == 1,
    ensures
        ({
            let c = e.clients[0];
            let t = e.resynced(bars, now);
            let cols = if c.cols < 20 {
                20u16
            } else {
                c.cols
            };
            let rows = if c.rows < 6 {
                6u16
            } else {
                c.rows
            };
            let same = cols == e.session.client_cols && rows == e.session.client_rows;
            &&& same ==> t == e
            &&& !same ==> t.settling == Some(now) && t.repaint && t.dirty_shape
            &&& t.board == e.board && t.triggers == e.triggers && t.events == e.events && t.recents
                == e.recents
            &&& t.clients.len() == 1 && t.clients[0].id == c.id && t.clients[0].cols == c.cols
                && t.clients[0].rows == c.rows
        }),
{
}

/// Without a window nothing is resized.
pub proof fn law_without_a_window_the_size_stays(e: EngineView, bars: Bars, now: u64)
    requires
        e.clients.len() == 0,
    ensures
        e.resynced(bars, now) == e,
{
}

/// A window that attaches is there once, behind the others, with its own size; who left is gone,
/// and everybody else stays.
pub proof fn law_a_window_is_there_once(
    e: EngineView,
    bars: Bars,
    id: u64,
    cols: u16,
    rows: u16,
    now: u64,
)
    ensures
        ({
            let t = e.attaching(bars, id, cols, rows, None, now);
            let rest = pick(e.clients, |c: ClientView| c.id != id, |c: ClientView| c);
            &&& t.clients.len() == rest.len() + 1
            &&& t.clients.last().id == id && t.clients.last().cols == cols && t.clients.last().rows
                == rows
            &&& forall|i: int|
                0 <= i < rest.len() ==> (#[trigger] t.clients[i]).id == rest[i].id
                    && t.clients[i].id != id && t.clients[i].cols == rest[i].cols
                    && t.clients[i].rows == rest[i].rows
            &&& t.dirty_shape && t.events == e.events && t.board == e.board && t.triggers
                == e.triggers
            &&& e.detaching(bars, id, now).clients.len() == rest.len()
            &&& forall|i: int|
                0 <= i < rest.len() ==> (#[trigger] e.detaching(bars, id, now).clients[i]).id
                    == rest[i].id && rest[i].id != id
        }),
{
    let p = |c: ClientView| c.id != id;
    let f = |c: ClientView| c;
    assert(other_client(id) =~= p);
    let rest = pick(e.clients, p, f);
    assert forall|i: int| 0 <= i < rest.len() implies (#[trigger] rest[i]).id != id by {
        let k = lemma_pick_sound(e.clients, p, f, i);
    }
    let t = e.attaching(bars, id, cols, rows, None, now);
    let there = rest.push(
        ClientView { id, cols, rows, needs_full: pane_ids(e.session) },
    );
    assert forall|i: int| 0 <= i < rest.len() implies (#[trigger] t.clients[i]).id == rest[i].id
        && t.clients[i].id != id && t.clients[i].cols == rest[i].cols && t.clients[i].rows
        == rest[i].rows by {
        assert(there[i] == rest[i]);
        assert(rest[i].id != id);
    }
    assert forall|i: int| 0 <= i < rest.len() implies (#[trigger] e.detaching(
        bars,
        id,
        now,
    ).clients[i]).id == rest[i].id && rest[i].id != id by {
        assert(rest[i].id != id);
    }
}

/// A headline is told to a window that attaches.
pub proof fn law_a_headline_is_told(
    e: EngineView,
    bars: Bars,
    id: u64,
    cols: u16,
    rows: u16,
    h: Seq<char>,
    now: u64,
)
    ensures
        e.attaching(bars, id, cols, rows, Some(h), now).events == e.events.push(
            EventView::Notice { level: Level::Info, text: h + " — see `horde digest`"@ },
        ),
{
}

/// A window of another size has that size, and no other window does.
pub proof fn law_a_window_changes_its_own_size(
    e: EngineView,
    bars: Bars,
    i: int,
    cols: u16,
    rows: u16,
    now: u64,
)
    requires
        0 <= i < e.clients.len(),
        forall|j: int| 0 <= j < i ==> (#[trigger] e.clients[j]).id != e.clients[i].id,
    ensures
        ({
            let t = e.resizing(bars, e.clients[i].id, cols, rows, now);
            &&& t.clients.len() == e.clients.len()
            &&& t.clients[i].cols == cols && t.clients[i].rows == rows && t.clients[i].id
                == e.clients[i].id
            &&& forall|j: int|
                0 <= j < e.clients.len() && j != i ==> (#[trigger] t.clients[j]).cols
                    == e.clients[j].cols && t.clients[j].rows == e.clients[j].rows
                    && t.clients[j].id == e.clients[j].id
        }),
{
    let id = e.clients[i].id;
    assert forall|j: int| 0 <= j < i implies !client_is(id)(#[trigger] e.clients[j]) by {
        assert(e.clients[j].id != e.clients[i].id);
    }
    lemma_first_where_is(e.clients, client_is(id), i);
}

/// Keys go to the pane they are for, where it is there, and it counts as looked at. They change
/// nothing else.
pub proof fn law_keys_go_to_their_pane(
    e: EngineView,
    bars: Bars,
    shell: Seq<char>,
    id: u64,
    frame: ClientFrame,
    facts: Facts,
    now: u64,
)
    requires
        frame is Input,
    ensures
        handled(e, bars, shell, id, frame, facts, now).0 == e,
        e.session.has_pane(frame->Input_pane) ==> handled(
            e,
            bars,
            shell,
            id,
            frame,
            facts,
            now,
        ).1.input == Some((frame->Input_pane, frame->bytes@)),
        !e.session.has_pane(frame->Input_pane) ==> handled(
            e,
            bars,
            shell,
            id,
            frame,
            facts,
            now,
        ).1.input is None,
        handled(e, bars, shell, id, frame, facts, now).1.seen == Some(frame->Input_pane),
{
}

/// Being there changes nothing, and leaving and resizing do what they say.
pub proof fn law_a_frame_does_what_it_says(
    e: EngineView,
    bars: Bars,
    shell: Seq<char>,
    id: u64,
    cols: u16,
    rows: u16,
    facts: Facts,
    now: u64,
)
    ensures
        handled(e, bars, shell, id, ClientFrame::Ping, facts, now).0 == e,
        handled(e, bars, shell, id, ClientFrame::Detach, facts, now).0 == e.detaching(
            bars,
            id,
            now,
        ),
        handled(e, bars, shell, id, ClientFrame::Resize { cols, rows }, facts, now).0 == e.resizing(
            bars,
            id,
            cols,
            rows,
            now,
        ),
        handled(e, bars, shell, id, ClientFrame::Ping, facts, now).1.input is None,
        handled(e, bars, shell, id, ClientFrame::Ping, facts, now).1.digest_since is None,
{
}

/// A digest reaches back to when one was last read, or to the start, and reads up to now.
pub proof fn law_a_digest_reaches_back_to_the_last(
    e: EngineView,
    bars: Bars,
    shell: Seq<char>,
    id: u64,
    facts: Facts,
    now: u64,
)
    ensures
        ({
            let (t, r) = handled(
                e,
                bars,
                shell,
                id,
                ClientFrame::Command(Cmd::RequestDigest),
                facts,
                now,
            );
            &&& t.last_seen == now && t.session == e.session && t.board == e.board
            &&& e.last_seen == 0 ==> r.digest_since == Some(e.started)
            &&& e.last_seen != 0 ==> r.digest_since == Some(e.last_seen)
        }),
{
}

/// What went wrong with a command is told, and agents are looked at soon after any.
pub proof fn law_what_went_wrong_is_told(
    e: EngineView,
    bars: Bars,
    shell: Seq<char>,
    cmd: Cmd,
    facts: Facts,
)
    ensures
        ({
            let (t, a) = e.doing(bars, shell, cmd, facts);
            &&& t.detect_soon && t.dirty_shape
            &&& a.repaint ==> t.repaint
            &&& a.problem is None ==> t.events == e.events
            &&& a.problem matches Some(x) ==> t.events == e.events.push(
                EventView::Notice { level: x.0, text: x.1 },
            )
            &&& t.board == e.board && t.triggers == e.triggers && t.clients == e.clients
        }),
{
}

/// What agents look like from a distance: each of them, by name and state.
pub proof fn law_every_agent_is_seen(s: SessionView, i: int)
    requires
        0 <= i < s.panes.len(),
        s.panes[i].life.agent is Some,
    ensures
        exists|k: int|
            0 <= k < fingerprint(s).len() && (#[trigger] fingerprint(s)[k]).pane == s.panes[i].id
                && fingerprint(s)[k].name == s.panes[i].life.agent->Some_0.name
                && fingerprint(s)[k].state == s.panes[i].life.agent->Some_0.state,
{
    let k = lemma_pick_complete(
        s.panes,
        has_agent(),
        sighted(),
        i,
    );
    assert(fingerprint(s)[k].pane == s.panes[i].id);
}

/// A pane whose program ended is told of and taken away, and so is work that came back.
pub proof fn law_what_comes_back_is_said(e: EngineView, bars: Bars, live: Seq<Seq<char>>, id: u64)
    ensures
        e.reaped(bars).events.len() == e.events.len() + dead(e.session.panes).len(),
        forall|i: int|
            0 <= i < dead(e.session.panes).len() ==> #[trigger] e.reaped(
                bars,
            ).events[e.events.len() + i] == (EventView::PaneExited {
                pane: dead(e.session.panes)[i],
                status: 0,
            }),
        e.reaped(bars).board == e.board,
        e.reclaimed(live).session == e.session,
        task_back(id) == (EventView::Notice {
            level: Level::Info,
            text: "task #"@ + decimal(id as nat) + " is open again — its agent left"@,
        }),
{
}

/// A flurry of sizes is over 120 milliseconds after the last.
pub proof fn law_a_flurry_of_sizes_settles(e: EngineView, now: u64, at: u64)
    requires
        e.settling == Some(at),
    ensures
        now - at >= 120 ==> e.settled(now).settling is None && e.settled(now).dirty_shape,
        now - at < 120 ==> e.settled(now) == e,
{
}

/// There is a space after the last pane closed, and none is made where there is one.
pub proof fn law_a_space_is_made_only_where_there_is_none(
    e: EngineView,
    bars: Bars,
    shell: Seq<char>,
    reaped: bool,
    here: Seq<char>,
)
    ensures
        e.session.spaces.len() > 0 || !reaped ==> e.revived(bars, shell, reaped, here) == e,
        reaped && e.session.spaces.len() == 0 ==> e.revived(bars, shell, reaped, here).dirty_shape
            && e.revived(bars, shell, reaped, here).session == with_space(
            e.session,
            bars,
            shell,
            None,
            here,
        ),
{
}

/// What went wrong on the way up is said, each thing once and in order.
pub proof fn law_what_went_wrong_on_the_way_up_is_said(
    e: EngineView,
    ws: Seq<Seq<char>>,
    n: int,
    i: int,
)
    requires
        0 <= i < n <= ws.len(),
    ensures
        warned(e, ws, n).events.len() == e.events.len() + n,
        warned(e, ws, n).events[e.events.len() + i] == (EventView::Notice {
            level: Level::Warn,
            text: ws[i],
        }),
        warned(e, ws, n).session == e.session,
    decreases n,
{
    if i < n - 1 {
        law_what_went_wrong_on_the_way_up_is_said(e, ws, n - 1, i);
    } else if n > 1 {
        law_what_went_wrong_on_the_way_up_is_said(e, ws, n - 1, 0);
    } else {
        assert(warned(e, ws, 0) == e);
    }
}

/// A space that is there is kept when opening.
pub proof fn law_opening_keeps_what_is_there(
    e: EngineView,
    bars: Bars,
    shell: Seq<char>,
    here: Seq<char>,
)
    requires
        e.session.spaces.len() > 0,
    ensures
        opened(e, bars, shell, here, Seq::empty(), 0).session == e.session,
        opened(e, bars, shell, here, Seq::empty(), 0).board == e.board,
{
    assert(warned(e, Seq::empty(), 0) == e);
}

/// The order of a tick: what is slow is done only when it is due, agents are looked at when that is
/// due or was asked for, what ended is taken away before work is handed back, a firing comes before
/// the notice of it, and what goes out goes out last.
pub proof fn law_the_order_of_a_tick(due: bool, soon: bool)
    ensures
        step_after(Step::Pump, due, soon) == Some(Step::NoteProject),
        step_after(Step::NoteProject, due, soon) == Some(Step::DrainServers),
        due ==> step_after(Step::DrainServers, due, soon) == Some(Step::RefreshRepos),
        !due && soon ==> step_after(Step::DrainServers, due, soon) == Some(Step::Detect),
        !due && !soon ==> step_after(Step::DrainServers, due, soon) == Some(Step::Reap),
        step_after(Step::RefreshRepos, due, soon) == Some(Step::RefreshVaults),
        step_after(Step::RefreshVaults, due, soon) == Some(Step::SweepServers),
        step_after(Step::SweepServers, due, soon) == Some(Step::AdvanceModels),
        step_after(Step::AdvanceModels, due, soon) == Some(Step::NudgeHandover),
        step_after(Step::NudgeHandover, due, soon) == Some(Step::Succeed),
        step_after(Step::Succeed, due, soon) == Some(Step::Detect),
        step_after(Step::Detect, due, soon) == Some(Step::Reap),
        step_after(Step::Reap, due, soon) == Some(Step::Reclaim),
        step_after(Step::Reclaim, due, soon) == Some(Step::SettleResize),
        due ==> step_after(Step::SettleResize, due, soon) == Some(Step::Approve),
        !due ==> step_after(Step::SettleResize, due, soon) == Some(Step::FireTriggers),
        step_after(Step::Approve, due, soon) == Some(Step::FireTriggers),
        step_after(Step::FireTriggers, due, soon) == Some(Step::Notify),
        step_after(Step::Notify, due, soon) == Some(Step::Revive),
        step_after(Step::Revive, due, soon) == Some(Step::Broadcast),
        step_after(Step::Broadcast, due, soon) is None,
{
}

/// A look at agents is over once it is done, and is told of where anything came of it: something
/// was told, there are agents, or they are not what they were.
pub proof fn law_a_look_at_agents_is_told_of(e: EngineView, before: Seq<SightingView>, said: bool)
    ensures
        !e.detected(before, said).detect_soon,
        e.dirty_shape || said || before != fingerprint(e.session) || fingerprint(e.session).len()
            > 0 ==> e.detected(before, said).dirty_shape,
        !e.dirty_shape && !said && before == fingerprint(e.session) && fingerprint(e.session).len()
            == 0 ==> !e.detected(before, said).dirty_shape,
        e.detected(before, said).session == e.session,
{
}

/// A space has as many notes as the vault that it reads, where that is known.
pub proof fn law_a_space_has_the_notes_of_its_vault(around: Around, i: int, k: int, space: u64)
    requires
        0 <= i < around.roots@.len(),
        forall|j: int| 0 <= j < i ==> (#[trigger] around.roots@[j]).0 != around.roots@[i].0,
        0 <= k < around.vaults@.len(),
        same_place(around.vaults@[k].0@, around.roots@[i].1@),
        forall|j: int|
            0 <= j < k ==> !same_place((#[trigger] around.vaults@[j]).0@, around.roots@[i].1@),
        forall|j: int| 0 <= j < around.roots@.len() ==> (#[trigger] around.roots@[j]).0 != space,
    ensures
        notes_of(around, around.roots@[i].0) == Some(around.vaults@[k].1),
        notes_of(around, space) is None,
{
    let id = around.roots@[i].0;
    assert forall|j: int| 0 <= j < i implies !reads(id)(#[trigger] around.roots@[j]) by {
        assert(around.roots@[j].0 != around.roots@[i].0);
    }
    lemma_first_where_is(around.roots@, reads(id), i);
    let root = around.roots@[i].1@;
    assert forall|j: int| 0 <= j < k implies !vault_at(root)(#[trigger] around.vaults@[j]) by {
        assert(!same_place(around.vaults@[j].0@, root));
    }
    lemma_first_where_is(around.vaults@, vault_at(root), k);
    lemma_first_where(around.roots@, reads(space));
    let f = crate::seqs::first_where(around.roots@, reads(space));
    if f < around.roots@.len() {
        assert(reads(space)(around.roots@[f]));
    }
}

/// The whole is told with how much work is open and how much is claimed, and how many rules may
/// fire, which is none where nothing fires unattended.
pub proof fn law_the_whole_is_told_with_its_counts(
    e: EngineView,
    bars: Bars,
    tiles: Seq<(u64, Rect)>,
    unattended: bool,
    around: Around,
    now: u64,
)
    ensures
        ({
            let t = told_whole(e, bars, tiles, unattended, around, now);
            &&& t.tasks_open == count_where(
                e.board.tasks,
                |t: TaskView| t.state == TaskState::Open,
            )
            &&& t.tasks_claimed == count_where(
                e.board.tasks,
                |t: TaskView| t.state == TaskState::Claimed,
            )
            &&& !unattended ==> t.triggers_armed == 0
            &&& unattended ==> t.triggers_armed == count_where(
                e.triggers.triggers,
                |t: TriggerView| t.enabled && !t.deleted,
            )
            &&& t.panes.len() == e.session.panes.len() && t.spaces.len() == e.session.spaces.len()
            &&& forall|i: int|
                0 <= i < e.session.spaces.len() ==> (#[trigger] t.spaces[i]).notes == notes_of(
                    around,
                    e.session.spaces[i].id,
                ) && t.spaces[i].id == e.session.spaces[i].id
        }),
{
    let a = |t: TaskView| t.state == TaskState::Open;
    let b = |t: TaskView| t.state == TaskState::Claimed;
    let c = |t: TriggerView| t.enabled && !t.deleted;
    assert((|t: TaskView| t.is_open()) =~= a);
    assert((|t: TaskView| t.is_claimed()) =~= b);
    assert(armed() =~= c);
}

/// Work whose agent left is said to be open again, once for each, and that is told of.
pub proof fn law_work_whose_agent_left_is_told(e: EngineView, live: Seq<Seq<char>>, i: int)
    ensures
        ({
            let back = pick(e.board.tasks, orphaned(live), give_back());
            let t = e.reclaimed(live);
            &&& t.events.len() == e.events.len() + back.len()
            &&& 0 <= i < back.len() ==> t.events[e.events.len() + i] == (EventView::Notice {
                level: Level::Info,
                text: "task #"@ + decimal(back[i].id as nat) + " is open again — its agent left"@,
            })
            &&& back.len() > 0 ==> t.dirty_shape
            &&& back.len() == 0 ==> t.dirty_shape == e.dirty_shape && t.events == e.events
        }),
{
}

} // verus!
