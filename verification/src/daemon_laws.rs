//! How the daemon keeps time, hands over to its successor, and reads its terminals, and what it
//! tells of itself.

use crate::lifecycle::{
    clock_of, fix_text, greets, mismatch_text, orphans_text, without_suffixes, Greeting,
    DETECT_INTERVAL, FEW_FILES, MAX_SOCKET_PATH, SAVE_DELAY, TICK_ATTACHED, TICK_DETACHED,
};
use crate::pane::display_of;
use crate::proto::{AgentState, Rect};
use crate::reader::{moved, Found, Move, ReadEnd, ReaderState, Waited, POLL_MS};
use crate::rpc::RequestView;
use crate::seqs::{count_where, lemma_first_where, lemma_first_where_is};
use crate::servers::{death_text, detail_of, ready_text, ServerState};
use crate::snapshot::{pane_told, rects_for, space_told, tab_told, told};
use crate::state::{PaneView, SessionView, SpaceView, TabView};
use crate::text::decimal;
use crate::upgrade::{
    advanced, Happened, Next, Phase, BOUND, GO, PAUSE_TIMEOUT, READY, STEP_TIMEOUT,
};
use vstd::prelude::*;

verus! {

/// How the daemon keeps time: sixteen milliseconds a tick while it is watched and 150 otherwise,
/// agents every 640, a save after a second of quiet, two seconds for a reader to stop and ten for
/// any other step of a handover. A reader looks up ten times a second. A socket's path has at most
/// a hundred bytes, and a system has few files under 512.
pub proof fn law_how_the_daemon_keeps_time()
    ensures
        TICK_ATTACHED == 16,
        TICK_DETACHED == 150,
        DETECT_INTERVAL == 640,
        SAVE_DELAY == 1_000,
        PAUSE_TIMEOUT == 2_000,
        STEP_TIMEOUT == 10_000,
        POLL_MS == 100,
        MAX_SOCKET_PATH == 100,
        FEW_FILES == 512,
{
}

/// A client of this version is welcome, with the size it says or else 120 by 40; one of another is
/// turned away.
pub proof fn law_a_client_of_this_version_is_welcome(
    g: Greeting,
    q: RequestView,
    ours: u32,
    own: Option<Seq<char>>,
)
    requires
        greets(g, q, ours, own),
    ensures
        q.whole("protocol"@) == Some(ours as u64) ==> g is Welcome,
        q.whole("protocol"@) is Some && q.whole("protocol"@)->Some_0 != ours && q.whole(
            "protocol"@,
        )->Some_0 < 0x1_0000_0000 ==> g is Bye,
        q.whole("protocol"@) is None && ours != 0 ==> g is Bye,
        g is Welcome && q.whole("cols"@) is None ==> g->cols == 120,
        g is Welcome && q.whole("rows"@) is None ==> g->rows == 40,
        g is Welcome && q.whole("cols"@) is Some && q.whole("cols"@)->Some_0 < 0x1_0000 ==> g->cols
            == q.whole("cols"@)->Some_0,
        g is Welcome && q.whole("rows"@) is Some && q.whole("rows"@)->Some_0 < 0x1_0000 ==> g->rows
            == q.whole("rows"@)->Some_0,
{
}

/// Why a client is turned away names both versions and what to do.
pub proof fn law_both_versions_are_named(theirs: nat, ours: nat, path: Seq<char>)
    ensures
        mismatch_text(theirs, ours, None) == "protocol mismatch: client speaks v"@ + decimal(theirs)
            + ", daemon speaks v"@ + decimal(ours) + ". "@ + "Run `horde stop`, then `horde`."@,
        fix_text(Some(path)) == "Stop this one with `HORDE_SOCKET="@ + path
            + " horde stop`, then start it again."@,
{
}

/// Messages that outlived a restart are counted.
pub proof fn law_messages_that_outlived_a_restart_are_counted(n: nat)
    ensures
        orphans_text(0) is None,
        orphans_text(1) == Some(
            decimal(1) + " message"@ + ""@ + " from before the restart "@ + "is"@
                + " waiting to be delivered"@,
        ),
        n >= 2 ==> orphans_text(n) == Some(
            decimal(n) + " message"@ + "s"@ + " from before the restart "@ + "are"@
                + " waiting to be delivered"@,
        ),
{
}

/// A moment so many hours, minutes and seconds into a day reads so.
pub proof fn law_the_clock_reads_hours_minutes_seconds(
    now: u64,
    days: nat,
    h: nat,
    m: nat,
    s: nat,
    ms: nat,
)
    requires
        h < 24,
        m < 60,
        s < 60,
        ms < 1000,
        now == (((days * 24 + h) * 60 + m) * 60 + s) * 1000 + ms,
    ensures
        clock_of(now) == crate::text::two_places(h) + ":"@ + crate::text::two_places(m) + ":"@
            + crate::text::two_places(s),
{
    let secs = (now / 1000) as nat;
    let total = ((days * 24 + h) * 60 + m) * 60 + s;
    assert(total == (days * 24 + h) * 3600 + m * 60 + s);
    assert(secs == total);
    assert(secs / 3600 == days * 24 + h);
    assert((days * 24 + h) % 24 == h);
    assert(secs / 60 == (days * 24 + h) * 60 + m);
    assert(((days * 24 + h) * 60 + m) % 60 == m);
    assert(secs % 60 == s);
}

/// A machine's name is without `.local` at its end, however often that stands there.
pub proof fn law_a_machines_name_is_without_its_domain(s: Seq<char>)
    ensures
        without_suffixes(s + ".local"@, ".local"@) == without_suffixes(s, ".local"@),
        !crate::text::ends(s, ".local"@) ==> without_suffixes(s, ".local"@) == s,
{
    reveal_strlit(".local");
    let t = s + ".local"@;
    assert(t.take(t.len() - 6) =~= s);
    assert(t.skip(t.len() - 6) =~= ".local"@);
    assert(t.subrange(t.len() - 6, t.len() as int) =~= ".local"@);
}

// -- handing over ------------------------------------------------------------

/// A handover goes step by step: each reader stops, then the state is taken, the successor started,
/// told and listened to, and after its word that it is ready the socket is given up.
pub proof fn law_a_handover_goes_step_by_step(order: Seq<u64>, n: usize)
    ensures
        n + 1 < order.len() ==> advanced(order, Phase::Pausing(n), Happened::Did) == (
            Phase::Pausing((n + 1) as usize),
            Next::Pause(order[n as int + 1]),
        ),
        n + 1 >= order.len() ==> advanced(order, Phase::Pausing(n), Happened::Did) == (
            Phase::Building,
            Next::Build,
        ),
        advanced(order, Phase::Building, Happened::Did) == (Phase::Spawning, Next::Spawn),
        advanced(order, Phase::Spawning, Happened::Did) == (Phase::Sending, Next::Send),
        advanced(order, Phase::Sending, Happened::Did) == (Phase::AwaitingReady, Next::Listen),
        advanced(order, Phase::AwaitingReady, Happened::Said(82)) == (
            Phase::Committing,
            Next::Commit,
        ),
        advanced(order, Phase::Committing, Happened::Did) == (Phase::AwaitingBound, Next::Listen),
        advanced(order, Phase::AwaitingBound, Happened::Said(66)) == (Phase::Done, Next::Exit),
        READY == 82,
        BOUND == 66,
        GO == 71,
{
}

/// A handover that fails resumes every reader that had stopped, and no other, and stops the
/// successor where one had been started. So does one whose successor says anything else.
pub proof fn law_a_handover_that_fails_is_undone(order: Seq<u64>, n: usize, b: u8)
    requires
        order.len() <= usize::MAX,
    ensures
        advanced(order, Phase::Pausing(n), Happened::Failed) == (
            Phase::RolledBack,
            Next::RollBack { resume: n, kill: false },
        ),
        advanced(order, Phase::Building, Happened::Failed) == (
            Phase::RolledBack,
            Next::RollBack { resume: order.len() as usize, kill: false },
        ),
        advanced(order, Phase::Spawning, Happened::Failed) == (
            Phase::RolledBack,
            Next::RollBack { resume: order.len() as usize, kill: false },
        ),
        advanced(order, Phase::Sending, Happened::Failed) == (
            Phase::RolledBack,
            Next::RollBack { resume: order.len() as usize, kill: true },
        ),
        advanced(order, Phase::AwaitingReady, Happened::Failed) == (
            Phase::RolledBack,
            Next::RollBack { resume: order.len() as usize, kill: true },
        ),
        advanced(order, Phase::Committing, Happened::Failed) == (
            Phase::RolledBack,
            Next::RollBack { resume: order.len() as usize, kill: true },
        ),
        advanced(order, Phase::AwaitingBound, Happened::Failed) == (
            Phase::RolledBack,
            Next::RollBack { resume: order.len() as usize, kill: true },
        ),
        b != 82 ==> advanced(order, Phase::AwaitingReady, Happened::Said(b)) == (
            Phase::RolledBack,
            Next::RollBack { resume: order.len() as usize, kill: true },
        ),
        b != 66 ==> advanced(order, Phase::AwaitingBound, Happened::Said(b)) == (
            Phase::RolledBack,
            Next::RollBack { resume: order.len() as usize, kill: true },
        ),
{
}

// -- reading -----------------------------------------------------------------

/// A reader that is told to stop stops, one that is told to pause rests, and otherwise it waits for
/// something to read. It reads only after it has looked once more.
pub proof fn law_a_reader_does_as_it_is_told(s: ReaderState, pause: bool)
    ensures
        moved(s, Found::Flags { stop: true, pause }) == (ReaderState { idle: true }, Move::Stop),
        moved(s, Found::Flags { stop: false, pause: true }) == (
            ReaderState { idle: true },
            Move::Rest,
        ),
        moved(s, Found::Flags { stop: false, pause: false }) == (s, Move::Wait),
        moved(s, Found::Wait(Waited::Ready)) == (s, Move::LookAgain),
        moved(s, Found::Wait(Waited::Quiet)) == (ReaderState { idle: true }, Move::Look),
        moved(s, Found::Wait(Waited::Interrupted)) == (s, Move::Look),
        moved(s, Found::Again { pause: true }) == (ReaderState { idle: true }, Move::Look),
        moved(s, Found::Again { pause: false }) == (ReaderState { idle: false }, Move::Read),
        moved(s, Found::Read(ReadEnd::Bytes)) == (s, Move::PassOn),
        moved(s, Found::Read(ReadEnd::Interrupted)) == (s, Move::Look),
        moved(s, Found::Passed { taken: true }) == (s, Move::Look),
{
}

/// A reader is done where its terminal has ended or fails, or nobody takes what it read.
pub proof fn law_a_reader_ends_with_its_terminal(s: ReaderState)
    ensures
        moved(s, Found::Wait(Waited::Failed)).1 == Move::Stop,
        moved(s, Found::Read(ReadEnd::End)).1 == Move::Stop,
        moved(s, Found::Read(ReadEnd::Failed)).1 == Move::Stop,
        moved(s, Found::Passed { taken: false }).1 == Move::Stop,
        moved(s, Found::Wait(Waited::Failed)).0.idle,
        moved(s, Found::Read(ReadEnd::End)).0.idle,
        moved(s, Found::Read(ReadEnd::Failed)).0.idle,
        moved(s, Found::Passed { taken: false }).0.idle,
{
}

// -- what is told ------------------------------------------------------------

/// Of a server that is ready nothing more is said; of one that waits or failed, why; of any other
/// its last words, and else what was run.
pub proof fn law_what_is_said_of_a_server(
    state: ServerState,
    why: Option<Seq<char>>,
    last: Option<Seq<char>>,
    command: Seq<char>,
    lang: Seq<char>,
    words: Seq<char>,
)
    ensures
        detail_of(ServerState::Ready, why, last, command) is None,
        why is Some ==> detail_of(ServerState::Failed, why, last, command) == why && detail_of(
            ServerState::Waiting,
            why,
            last,
            command,
        ) == why,
        last is Some ==> detail_of(ServerState::Starting, why, last, command) == last,
        why is None && last is Some && state != ServerState::Ready ==> detail_of(
            state,
            why,
            last,
            command,
        ) == last,
        why is None && last is None && state != ServerState::Ready ==> detail_of(
            state,
            why,
            last,
            command,
        ) == Some(command),
        ready_text(lang) == lang + " language server ready"@,
        death_text(lang, true, words) == lang + " language server keeps dying, giving up: "@ + words,
        death_text(lang, false, words) == lang + " language server died, restarting: "@ + words,
{
}

/// A pane is told of as it is, where it is drawn; one that is not drawn is nowhere.
pub proof fn law_a_pane_is_told_of_as_it_is(
    p: PaneView,
    rects: Seq<(u64, Rect, Rect)>,
    i: int,
    now: u64,
)
    ensures
        ({
            let t = pane_told(p, rects, now);
            &&& t.id == p.id && t.tab == p.tab && t.space == p.space && t.cwd == p.cwd
            &&& t.title == display_of(p.name, p.life.title, p.cmd)
            &&& t.cols == p.life.cols && t.rows == p.life.rows && t.exited == p.life.exited
            &&& t.spawned_by == p.life.spawned_by && t.scroll_offset == p.life.scroll_offset
                && t.wants_mouse == p.life.wants_mouse && t.bracketed_paste
                == p.life.bracketed_paste
            &&& p.life.agent is None <==> t.agent is None
            &&& p.life.agent is Some ==> t.agent == Some(p.life.agent->Some_0.info_at(now))
            &&& 0 <= i < rects.len() && rects[i].0 == p.id && (forall|j: int|
                0 <= j < i ==> (#[trigger] rects[j]).0 != p.id) ==> t.cell == rects[i].1
                && t.content == rects[i].2
            &&& (forall|j: int| 0 <= j < rects.len() ==> (#[trigger] rects[j]).0 != p.id) ==> t.cell
                == (Rect { x: 0, y: 0, w: 0, h: 0 }) && t.content == (Rect {
                x: 0,
                y: 0,
                w: 0,
                h: 0,
            })
        }),
{
    lemma_first_where(rects, rects_for(p.id));
    if 0 <= i < rects.len() && rects[i].0 == p.id && (forall|j: int|
        0 <= j < i ==> (#[trigger] rects[j]).0 != p.id) {
        lemma_first_where_is(rects, rects_for(p.id), i);
    }
}

/// A tab and a space are told of as they are: a space with how many of its agents there are, and
/// how many of those are blocked or done.
pub proof fn law_a_space_is_told_of_with_its_agents(s: SessionView, sp: SpaceView, t: TabView)
    ensures
        ({
            let x = space_told(s, sp);
            let ps = crate::state::panes_of_tabs(s, sp.tabs, sp.tabs.len() as int);
            &&& x.id == sp.id && x.name == sp.name && x.cwd == sp.cwd && x.tabs == sp.tabs
                && x.focused_tab == sp.focused_tab
            &&& x.agent_count == count_where(
                ps,
                |p: u64| s.has_pane(p) && s.panes[s.pane_at(p)].life.agent is Some,
            )
            &&& x.attention_count == count_where(
                ps,
                |p: u64|
                    s.has_pane(p) && s.panes[s.pane_at(p)].life.agent is Some && (s.panes[s.pane_at(
                        p,
                    )].life.agent->Some_0.state == AgentState::Blocked || s.panes[s.pane_at(
                        p,
                    )].life.agent->Some_0.state == AgentState::Done),
            )
            &&& tab_told(t).id == t.id && tab_told(t).space == t.space && tab_told(t).name == t.name
                && tab_told(t).focused_pane == t.focused_pane && tab_told(t).panes
                == t.layout.order()
        }),
{
    let a = |p: u64| s.has_pane(p) && s.panes[s.pane_at(p)].life.agent is Some;
    let b = |p: u64|
        s.has_pane(p) && s.panes[s.pane_at(p)].life.agent is Some && (s.panes[s.pane_at(
            p,
        )].life.agent->Some_0.state == AgentState::Blocked || s.panes[s.pane_at(
            p,
        )].life.agent->Some_0.state == AgentState::Done);
    assert(crate::snapshot::has_agent(s) =~= a);
    assert(crate::snapshot::calls_you(s) =~= b);
}

/// Everything there is is told of, in its order, with what is in front.
pub proof fn law_everything_is_told_of(
    s: SessionView,
    rects: Seq<(u64, Rect, Rect)>,
    now: u64,
    open: nat,
    claimed: nat,
    armed: nat,
)
    ensures
        ({
            let t = told(s, rects, now, open, claimed, armed);
            &&& t.spaces.len() == s.spaces.len() && t.tabs.len() == s.tabs.len() && t.panes.len()
                == s.panes.len()
            &&& forall|i: int| 0 <= i < s.panes.len() ==> (#[trigger] t.panes[i]).id == s.panes[i].id
            &&& forall|i: int| 0 <= i < s.tabs.len() ==> (#[trigger] t.tabs[i]).id == s.tabs[i].id
            &&& forall|i: int|
                0 <= i < s.spaces.len() ==> (#[trigger] t.spaces[i]).id == s.spaces[i].id
            &&& t.focused_space == s.focused_space && t.focused_tab == s.front_tab()
                && t.focused_pane == s.front_pane()
            &&& t.tasks_open == open && t.tasks_claimed == claimed && t.triggers_armed == armed
        }),
{
}

} // verus!
