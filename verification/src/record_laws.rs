//! Notes, cards and documents, and what comes of asking for them.

use crate::cards::{due_text, handing, is_due, today, Card, HandOverError};
use crate::commands::Level;
use crate::documents::{
    after_event, called, passed_on, said_of, table, DocsView, OpenDoc, ServerEvent, after_events,
};
use crate::engine::{ClientView, EngineView, EventView};
use crate::notebook::{
    appended, file_at, init_text, lines_for, names_of, note_place, root_of, FileError, FILE_LIMIT,
    MAX_ATTACHMENT, VAULT_BUDGET,
};
use crate::paths::{join_path, joined_safely, place};
use crate::queries::{complained_of, digesting, lines_wanted, source_wanted};
use crate::requests::{
    answer_to, complained, followed, handed_text, said, seen_from, AnswerView, Ask, Went,
};
use crate::rpc::RequestView;
use crate::seqs::{lemma_first_where, lemma_first_where_is};
use crate::state::{space_is, SessionView};
use crate::tasks::{adding, BoardView};
use crate::text::{decimal, trimmed, trimmed_end, trimmed_start};
use crate::vault::linkers;
use vstd::prelude::*;

verus! {

// -- notes -------------------------------------------------------------------

/// How much notes may be: eight megabytes an attachment, forty notes read at a time, and four
/// thousand files listed.
pub proof fn law_how_much_notes_may_be()
    ensures
        MAX_ATTACHMENT == 8 * 1024 * 1024,
        VAULT_BUDGET == 40,
        FILE_LIMIT == 4_000,
{
}

/// A project that is a vault has its notes in it; otherwise they are in the directory that is set,
/// and otherwise at home.
pub proof fn law_where_notes_are(
    s: SessionView,
    i: int,
    dir: Seq<char>,
    is_vault: bool,
    has_dir: bool,
    home: Seq<char>,
    has_home: bool,
)
    requires
        s.wf(),
        0 <= i < s.spaces.len(),
    ensures
        is_vault ==> root_of(s, s.spaces[i].id, dir, is_vault, has_dir, home, has_home) == Some(
            s.spaces[i].cwd,
        ),
        !is_vault && has_dir ==> root_of(s, s.spaces[i].id, dir, is_vault, has_dir, home, has_home)
            == Some(join_path(s.spaces[i].cwd, dir)),
        !is_vault && !has_dir && has_home ==> root_of(
            s,
            s.spaces[i].id,
            dir,
            is_vault,
            has_dir,
            home,
            has_home,
        ) == Some(home),
        !is_vault && !has_dir && !has_home ==> root_of(
            s,
            s.spaces[i].id,
            dir,
            is_vault,
            has_dir,
            home,
            has_home,
        ) is None,
{
    let id = s.spaces[i].id;
    assert forall|j: int| 0 <= j < i implies !space_is(id)(#[trigger] s.spaces[j]) by {
        assert(s.spaces[j].id < s.spaces[i].id);
    }
    lemma_first_where_is(s.spaces, space_is(id), i);
}

/// A person's note is where it says. An agent's is too where it names a folder, and in the agents'
/// folder where it does not.
pub proof fn law_where_a_note_goes(rel: Seq<char>, dir: Seq<char>)
    ensures
        note_place(rel, false, dir) == rel,
        (exists|i: int| 0 <= i < rel.len() && rel[i] == '/') ==> note_place(rel, true, dir) == rel,
        (forall|i: int| 0 <= i < rel.len() ==> rel[i] != '/') ==> note_place(rel, true, dir) == dir
            + seq!['/'] + rel,
{
    reveal_strlit("/");
    assert("/"@ =~= seq!['/']);
    if exists|i: int| 0 <= i < rel.len() && rel[i] == '/' {
        let i = choose|i: int| 0 <= i < rel.len() && rel[i] == '/';
        assert(rel.subrange(i, i + 1) =~= "/"@);
        assert(crate::text::occurs_at(rel, "/"@, i));
    }
    if forall|i: int| 0 <= i < rel.len() ==> rel[i] != '/' {
        if crate::text::occurs(rel, "/"@) {
            let i = choose|i: int| crate::text::occurs_at(rel, "/"@, i);
            assert(rel.subrange(i, i + 1)[0] == "/"@[0]);
            assert(rel[i] == '/');
        }
    }
}

/// What is added to a note stands behind what it holds, with one blank line between.
pub proof fn law_what_is_added_stands_behind(existing: Seq<char>, body: Seq<char>)
    ensures
        appended(existing, body) == trimmed_end(existing) + seq!['\n', '\n'] + trimmed_start(body),
{
    reveal_strlit("\n\n");
    assert("\n\n"@ =~= seq!['\n', '\n']);
}

/// A vault that was made is said to be new, and one that was there is not.
pub proof fn law_a_new_vault_is_said_to_be_new(root: Seq<char>)
    ensures
        init_text(root, true) == "made a vault at "@ + root,
        init_text(root, false) == root + " is already a vault"@,
{
}

/// A project's file is inside it, or there is none.
pub proof fn law_a_projects_file_is_inside_it(s: SessionView, i: int, rel: Seq<char>, other: u64)
    requires
        s.wf(),
        0 <= i < s.spaces.len(),
    ensures
        joined_safely(s.spaces[i].cwd, rel) is Ok ==> file_at(s, s.spaces[i].id, rel) == Ok::<
            _,
            FileError,
        >(joined_safely(s.spaces[i].cwd, rel)->Ok_0),
        joined_safely(s.spaces[i].cwd, rel) is Err ==> file_at(s, s.spaces[i].id, rel) is Err
            && file_at(s, s.spaces[i].id, rel)->Err_0 is Path,
        !s.has_space(other) ==> file_at(s, other, rel) == Err::<Seq<char>, _>(FileError::NoSpace),
{
    let id = s.spaces[i].id;
    assert forall|j: int| 0 <= j < i implies !space_is(id)(#[trigger] s.spaces[j]) by {
        assert(s.spaces[j].id < s.spaces[i].id);
    }
    lemma_first_where_is(s.spaces, space_is(id), i);
}

/// A list shows each note by its file, its title and its tags, with how many notes link to it.
pub proof fn law_a_list_shows_each_note(
    ns: Seq<crate::notes::NoteView>,
    ids: Seq<usize>,
    k: int,
)
    requires
        0 <= k < ids.len(),
    ensures
        lines_for(ns, ids).len() == ids.len(),
        lines_for(ns, ids)[k].path == ns[ids[k] as int].path,
        lines_for(ns, ids)[k].title == ns[ids[k] as int].title,
        lines_for(ns, ids)[k].tags == ns[ids[k] as int].tags,
        lines_for(ns, ids)[k].mtime == ns[ids[k] as int].mtime,
        lines_for(ns, ids)[k].backlinks == linkers(ns, ids[k] as int, ns.len() as int).len(),
{
}

/// A note answers to its file's name, to its title, and to each alias.
pub proof fn law_a_note_answers_to_its_names(n: crate::notes::NoteView, i: int)
    ensures
        names_of(n).contains(n.title),
        names_of(n).contains(n.stem_spec()),
        0 <= i < n.aliases.len() ==> names_of(n).contains(n.aliases[i]),
        names_of(n).len() == 2 + n.aliases.len(),
{
    assert(names_of(n)[0] == n.stem_spec());
    assert(names_of(n)[1] == n.title);
    if 0 <= i < n.aliases.len() {
        assert(names_of(n)[2 + i] == n.aliases[i]);
    }
}

// -- cards -------------------------------------------------------------------

/// A card goes over as its title, and its description where it has one, for its own project.
/// Without the board, a card, or a project nothing goes over; nor does a card that has gone over.
pub proof fn law_a_card_goes_over_for_its_project(
    b: BoardView,
    on: bool,
    number: u64,
    card: Option<Card>,
    now: u64,
)
    ensures
        !on ==> handing(b, on, number, card, now) == (
            b,
            Err::<crate::tasks::TaskView, _>(HandOverError::BoardOff),
        ),
        on && card is None ==> handing(b, on, number, card, now) == (
            b,
            Err::<crate::tasks::TaskView, _>(HandOverError::NoSuch(number)),
        ),
        on && card is Some && card->Some_0.handed is Some ==> handing(b, on, number, card, now) == (
            b,
            Err::<crate::tasks::TaskView, _>(
                HandOverError::Already { card: number, task: card->Some_0.handed->Some_0 },
            ),
        ),
        on && card is Some && card->Some_0.handed is None && card->Some_0.project is None
            ==> handing(b, on, number, card, now) == (
            b,
            Err::<crate::tasks::TaskView, _>(HandOverError::NoProject(number)),
        ),
        on && card is Some && card->Some_0.handed is None && card->Some_0.project is Some ==> {
            let c = card->Some_0;
            let text = if trimmed(c.body@).len() == 0 {
                c.title@
            } else {
                c.title@ + "\n\n"@ + trimmed(c.body@)
            };
            let (after, r) = adding(b, text, "kanban"@, Some(c.project->Some_0@), now);
            &&& handing(b, on, number, card, now).0 == after
            &&& r is Ok ==> handing(b, on, number, card, now).1 == Ok::<_, HandOverError>(r->Ok_0)
            &&& r is Err ==> handing(b, on, number, card, now).1 is Err
        },
{
}

/// A card is due today where it is late, or due in the next twelve hours.
pub proof fn law_a_card_is_due_within_half_a_day(now: u64, due: u64)
    requires
        now + 43_200_000 <= u64::MAX,
    ensures
        is_due(now)(due) <==> due <= now + 12 * 60 * 60 * 1000,
{
}

/// What became of a card that was due is logged.
pub proof fn law_what_became_of_a_card_is_logged(card: u64, task: u64, e: HandOverError)
    ensures
        due_text(card, Ok(task)) == "kanban: card #"@ + decimal(card as nat) + (
        " handed over as task #"@ + decimal(task as nat)),
        due_text(card, Err(e)) == "kanban: card #"@ + decimal(card as nat) + (
        " could not be handed over: "@ + e.text()),
        handed_text(card, task) == "card #"@ + decimal(card as nat)
            + " is on the agents' board as task #"@ + decimal(task as nat),
{
}

// -- what is asked -----------------------------------------------------------

/// What fails is said: a save as an error, and anything else that says so as a warning. A lookup
/// that fails says nothing.
pub proof fn law_a_save_that_fails_is_an_error(a: Ask, e: Seq<char>)
    ensures
        a is SaveNote || a is SaveFile || a is MakeVault ==> complained(a, e) is Some && complained(
            a,
            e,
        )->Some_0.0 == Level::Error,
        a is NewCard || a is EditCard || a is MoveCard || a is Comment || a is Archive || a
            is HandOff || a is ReadFile || a is Attach ==> complained(a, e) is Some && complained(
            a,
            e,
        )->Some_0.0 == Level::Warn,
        a is Notes || a is Board || a is Files ==> complained(a, e) is None,
        a is HandOff ==> complained(a, e)->Some_0.1 == e,
        a matches Ask::SaveFile { path } ==> complained(a, e)->Some_0.1 == "could not save "@ + path@
            + ": "@ + e,
        a matches Ask::ReadFile { path } ==> complained(a, e)->Some_0.1 == "could not open "@ + path@
            + ": "@ + e,
        a is SaveNote ==> complained(a, e)->Some_0.1 == "could not save the note: "@ + e,
{
}

/// Whoever asks about cards is sent the board, whether it went well or not.
pub proof fn law_whoever_asks_about_cards_is_sent_the_board(s: SessionView, a: Ask, w: Went)
    ensures
        a matches Ask::Board { space } ==> answer_to(s, a, w) == Some(
            AnswerView::Board { project: seen_from(s, space) },
        ),
        a matches Ask::NewCard { space } ==> answer_to(s, a, w) == Some(
            AnswerView::Board { project: seen_from(s, space) },
        ),
        a is EditCard || a is MoveCard || a is Comment || a is Archive || a is RenameColumn || a
            is HandOff ==> answer_to(s, a, w) == Some(
            AnswerView::Board { project: seen_from(s, s.focused_space) },
        ),
        a matches Ask::SaveNote { space, path } ==> answer_to(s, a, w) == (if w is Badly {
            None
        } else {
            Some(AnswerView::Note { space, path: path@ })
        }),
        a is ReadFile ==> answer_to(s, a, w) == (if w is Badly {
            None
        } else {
            Some(AnswerView::Files)
        }),
{
}

/// A board is seen from the project that is named, by its name.
pub proof fn law_a_board_is_seen_from_its_project(s: SessionView, i: int)
    requires
        s.wf(),
        0 <= i < s.spaces.len(),
    ensures
        seen_from(s, Some(s.spaces[i].id)) == Some(s.spaces[i].name),
        seen_from(s, None) is None,
{
    let id = s.spaces[i].id;
    assert forall|j: int| 0 <= j < i implies !space_is(id)(#[trigger] s.spaces[j]) by {
        assert(s.spaces[j].id < s.spaces[i].id);
    }
    lemma_first_where_is(s.spaces, space_is(id), i);
}

/// What is said is told once; the session and the board stay; only a window that is there is
/// answered; and a file that was read or saved goes to its server.
pub proof fn law_what_is_said_is_told(e: EngineView, id: u64, a: Ask, w: Went)
    ensures
        ({
            let (t, f) = followed(e, id, a, w);
            &&& said(a, w) is None ==> t.events == e.events
            &&& said(a, w) matches Some(x) ==> t.events == e.events.push(
                EventView::Notice { level: x.0, text: x.1 },
            )
            &&& t.session == e.session && t.board == e.board && t.clients == e.clients
            &&& f.sync <==> (a is ReadFile || a is SaveFile) && !(w is Badly)
            &&& f.refresh <==> a is MakeVault && !(w is Badly)
            &&& (forall|k: int| 0 <= k < e.clients.len() ==> (#[trigger] e.clients[k]).id != id)
                ==> f.answer is None
            &&& a is EditCard || a is MoveCard || a is Comment || a is Archive || a is RenameColumn
                ==> t.dirty_shape
        }),
{
    lemma_first_where(e.clients, crate::engine::client_is(id));
}

// -- documents ---------------------------------------------------------------

/// A document that was opened last at a place is what is open there; every other stays.
pub proof fn law_the_last_to_open_is_what_is_open(v: Seq<OpenDoc>, d: OpenDoc, path: Seq<char>)
    ensures
        called(table(v.push(d)), d.path@) == Some(d.rel@),
        place(path) != place(d.path@) ==> called(table(v.push(d)), path) == called(table(v), path),
        called(table(Seq::empty()), path) is None,
{
    assert(v.push(d).drop_last() =~= v);
    assert(v.push(d).last() == d);
}

/// Diagnostics of a document that is open go to every window; completions go to whoever asked,
/// once.
pub proof fn law_completions_go_to_whoever_asked(
    d: DocsView,
    cs: Seq<ClientView>,
    ev: ServerEvent,
    n: usize,
    k: int,
)
    requires
        0 <= k < cs.len(),
    ensures
        ev matches ServerEvent::Diagnostics { path } ==> (called(d.open, path@) is Some ==> passed_on(
            d,
            cs,
            ev,
            n,
        ) is Some && passed_on(d, cs, ev, n)->Some_0.to.len() == cs.len() && passed_on(
            d,
            cs,
            ev,
            n,
        )->Some_0.to[k] == cs[k].id && passed_on(d, cs, ev, n)->Some_0.rel == called(
            d.open,
            path@,
        )->Some_0 && passed_on(d, cs, ev, n)->Some_0.event == n),
        ev matches ServerEvent::Completions { path } ==> (called(d.open, path@) is Some && d.asked
            == Some(cs[k].id) ==> passed_on(d, cs, ev, n) is Some && passed_on(d, cs, ev, n)->Some_0.to
            == seq![cs[k].id]),
        ev is Completions ==> after_event(d, ev).asked is None && after_event(d, ev).open == d.open,
        !(ev is Completions) ==> after_event(d, ev) == d,
        ev matches ServerEvent::Completions { path } ==> (d.asked is None ==> passed_on(
            d,
            cs,
            ev,
            n,
        ) is None),
{
    if ev is Completions && d.asked == Some(cs[k].id) {
        let p = crate::engine::client_is(cs[k].id);
        lemma_first_where(cs, p);
        assert(p(cs[k]));
    }
}

/// A server that came up is told of as such, and one that died as a warning.
pub proof fn law_a_servers_life_is_told(ev: ServerEvent)
    ensures
        ev matches ServerEvent::Ready { lang } ==> said_of(ev) == Some(
            EventView::Notice { level: Level::Info, text: lang@ + " language server ready"@ },
        ),
        ev matches ServerEvent::Exited { lang, gave_up, why } ==> said_of(ev) is Some && said_of(
            ev,
        )->Some_0 is Notice && said_of(ev)->Some_0->Notice_level == Level::Warn,
        ev is Diagnostics || ev is Completions ==> said_of(ev) is None,
{
}

// -- reading -----------------------------------------------------------------

/// What is wrong with a configuration is said, each thing once, and its panels are shown.
pub proof fn law_what_is_wrong_with_a_configuration_is_said(
    e: EngineView,
    ws: Seq<Seq<char>>,
    n: int,
    i: int,
)
    requires
        0 <= i < n <= ws.len(),
    ensures
        complained_of(e, ws, n).events.len() == e.events.len() + n,
        complained_of(e, ws, n).events[e.events.len() + i] == (EventView::Notice {
            level: Level::Warn,
            text: "config: "@ + ws[i],
        }),
        complained_of(e, ws, n).session == e.session,
        complained_of(e, ws, n).repaint == e.repaint,
    decreases n,
{
    if i < n - 1 {
        law_what_is_wrong_with_a_configuration_is_said(e, ws, n - 1, i);
    } else if n > 1 {
        law_what_is_wrong_with_a_configuration_is_said(e, ws, n - 1, 0);
    } else {
        assert(complained_of(e, ws, 0) == e);
    }
}

/// Fifty lines are read unless another number is asked for, of what is visible unless otherwise.
pub proof fn law_fifty_lines_are_read(q: RequestView)
    ensures
        q.whole("lines"@) is None ==> lines_wanted(q) == 50,
        q.whole("lines"@) is Some && q.whole("lines"@)->Some_0 <= 0xffff_ffff ==> lines_wanted(q)
            == q.whole("lines"@)->Some_0,
        q.text("source"@) is None ==> source_wanted(q) == "visible"@,
        q.text("source"@) is Some ==> source_wanted(q) == q.text("source"@)->Some_0,
{
}

/// A digest begins so many seconds ago, or where the last one ended, or at the start; and the next
/// begins now, unless the reader only looks.
pub proof fn law_where_a_digest_begins(e: EngineView, q: RequestView, now: u64)
    ensures
        q.whole("since"@) is None && e.last_seen == 0 ==> digesting(e, q, now).1 == e.started,
        q.whole("since"@) is None && e.last_seen != 0 ==> digesting(e, q, now).1 == e.last_seen,
        q.whole("since"@) is Some && q.whole("since"@)->Some_0 * 1000 < now ==> digesting(
            e,
            q,
            now,
        ).1 == now - q.whole("since"@)->Some_0 * 1000,
        q.whole("since"@) is Some && q.whole("since"@)->Some_0 * 1000 >= now ==> digesting(
            e,
            q,
            now,
        ).1 == 0,
        q.flag("keep"@) == Some(true) ==> digesting(e, q, now).0 == e,
        q.flag("keep"@) != Some(true) ==> digesting(e, q, now).0.last_seen == now && digesting(
            e,
            q,
            now,
        ).0.session == e.session,
{
}

/// Events are taken one after the other.
pub proof fn law_events_are_taken_in_order(d: DocsView, evs: Seq<ServerEvent>, n: int)
    requires
        0 < n <= evs.len(),
    ensures
        after_events(d, evs, 0) == d,
        after_events(d, evs, n) == after_event(after_events(d, evs, n - 1), evs[n - 1]),
        after_events(d, evs, n).open == d.open,
        evs[n - 1] is Completions ==> after_events(d, evs, n).asked is None,
        d.asked is None ==> after_events(d, evs, n).asked is None,
    decreases n,
{
    if n > 1 {
        law_events_are_taken_in_order(d, evs, n - 1);
    }
}

} // verus!
