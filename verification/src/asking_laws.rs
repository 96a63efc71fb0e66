//! What a request means, and what a successor takes over.

use crate::commands::Cmd;
use crate::handoff::{adopted, HPane, Manifest};
use crate::import::{
    import_start, leaf_in, with_bare_space, with_empty_tab, with_front_tab, ImportError, ImportView,
};
use crate::paths::{climbs, descend, join_path};
use crate::proto::{AgentState, Dir, Rect};
use crate::rpc::{
    caller_space_of, command_called, init_root_of, note_in, origin_of, pane_meant, pane_named_by,
    question_in, space_meant, trigger_meant, vault_space_meant, Code, FaultView, QuestionView,
    RequestView, no_space_text,
};
use crate::seqs::lemma_first_where_is;
use crate::state::{pane_is, space_is, unique_name, EffectView, SessionView};
use crate::text::{opt_text, quoted};
use vstd::prelude::*;

verus! {

// -- what is meant -----------------------------------------------------------

/// A pane that is named is meant, and otherwise the one in front.
pub proof fn law_the_pane_in_front_is_meant_unless_named(
    q: RequestView,
    s: SessionView,
    ks: Seq<(Seq<char>, u64)>,
    key: Seq<char>,
)
    ensures
        pane_named_by(q, ks, key) is Some ==> pane_meant(q, s, ks, key) == pane_named_by(q, ks, key),
        pane_named_by(q, ks, key) is None ==> pane_meant(q, s, ks, key) == s.front_pane(),
{
}

/// A call is about the project of the pane that it came from, and about that pane's directory.
pub proof fn law_a_call_is_about_the_callers_project(
    q: RequestView,
    s: SessionView,
    ks: Seq<(Seq<char>, u64)>,
    i: int,
    k: int,
)
    requires
        s.wf(),
        0 <= i < s.panes.len(),
        0 <= k < s.spaces.len(),
        s.panes[i].space == s.spaces[k].id,
        pane_meant(q, s, ks, "from"@) == Some(s.panes[i].id),
    ensures
        caller_space_of(q, s, ks) == Some(s.spaces[k].name),
        origin_of(q, s, ks) == Ok::<_, FaultView>(s.panes[i].cwd),
{
    let id = s.panes[i].id;
    assert forall|j: int| 0 <= j < i implies !pane_is(id)(#[trigger] s.panes[j]) by {
        assert(s.panes[j].id < s.panes[i].id);
    }
    lemma_first_where_is(s.panes, pane_is(id), i);
    let sp = s.spaces[k].id;
    assert forall|j: int| 0 <= j < k implies !space_is(sp)(#[trigger] s.spaces[j]) by {
        assert(s.spaces[j].id < s.spaces[k].id);
    }
    lemma_first_where_is(s.spaces, space_is(sp), k);
}

/// A space is meant by its name, else by its number, else it is the one in front.
pub proof fn law_a_space_is_meant_by_name_first(q: RequestView, s: SessionView)
    ensures
        q.text("name"@) is None && q.whole("space"@) is Some ==> space_meant(q, s) == Ok::<
            _,
            FaultView,
        >(q.whole("space"@)->Some_0),
        q.text("name"@) is None && q.whole("space"@) is None && s.focused_space is Some
            ==> space_meant(q, s) == Ok::<_, FaultView>(s.focused_space->Some_0),
        q.text("name"@) is None && q.whole("space"@) is None && s.focused_space is None
            ==> space_meant(q, s) is Err && space_meant(q, s)->Err_0.code == Code::BadRequest,
        q.text("name"@) is Some ==> space_meant(q, s) == crate::rpc::space_called(
            s,
            q.text("name"@)->Some_0,
        ),
        q.text("space"@) is None && s.focused_space is Some ==> vault_space_meant(q, s) == Ok::<
            _,
            FaultView,
        >(s.focused_space->Some_0),
        q.text("space"@) is Some ==> vault_space_meant(q, s) == crate::rpc::space_called(
            s,
            q.text("space"@)->Some_0,
        ),
        q.whole("trigger"@) is Some ==> trigger_meant(q) == Ok::<_, FaultView>(
            q.whole("trigger"@)->Some_0,
        ),
        q.whole("trigger"@) is None ==> trigger_meant(q) is Err,
{
}

/// A search searches for what it was given, a reading reads the note it names, and anything else
/// lists.
pub proof fn law_what_is_asked_of_a_vault(q: RequestView)
    ensures
        q.method == "vault.search"@ && q.text("q"@) is Some ==> question_in(q) == Ok::<
            _,
            FaultView,
        >(QuestionView::Search(q.text("q"@)->Some_0)),
        q.method == "vault.search"@ && q.text("q"@) is None ==> question_in(q) is Err,
        q.method == "vault.read"@ && q.text("path"@) is Some ==> question_in(q) == Ok::<
            _,
            FaultView,
        >(QuestionView::Note(q.text("path"@)->Some_0)),
        q.method == "vault.read"@ && q.text("path"@) is None ==> question_in(q) is Err,
        q.method == "vault.list"@ ==> question_in(q) == Ok::<_, FaultView>(QuestionView::List),
{
    reveal_strlit("vault.search");
    reveal_strlit("vault.read");
    reveal_strlit("vault.list");
    assert("vault.search"@.len() == 12);
    assert("vault.read"@.len() == 10 && "vault.read"@[6] == 'r');
    assert("vault.list"@.len() == 10 && "vault.list"@[6] == 'l');
}

/// A note that is written goes where it says, or where its title would have it, with its body as it
/// is, signed by whoever the request names or else by the caller.
pub proof fn law_a_note_is_written_as_asked(
    q: RequestView,
    s: SessionView,
    titled: Seq<char>,
    caller: Option<Seq<char>>,
)
    ensures
        q.text("path"@) is None && q.text("title"@) is None ==> note_in(q, s, titled, caller) is Err,
        q.text("body"@) is None ==> note_in(q, s, titled, caller) is Err,
        vault_space_meant(q, s) is Err ==> note_in(q, s, titled, caller) is Err,
        note_in(q, s, titled, caller) matches Ok(n) ==> {
            &&& n.body == q.text("body"@)->Some_0
            &&& q.text("path"@) is Some ==> n.path == q.text("path"@)->Some_0
            &&& q.text("path"@) is None ==> n.path == titled
            &&& q.text("by"@) is Some ==> n.by == q.text("by"@)
            &&& q.text("by"@) is None ==> n.by == caller
            &&& n.append == (q.flag("append"@) == Some(true))
            &&& Ok::<_, FaultView>(n.space) == vault_space_meant(q, s)
        },
        (q.text("path"@) is Some || q.text("title"@) is Some) && q.text("body"@) is Some
            && vault_space_meant(q, s) is Ok ==> note_in(q, s, titled, caller) is Ok,
{
}

/// A vault is made where it was asked for, or where the project in front would have one.
pub proof fn law_where_a_vault_is_made(
    q: RequestView,
    s: SessionView,
    dir: Seq<char>,
    home: Seq<char>,
    i: int,
)
    requires
        s.wf(),
        0 <= i < s.spaces.len(),
        s.focused_space == Some(s.spaces[i].id),
    ensures
        q.text("path"@) is Some ==> init_root_of(q, s, dir, home) == Ok::<_, FaultView>(
            q.text("path"@)->Some_0,
        ),
        q.text("path"@) is None ==> init_root_of(q, s, dir, home) == Ok::<_, FaultView>(
            join_path(s.spaces[i].cwd, dir),
        ),
{
    let id = s.spaces[i].id;
    assert forall|j: int| 0 <= j < i implies !space_is(id)(#[trigger] s.spaces[j]) by {
        assert(s.spaces[j].id < s.spaces[i].id);
    }
    lemma_first_where_is(s.spaces, space_is(id), i);
}

/// A command goes by its name.
pub proof fn law_a_command_goes_by_its_name(q: RequestView)
    ensures
        command_called("split-right"@, q) == Some(Cmd::SplitRight),
        command_called("split-down"@, q) == Some(Cmd::SplitDown),
        command_called("close-pane"@, q) == Some(Cmd::ClosePane),
        command_called("zoom"@, q) == Some(Cmd::ToggleZoom),
        command_called("focus-left"@, q) == Some(Cmd::FocusDir(Dir::Left)),
        command_called("focus-right"@, q) == Some(Cmd::FocusDir(Dir::Right)),
        command_called("focus-up"@, q) == Some(Cmd::FocusDir(Dir::Up)),
        command_called("focus-down"@, q) == Some(Cmd::FocusDir(Dir::Down)),
        command_called("new-tab"@, q) == Some(Cmd::NewTab),
        command_called("next-tab"@, q) == Some(Cmd::NextTab),
        command_called("prev-tab"@, q) == Some(Cmd::PrevTab),
        command_called("close-tab"@, q) == Some(Cmd::CloseTab),
        command_called("next-space"@, q) == Some(Cmd::NextSpace),
        command_called("prev-space"@, q) == Some(Cmd::PrevSpace),
        command_called("toggle-sidebar"@, q) == Some(Cmd::ToggleSidebar),
        command_called("toggle-bus"@, q) == Some(Cmd::ToggleBus),
        command_called("jump-attention"@, q) == Some(Cmd::JumpAttention),
        command_called("redraw"@, q) == Some(Cmd::Redraw),
        command_called("digest"@, q) == Some(Cmd::RequestDigest),
{
    reveal_strlit("split-right");
    assert("split-right"@.len() == 11 && "split-right"@[0] == 's' && "split-right"@[6] == 'r');
    reveal_strlit("split-down");
    assert("split-down"@.len() == 10 && "split-down"@[0] == 's' && "split-down"@[6] == 'd');
    reveal_strlit("close-pane");
    assert("close-pane"@.len() == 10 && "close-pane"@[0] == 'c' && "close-pane"@[6] == 'p');
    reveal_strlit("zoom");
    assert("zoom"@.len() == 4);
    reveal_strlit("focus-left");
    assert("focus-left"@.len() == 10 && "focus-left"@[0] == 'f' && "focus-left"@[6] == 'l');
    reveal_strlit("focus-right");
    assert("focus-right"@.len() == 11 && "focus-right"@[0] == 'f' && "focus-right"@[6] == 'r');
    reveal_strlit("focus-up");
    assert("focus-up"@.len() == 8 && "focus-up"@[0] == 'f' && "focus-up"@[6] == 'u');
    reveal_strlit("focus-down");
    assert("focus-down"@.len() == 10 && "focus-down"@[0] == 'f' && "focus-down"@[6] == 'd');
    reveal_strlit("new-tab");
    assert("new-tab"@.len() == 7);
    reveal_strlit("next-tab");
    assert("next-tab"@.len() == 8 && "next-tab"@[0] == 'n' && "next-tab"@[6] == 'a');
    reveal_strlit("prev-tab");
    assert("prev-tab"@.len() == 8 && "prev-tab"@[0] == 'p' && "prev-tab"@[6] == 'a');
    reveal_strlit("close-tab");
    assert("close-tab"@.len() == 9);
    reveal_strlit("next-space");
    assert("next-space"@.len() == 10 && "next-space"@[0] == 'n' && "next-space"@[6] == 'p');
    reveal_strlit("prev-space");
    assert("prev-space"@.len() == 10 && "prev-space"@[0] == 'p' && "prev-space"@[6] == 'p');
    reveal_strlit("toggle-sidebar");
    assert("toggle-sidebar"@.len() == 14 && "toggle-sidebar"@[0] == 't' && "toggle-sidebar"@[6] == '-');
    reveal_strlit("toggle-bus");
    assert("toggle-bus"@.len() == 10 && "toggle-bus"@[0] == 't' && "toggle-bus"@[6] == '-');
    reveal_strlit("jump-attention");
    assert("jump-attention"@.len() == 14 && "jump-attention"@[0] == 'j' && "jump-attention"@[6] == 't');
    reveal_strlit("redraw");
    assert("redraw"@.len() == 6 && "redraw"@[0] == 'r');
    reveal_strlit("digest");
    assert("digest"@.len() == 6 && "digest"@[0] == 'd');
}

// -- paths -------------------------------------------------------------------

/// A path leads down part by part: what names nothing is passed over, and an absolute path and one
/// that climbs lead nowhere.
pub proof fn law_a_path_leads_down_part_by_part(
    root: Seq<char>,
    parts: Seq<Seq<char>>,
    part: Seq<char>,
)
    ensures
        descend(root, Seq::empty()) == root,
        part.len() == 0 || part == "."@ ==> descend(root, parts.push(part)) == descend(root, parts),
        part.len() > 0 && part != "."@ ==> descend(root, parts.push(part)) == join_path(
            descend(root, parts),
            part,
        ),
{
    assert(parts.push(part).drop_last() =~= parts);
    assert(parts.push(part).last() == part);
}

// -- the screen --------------------------------------------------------------

/// A border takes one cell on each side.
pub proof fn law_a_border_takes_a_cell_on_each_side(r: Rect)
    requires
        r.w >= 2,
        r.h >= 2,
        r.x + r.w < 0x1_0000,
        r.y + r.h < 0x1_0000,
    ensures
        r.inside().x == r.x + 1,
        r.inside().y == r.y + 1,
        r.inside().w == r.w - 2,
        r.inside().h == r.h - 2,
        r.covers(r.inside()),
{
}

/// A person should look at an agent that is blocked or done, and at no other.
pub proof fn law_when_a_person_should_look()
    ensures
        AgentState::Blocked.wants_you(),
        AgentState::Done.wants_you(),
        !AgentState::Working.wants_you(),
        !AgentState::Idle.wants_you(),
{
}

// -- taking over -------------------------------------------------------------

/// A pane that is taken over is the one that was handed over, under a new number and in its tab,
/// and its terminal is used once.
pub proof fn law_a_pane_is_taken_over_as_it_was(
    st: ImportView,
    panes: Seq<HPane>,
    space: u64,
    tab: u64,
    mi: usize,
    now: u64,
)
    requires
        st.err is None,
        st.ids.len() == panes.len(),
    ensures
        ({
            let t = leaf_in(st, panes, space, tab, mi, now);
            let h = panes[mi as int];
            &&& mi >= panes.len() ==> t.err == Some(ImportError::NotInManifest(mi)) && t.s == st.s
            &&& mi < panes.len() && (mi >= st.free.len() || !st.free[mi as int]) ==> t.err == Some(
                ImportError::NoDescriptor(mi),
            ) && t.s == st.s
            &&& mi < panes.len() && mi < st.free.len() && st.free[mi as int] && st.s.next_pane
                < u64::MAX ==> {
                let p = t.s.panes.last();
                &&& t.err is None
                &&& t.s.panes.len() == st.s.panes.len() + 1
                &&& p.id == st.s.next_pane && p.tab == tab && p.space == space && p.cmd == h.cmd@
                    && p.cwd == h.cwd@ && p.name == opt_text(h.name) && p.life == adopted(h, now)
                &&& t.ids[mi as int] == Some(st.s.next_pane)
                &&& !t.free[mi as int]
                &&& t.s.effects == st.s.effects.push(
                    EffectView::Adopt { pane: st.s.next_pane, index: mi },
                )
            }
        }),
{
}

/// A takeover begins with the view and the size there were, and no pane adopted.
pub proof fn law_a_takeover_begins_as_things_were(s: SessionView, m: Manifest, fds: nat, i: int)
    ensures
        ({
            let t = import_start(s, m, fds);
            &&& t.s.view == m.view && t.s.client_cols == m.client_cols && t.s.client_rows
                == m.client_rows
            &&& t.s.panes == s.panes && t.s.spaces == s.spaces && t.err is None
            &&& t.ids.len() == m.panes@.len() && t.free.len() == fds
            &&& 0 <= i < m.panes@.len() ==> t.ids[i] is None
            &&& 0 <= i < fds ==> t.free[i]
        }),
{
}

/// A space that is taken over has its name, unless another has it, and its directory; it has no
/// tabs yet. A tab comes behind those of its space.
pub proof fn law_spaces_and_tabs_are_taken_over_in_order(
    s: SessionView,
    name: Seq<char>,
    cwd: Seq<char>,
    i: int,
)
    requires
        s.wf(),
        0 <= i < s.spaces.len(),
        s.next_space < u64::MAX,
        s.next_tab < u64::MAX,
    ensures
        ({
            let t = with_bare_space(s, name, cwd);
            let u = with_empty_tab(s, s.spaces[i].id, name);
            &&& t.spaces.len() == s.spaces.len() + 1
            &&& t.spaces.last().id == s.next_space && t.spaces.last().cwd == cwd
                && t.spaces.last().name == unique_name(s.spaces, name) && t.spaces.last().tabs.len()
                == 0
            &&& t.next_space == s.next_space + 1 && t.focused_space == s.focused_space
            &&& u.tabs.len() == s.tabs.len() + 1
            &&& u.tabs.last().id == s.next_tab && u.tabs.last().name == name && u.tabs.last().space
                == s.spaces[i].id
            &&& u.spaces[i].tabs == s.spaces[i].tabs.push(s.next_tab)
            &&& u.next_tab == s.next_tab + 1
            &&& forall|j: int|
                0 <= j < s.spaces.len() && j != i ==> #[trigger] u.spaces[j] == s.spaces[j]
        }),
{
    let id = s.spaces[i].id;
    assert forall|j: int| 0 <= j < i implies !space_is(id)(#[trigger] s.spaces[j]) by {
        assert(s.spaces[j].id < s.spaces[i].id);
    }
    lemma_first_where_is(s.spaces, space_is(id), i);
}

/// The tab that was in front is again, and the first where that is not known.
pub proof fn law_the_tab_that_was_in_front_is_again(s: SessionView, i: int, at: Option<usize>)
    requires
        s.wf(),
        0 <= i < s.spaces.len(),
    ensures
        ({
            let tabs = s.spaces[i].tabs;
            let t = with_front_tab(s, s.spaces[i].id, at);
            &&& at is Some && (at->Some_0 as int) < tabs.len() ==> t.spaces[i].focused_tab == Some(
                tabs[at->Some_0 as int],
            )
            &&& at is None && tabs.len() > 0 ==> t.spaces[i].focused_tab == Some(tabs[0])
            &&& tabs.len() == 0 ==> t.spaces[i].focused_tab is None
            &&& t.spaces[i].tabs == tabs && t.spaces[i].name == s.spaces[i].name
        }),
{
    let id = s.spaces[i].id;
    assert forall|j: int| 0 <= j < i implies !space_is(id)(#[trigger] s.spaces[j]) by {
        assert(s.spaces[j].id < s.spaces[i].id);
    }
    lemma_first_where_is(s.spaces, space_is(id), i);
}

/// A space that is not there is named in what is said.
pub proof fn law_a_space_that_is_not_there_is_named(name: Seq<char>)
    ensures
        no_space_text(name) == "no space called "@ + quoted(name),
{
}

} // verus!
