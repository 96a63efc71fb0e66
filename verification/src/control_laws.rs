//! What a request comes to.

use crate::control::{
    answered, answered_session, answered_work, command_running, enlisted, enlisting,
    layout_applying, listed_for, may_add, pane_closing, pane_focusing, pane_renaming,
    pane_scrolling, pane_splitting, pane_typing, pinning, role_setting, roles_answered, scope_of,
    space_accenting, space_closing, space_collapsing, space_creating, space_focusing,
    space_renaming, tab_closing, tab_creating, tab_renaming, task_adding, task_claiming,
    task_finishing, task_releasing, tasks_clearing, tasks_listing, topic_of, trigger_adding,
    trigger_removing, trigger_switching, triggers_listing, what_of, when_of, Context, ReplyView,
    Rules, Topic,
};
use crate::engine::EngineView;
use crate::fleet::role_lines;
use crate::rpc::{
    caller_space_of, known_views, pane_meant, pane_named_by, space_called, Code, FaultView,
    RequestView, space_meant,
};
use crate::schedule::{at_in, days_in, every_in};
use crate::seqs::{
    lemma_first_where, lemma_first_where_is, lemma_pick_complete, lemma_pick_sound, pick,
};
use crate::state::{
    named, pane_is, space_closed, space_focused, tab_closed, with_space, SessionView,
};
use crate::tasks::{adding, claiming, finishing, releasing, TaskView};
use crate::text::{opt_text, texts, begins};
use crate::triggers::{living, TriggerView, WhatView};
use crate::commands::look_of;
use vstd::prelude::*;

verus! {

/// A request about spaces, tabs and panes is answered as its method says.
pub proof fn law_a_request_about_panes_is_answered_as_it_says(
    e: EngineView,
    q: RequestView,
    rules: Rules,
    ctx: Context,
)
    ensures
        q.method == "space.create"@ ==> answered_session(e, q, rules, ctx) == Some(space_creating(e, q, rules, ctx)),
        q.method == "space.focus"@ ==> answered_session(e, q, rules, ctx) == Some(space_focusing(e, q)),
        q.method == "space.close"@ ==> answered_session(e, q, rules, ctx) == Some(space_closing(e, q, rules)),
        q.method == "space.rename"@ ==> answered_session(e, q, rules, ctx) == Some(space_renaming(e, q)),
        q.method == "space.accent"@ ==> answered_session(e, q, rules, ctx) == Some(space_accenting(e, q, ctx)),
        q.method == "space.collapse"@ ==> answered_session(e, q, rules, ctx) == Some(space_collapsing(e, q)),
        q.method == "tab.create"@ ==> answered_session(e, q, rules, ctx) == Some(tab_creating(e, q, rules)),
        q.method == "tab.close"@ ==> answered_session(e, q, rules, ctx) == Some(tab_closing(e, rules)),
        q.method == "tab.rename"@ ==> answered_session(e, q, rules, ctx) == Some(tab_renaming(e, q)),
        q.method == "pane.split"@ ==> answered_session(e, q, rules, ctx) == Some(pane_splitting(e, q, rules, ctx)),
        q.method == "pane.close"@ ==> answered_session(e, q, rules, ctx) == Some(pane_closing(e, q, rules, ctx)),
        q.method == "pane.focus"@ ==> answered_session(e, q, rules, ctx) == Some(pane_focusing(e, q, ctx)),
        q.method == "pane.rename"@ ==> answered_session(e, q, rules, ctx) == Some(pane_renaming(e, q, ctx)),
        q.method == "pane.send_text"@ ==> answered_session(e, q, rules, ctx) == Some(pane_typing(e, q, ctx)),
        q.method == "pane.send-text"@ ==> answered_session(e, q, rules, ctx) == Some(pane_typing(e, q, ctx)),
        q.method == "pane.scroll"@ ==> answered_session(e, q, rules, ctx) == Some(pane_scrolling(e, q, ctx)),
        q.method == "layout.apply"@ ==> answered_session(e, q, rules, ctx) == Some(layout_applying(e, q, rules, ctx)),
        q.method == "command"@ ==> answered_session(e, q, rules, ctx) == Some(command_running(e, q, rules, ctx)),
        q.method == "pane.current"@ ==> answered_session(e, q, rules, ctx) == Some(
            (e, Ok::<_, FaultView>(ReplyView::Current(e.session.front_pane()))),
        ),
{
    reveal_strlit("space.create");
    assert("space.create"@.len() == 12 && "space.create"@[6] == 'c' && "space.create"@[9] == 'a');
    reveal_strlit("space.focus");
    assert("space.focus"@.len() == 11 && "space.focus"@[6] == 'f' && "space.focus"@[9] == 'u');
    reveal_strlit("space.close");
    assert("space.close"@.len() == 11 && "space.close"@[6] == 'c' && "space.close"@[9] == 's');
    reveal_strlit("space.rename");
    assert("space.rename"@.len() == 12 && "space.rename"@[6] == 'r' && "space.rename"@[9] == 'a');
    reveal_strlit("space.accent");
    assert("space.accent"@.len() == 12 && "space.accent"@[6] == 'a' && "space.accent"@[9] == 'e');
    reveal_strlit("space.collapse");
    assert("space.collapse"@.len() == 14 && "space.collapse"@[6] == 'c' && "space.collapse"@[9] == 'l');
    reveal_strlit("tab.create");
    assert("tab.create"@.len() == 10 && "tab.create"@[6] == 'e' && "tab.create"@[9] == 'e');
    reveal_strlit("tab.close");
    assert("tab.close"@.len() == 9);
    reveal_strlit("tab.rename");
    assert("tab.rename"@.len() == 10 && "tab.rename"@[6] == 'n' && "tab.rename"@[9] == 'e');
    reveal_strlit("pane.split");
    assert("pane.split"@.len() == 10 && "pane.split"@[6] == 'p' && "pane.split"@[9] == 't');
    reveal_strlit("pane.close");
    assert("pane.close"@.len() == 10 && "pane.close"@[6] == 'l' && "pane.close"@[9] == 'e');
    reveal_strlit("pane.focus");
    assert("pane.focus"@.len() == 10 && "pane.focus"@[6] == 'o' && "pane.focus"@[9] == 's');
    reveal_strlit("pane.rename");
    assert("pane.rename"@.len() == 11 && "pane.rename"@[6] == 'e' && "pane.rename"@[9] == 'm');
    reveal_strlit("pane.send_text");
    assert("pane.send_text"@.len() == 14 && "pane.send_text"@[6] == 'e' && "pane.send_text"@[9] == '_');
    reveal_strlit("pane.send-text");
    assert("pane.send-text"@.len() == 14 && "pane.send-text"@[6] == 'e' && "pane.send-text"@[9] == '-');
    reveal_strlit("pane.scroll");
    assert("pane.scroll"@.len() == 11 && "pane.scroll"@[6] == 'c' && "pane.scroll"@[9] == 'l');
    reveal_strlit("layout.apply");
    assert("layout.apply"@.len() == 12 && "layout.apply"@[6] == '.' && "layout.apply"@[9] == 'p');
    reveal_strlit("command");
    assert("command"@.len() == 7);
    reveal_strlit("pane.current");
    assert("pane.current"@.len() == 12 && "pane.current"@[6] == 'u' && "pane.current"@[9] == 'e');
}

/// A request about work and rules is answered as its method says.
pub proof fn law_a_request_about_work_is_answered_as_it_says(
    e: EngineView,
    q: RequestView,
    rules: Rules,
    ctx: Context,
)
    ensures
        q.method == "task.add"@ ==> answered_work(e, q, rules, ctx) == Some(task_adding(e, q, rules, ctx)),
        q.method == "task.roles"@ ==> answered_work(e, q, rules, ctx) == Some(roles_answered(e, q, ctx)),
        q.method == "task.clear"@ ==> answered_work(e, q, rules, ctx) == Some(tasks_clearing(e, q, ctx)),
        q.method == "task.work"@ ==> answered_work(e, q, rules, ctx) == Some(enlisting(e, q, ctx)),
        q.method == "pane.role"@ ==> answered_work(e, q, rules, ctx) == Some(role_setting(e, q, ctx)),
        q.method == "pane.pin"@ ==> answered_work(e, q, rules, ctx) == Some(pinning(e, q, ctx)),
        q.method == "task.claim"@ ==> answered_work(e, q, rules, ctx) == Some(task_claiming(e, q, ctx)),
        q.method == "task.done"@ ==> answered_work(e, q, rules, ctx) == Some(task_finishing(e, q, ctx)),
        q.method == "task.release"@ ==> answered_work(e, q, rules, ctx) == Some(task_releasing(e, q, ctx)),
        q.method == "task.list"@ ==> answered_work(e, q, rules, ctx) == Some(tasks_listing(e, q, ctx)),
        q.method == "trigger.add"@ ==> answered_work(e, q, rules, ctx) == Some(trigger_adding(e, q, rules, ctx)),
        q.method == "trigger.list"@ ==> answered_work(e, q, rules, ctx) == Some(triggers_listing(e, rules)),
        q.method == "trigger.rm"@ ==> answered_work(e, q, rules, ctx) == Some(trigger_removing(e, q)),
        q.method == "trigger.enable"@ ==> answered_work(e, q, rules, ctx) == Some(trigger_switching(e, q)),
        q.method == "role.list"@ ==> answered_work(e, q, rules, ctx) == Some(
            (
                e,
                Ok::<_, FaultView>(
                    ReplyView::RoleList(role_lines(e.session, texts(rules.roles@))),
                ),
            ),
        ),
{
    reveal_strlit("task.add");
    assert("task.add"@.len() == 8 && "task.add"@[0] == 't' && "task.add"@[7] == 'd');
    reveal_strlit("task.roles");
    assert("task.roles"@.len() == 10 && "task.roles"@[0] == 't' && "task.roles"@[7] == 'l');
    reveal_strlit("task.clear");
    assert("task.clear"@.len() == 10 && "task.clear"@[0] == 't' && "task.clear"@[7] == 'e');
    reveal_strlit("task.work");
    assert("task.work"@.len() == 9 && "task.work"@[0] == 't' && "task.work"@[7] == 'r');
    reveal_strlit("pane.role");
    assert("pane.role"@.len() == 9 && "pane.role"@[0] == 'p' && "pane.role"@[7] == 'l');
    reveal_strlit("pane.pin");
    assert("pane.pin"@.len() == 8 && "pane.pin"@[0] == 'p' && "pane.pin"@[7] == 'n');
    reveal_strlit("task.claim");
    assert("task.claim"@.len() == 10 && "task.claim"@[0] == 't' && "task.claim"@[7] == 'a');
    reveal_strlit("task.done");
    assert("task.done"@.len() == 9 && "task.done"@[0] == 't' && "task.done"@[7] == 'n');
    reveal_strlit("task.release");
    assert("task.release"@.len() == 12 && "task.release"@[0] == 't' && "task.release"@[7] == 'l');
    reveal_strlit("task.list");
    assert("task.list"@.len() == 9 && "task.list"@[0] == 't' && "task.list"@[7] == 's');
    reveal_strlit("trigger.add");
    assert("trigger.add"@.len() == 11);
    reveal_strlit("trigger.list");
    assert("trigger.list"@.len() == 12 && "trigger.list"@[0] == 't' && "trigger.list"@[7] == '.');
    reveal_strlit("trigger.rm");
    assert("trigger.rm"@.len() == 10 && "trigger.rm"@[0] == 't' && "trigger.rm"@[7] == '.');
    reveal_strlit("trigger.enable");
    assert("trigger.enable"@.len() == 14);
    reveal_strlit("role.list");
    assert("role.list"@.len() == 9 && "role.list"@[0] == 'r' && "role.list"@[7] == 's');
}

/// What else there is to ask goes by its method.
pub proof fn law_what_else_there_is_to_ask()
    ensures
        topic_of("server.reload_config"@) == Some(Topic::Server),
        topic_of("server.status"@) == Some(Topic::Server),
        topic_of("session.snapshot"@) == Some(Topic::Listing),
        topic_of("space.list"@) == Some(Topic::Listing),
        topic_of("tab.list"@) == Some(Topic::Listing),
        topic_of("pane.list"@) == Some(Topic::Listing),
        topic_of("pane.read"@) == Some(Topic::Screen),
        topic_of("pane.report_agent"@) == Some(Topic::Report),
        topic_of("pane.report-agent"@) == Some(Topic::Report),
        topic_of("agent.list"@) == Some(Topic::Agents),
        topic_of("roster"@) == Some(Topic::Agents),
        topic_of("agent.explain"@) == Some(Topic::Agents),
        topic_of("agent.spawn"@) == Some(Topic::Spawn),
        topic_of("worktree.list"@) == Some(Topic::Worktree),
        topic_of("worktree.remove"@) == Some(Topic::Worktree),
        topic_of("bus.send"@) == Some(Topic::Bus),
        topic_of("bus.reply"@) == Some(Topic::Bus),
        topic_of("bus.reply_for"@) == Some(Topic::Bus),
        topic_of("bus.broadcast"@) == Some(Topic::Bus),
        topic_of("bus.tail"@) == Some(Topic::Bus),
        topic_of("trigger.fire"@) == Some(Topic::Fire),
        topic_of("vault.list"@) == Some(Topic::Vault),
        topic_of("vault.search"@) == Some(Topic::Vault),
        topic_of("vault.read"@) == Some(Topic::Vault),
        topic_of("vault.init"@) == Some(Topic::Vault),
        topic_of("vault.write"@) == Some(Topic::Vault),
        topic_of("digest"@) == Some(Topic::Digest),
{
    reveal_strlit("server.reload_config");
    assert("server.reload_config"@.len() == 20);
    reveal_strlit("server.status");
    assert("server.status"@.len() == 13 && "server.status"@[0] == 's' && "server.status"@[7] == 's' && "server.status"@[11] == 'u');
    reveal_strlit("session.snapshot");
    assert("session.snapshot"@.len() == 16);
    reveal_strlit("space.list");
    assert("space.list"@.len() == 10 && "space.list"@[0] == 's' && "space.list"@[7] == 'i');
    reveal_strlit("tab.list");
    assert("tab.list"@.len() == 8 && "tab.list"@[0] == 't' && "tab.list"@[7] == 't');
    reveal_strlit("pane.list");
    assert("pane.list"@.len() == 9 && "pane.list"@[0] == 'p' && "pane.list"@[7] == 's');
    reveal_strlit("pane.read");
    assert("pane.read"@.len() == 9 && "pane.read"@[0] == 'p' && "pane.read"@[7] == 'a');
    reveal_strlit("pane.report_agent");
    assert("pane.report_agent"@.len() == 17 && "pane.report_agent"@[0] == 'p' && "pane.report_agent"@[7] == 'p' && "pane.report_agent"@[11] == '_');
    reveal_strlit("pane.report-agent");
    assert("pane.report-agent"@.len() == 17 && "pane.report-agent"@[0] == 'p' && "pane.report-agent"@[7] == 'p' && "pane.report-agent"@[11] == '-');
    reveal_strlit("agent.list");
    assert("agent.list"@.len() == 10 && "agent.list"@[0] == 'a' && "agent.list"@[7] == 'i');
    reveal_strlit("roster");
    assert("roster"@.len() == 6 && "roster"@[0] == 'r');
    reveal_strlit("agent.explain");
    assert("agent.explain"@.len() == 13 && "agent.explain"@[0] == 'a' && "agent.explain"@[7] == 'x' && "agent.explain"@[11] == 'i');
    reveal_strlit("agent.spawn");
    assert("agent.spawn"@.len() == 11 && "agent.spawn"@[0] == 'a' && "agent.spawn"@[7] == 'p');
    reveal_strlit("worktree.list");
    assert("worktree.list"@.len() == 13 && "worktree.list"@[0] == 'w' && "worktree.list"@[7] == 'e' && "worktree.list"@[11] == 's');
    reveal_strlit("worktree.remove");
    assert("worktree.remove"@.len() == 15);
    reveal_strlit("bus.send");
    assert("bus.send"@.len() == 8 && "bus.send"@[0] == 'b' && "bus.send"@[7] == 'd');
    reveal_strlit("bus.reply");
    assert("bus.reply"@.len() == 9 && "bus.reply"@[0] == 'b' && "bus.reply"@[7] == 'l');
    reveal_strlit("bus.reply_for");
    assert("bus.reply_for"@.len() == 13 && "bus.reply_for"@[0] == 'b' && "bus.reply_for"@[7] == 'l' && "bus.reply_for"@[11] == 'o');
    reveal_strlit("bus.broadcast");
    assert("bus.broadcast"@.len() == 13 && "bus.broadcast"@[0] == 'b' && "bus.broadcast"@[7] == 'a' && "bus.broadcast"@[11] == 's');
    reveal_strlit("bus.tail");
    assert("bus.tail"@.len() == 8 && "bus.tail"@[0] == 'b' && "bus.tail"@[7] == 'l');
    reveal_strlit("trigger.fire");
    assert("trigger.fire"@.len() == 12 && "trigger.fire"@[0] == 't' && "trigger.fire"@[7] == '.' && "trigger.fire"@[11] == 'e');
    reveal_strlit("vault.list");
    assert("vault.list"@.len() == 10 && "vault.list"@[0] == 'v' && "vault.list"@[7] == 'i');
    reveal_strlit("vault.search");
    assert("vault.search"@.len() == 12 && "vault.search"@[0] == 'v' && "vault.search"@[7] == 'e' && "vault.search"@[11] == 'h');
    reveal_strlit("vault.read");
    assert("vault.read"@.len() == 10 && "vault.read"@[0] == 'v' && "vault.read"@[7] == 'e');
    reveal_strlit("vault.init");
    assert("vault.init"@.len() == 10 && "vault.init"@[0] == 'v' && "vault.init"@[7] == 'n');
    reveal_strlit("vault.write");
    assert("vault.write"@.len() == 11 && "vault.write"@[0] == 'v' && "vault.write"@[7] == 'r');
    reveal_strlit("digest");
    assert("digest"@.len() == 6 && "digest"@[0] == 'd');
}

/// A request that asks for nothing that there is is refused.
pub proof fn law_an_unknown_request_is_refused(
    e: EngineView,
    q: RequestView,
    rules: Rules,
    ctx: Context,
)
    requires
        rules.board,
        q.method != "ping"@,
        q.method != "server.stop"@,
        q.method != "agent.wait"@,
        answered_session(e, q, rules, ctx) is None,
        answered_work(e, q, rules, ctx) is None,
        topic_of(q.method) is None,
    ensures
        answered(e, q, rules, ctx).0 == e,
        answered(e, q, rules, ctx).1 is Err,
        answered(e, q, rules, ctx).1->Err_0.code == Code::NotFound,
{
}

/// A space is the first of its name.
pub proof fn law_a_space_is_the_first_of_its_name(s: SessionView, i: int, name: Seq<char>)
    ensures
        0 <= i < s.spaces.len() && (forall|j: int|
            0 <= j < i ==> (#[trigger] s.spaces[j]).name != s.spaces[i].name) ==> space_called(
            s,
            s.spaces[i].name,
        ) == Ok::<_, FaultView>(s.spaces[i].id),
        (forall|j: int| 0 <= j < s.spaces.len() ==> (#[trigger] s.spaces[j]).name != name)
            ==> space_called(s, name) is Err && space_called(s, name)->Err_0.code == Code::NotFound,
{
    lemma_first_where(s.spaces, named(name));
    if 0 <= i < s.spaces.len() && (forall|j: int|
        0 <= j < i ==> (#[trigger] s.spaces[j]).name != s.spaces[i].name) {
        lemma_first_where_is(s.spaces, named(s.spaces[i].name), i);
    }
}

/// A request that leaves out what it needs changes nothing, and is told so.
pub proof fn law_a_request_that_leaves_something_out_is_refused(
    e: EngineView,
    q: RequestView,
    rules: Rules,
    ctx: Context,
)
    ensures
        q.text("name"@) is None ==> {
            &&& space_focusing(e, q).0 == e && space_focusing(e, q).1 is Err
            &&& space_closing(e, q, rules).0 == e && space_closing(e, q, rules).1 is Err
            &&& space_renaming(e, q).0 == e && space_renaming(e, q).1 is Err
            &&& tab_renaming(e, q).0 == e && tab_renaming(e, q).1 is Err
            &&& command_running(e, q, rules, ctx).0 == e && command_running(
                e,
                q,
                rules,
                ctx,
            ).1 is Err
        },
        q.text("to"@) is None ==> space_renaming(e, q).0 == e && space_renaming(e, q).1 is Err,
        q.text("text"@) is None ==> pane_typing(e, q, ctx).0 == e && pane_typing(e, q, ctx).1 is Err
            && task_adding(e, q, rules, ctx).0 == e && task_adding(e, q, rules, ctx).1 is Err,
        q.text("preset"@) is None ==> layout_applying(e, q, rules, ctx).0 == e && layout_applying(
            e,
            q,
            rules,
            ctx,
        ).1 is Err,
        q.whole("task"@) is None ==> task_releasing(e, q, ctx).0 == e && task_releasing(
            e,
            q,
            ctx,
        ).1 is Err,
        q.text("cwd"@) is None && ctx.cwd is None ==> space_creating(e, q, rules, ctx).0 == e
            && space_creating(e, q, rules, ctx).1 is Err,
        pane_named_by(q, known_views(ctx.known@), "pane"@) is None ==> pane_focusing(e, q, ctx).0
            == e && pane_focusing(e, q, ctx).1 is Err && pane_renaming(e, q, ctx).0 == e
            && pane_renaming(e, q, ctx).1 is Err,
        e.session.focused_space is None ==> tab_creating(e, q, rules).0 == e && tab_creating(
            e,
            q,
            rules,
        ).1 is Err,
        e.session.front_tab() is None ==> tab_closing(e, rules).0 == e && tab_closing(
            e,
            rules,
        ).1 is Err,
{
}

/// A new space stands where the request says, or else where the daemon runs, under the name it was
/// given, and is told of by the number it has.
pub proof fn law_a_space_is_made_where_it_was_asked_for(
    e: EngineView,
    q: RequestView,
    rules: Rules,
    ctx: Context,
)
    ensures
        q.text("cwd"@) is Some ==> space_creating(e, q, rules, ctx).0.session == with_space(
            e.session,
            rules.bars,
            rules.shell@,
            q.text("name"@),
            q.text("cwd"@)->Some_0,
        ),
        q.text("cwd"@) is None && ctx.cwd is Some ==> space_creating(e, q, rules, ctx).0.session
            == with_space(
            e.session,
            rules.bars,
            rules.shell@,
            q.text("name"@),
            ctx.cwd->Some_0@,
        ),
        q.text("cwd"@) is Some || ctx.cwd is Some ==> {
            let r = space_creating(e, q, rules, ctx);
            &&& r.1 == Ok::<_, FaultView>(ReplyView::Space(e.session.next_space))
            &&& r.0.detect_soon && r.0.dirty_shape && r.0.board == e.board && r.0.triggers
                == e.triggers
        },
{
}

/// A space that is named is the one that is shown, or closed.
pub proof fn law_the_space_that_is_named_is_meant(
    e: EngineView,
    q: RequestView,
    rules: Rules,
    i: int,
)
    requires
        0 <= i < e.session.spaces.len(),
        forall|j: int|
            0 <= j < i ==> (#[trigger] e.session.spaces[j]).name != e.session.spaces[i].name,
        q.text("name"@) == Some(e.session.spaces[i].name),
    ensures
        ({
            let id = e.session.spaces[i].id;
            &&& space_focusing(e, q).0.session == space_focused(e.session, id).0
            &&& space_focusing(e, q).1 == Ok::<_, FaultView>(ReplyView::Space(id))
            &&& space_closing(e, q, rules).0.session == space_closed(e.session, rules.bars, id)
            &&& space_closing(e, q, rules).1 == Ok::<_, FaultView>(ReplyView::Closed(id))
            &&& space_focusing(e, q).0.dirty_shape && space_closing(e, q, rules).0.dirty_shape
        }),
{
    law_a_space_is_the_first_of_its_name(e.session, i, ""@);
}

/// The tab in front is the one that is closed.
pub proof fn law_the_tab_in_front_is_closed(e: EngineView, rules: Rules)
    requires
        e.session.front_tab() is Some,
    ensures
        tab_closing(e, rules).0.session == tab_closed(
            e.session,
            rules.bars,
            e.session.front_tab()->Some_0,
        ),
        tab_closing(e, rules).1 == Ok::<_, FaultView>(
            ReplyView::Closed(e.session.front_tab()->Some_0),
        ),
{
}

/// What is typed goes to the pane that is meant, as it is, and is submitted only where that is
/// asked for. A pane that is not there is told so.
pub proof fn law_what_is_typed_goes_to_its_pane(e: EngineView, q: RequestView, ctx: Context)
    ensures
        ({
            let p = pane_meant(q, e.session, known_views(ctx.known@), "pane"@);
            let r = pane_typing(e, q, ctx);
            &&& r.0 == e
            &&& p is Some && q.text("text"@) is Some && e.session.has_pane(p->Some_0) ==> r.1
                == Ok::<_, FaultView>(
                ReplyView::Type {
                    pane: p->Some_0,
                    text: q.text("text"@)->Some_0,
                    submit: q.flag("submit"@) == Some(true),
                },
            )
            &&& p is Some && q.text("text"@) is Some && !e.session.has_pane(p->Some_0) ==> r.1 is Err
                && r.1->Err_0.code == Code::NotFound
            &&& q.number("lines"@) is None && p is Some && e.session.has_pane(p->Some_0)
                ==> pane_scrolling(e, q, ctx).1 == Ok::<_, FaultView>(
                ReplyView::Scroll { pane: p->Some_0, lines: 0 },
            )
            &&& pane_scrolling(e, q, ctx).0 == e
        }),
{
}

// -- the board ---------------------------------------------------------------

/// Whoever is not an agent may put work on the board; where there are authors, an agent may where
/// its role is one of theirs.
pub proof fn law_who_may_put_work_on_the_board(
    s: SessionView,
    authors: Seq<Seq<char>>,
    i: int,
)
    requires
        s.wf(),
        0 <= i < s.panes.len(),
    ensures
        may_add(s, authors, None),
        may_add(s, Seq::empty(), Some(s.panes[i].id)),
        authors.len() > 0 ==> (may_add(s, authors, Some(s.panes[i].id)) <==> s.panes[i].life.role
            is Some && authors.contains(s.panes[i].life.role->Some_0)),
{
    let id = s.panes[i].id;
    assert forall|j: int| 0 <= j < i implies !pane_is(id)(#[trigger] s.panes[j]) by {
        assert(s.panes[j].id < s.panes[i].id);
    }
    lemma_first_where_is(s.panes, pane_is(id), i);
}

/// Work is put on the board as it was given, by whoever asked, for the project that was named or
/// else the caller's own.
pub proof fn law_work_is_put_on_the_board_as_given(
    e: EngineView,
    q: RequestView,
    rules: Rules,
    ctx: Context,
)
    requires
        q.text("text"@) is Some,
        may_add(
            e.session,
            texts(rules.task_authors@),
            pane_named_by(q, known_views(ctx.known@), "from"@),
        ),
    ensures
        ({
            let space = if q.text("space"@) is Some {
                q.text("space"@)
            } else {
                caller_space_of(q, e.session, known_views(ctx.known@))
            };
            let (b, r) = adding(e.board, q.text("text"@)->Some_0, ctx.sender@, space, ctx.now);
            let a = task_adding(e, q, rules, ctx);
            &&& a.0.board == b && a.0.session == e.session && a.0.triggers == e.triggers
            &&& r is Ok ==> a.1 is Ok && a.1->Ok_0 is Added && a.1->Ok_0->Added_task == r->Ok_0
                && a.0.dirty_shape
            &&& r is Err ==> a.1 is Err
        }),
{
}

/// Work is claimed, finished and put back for whoever asks, by its number where that is given, and
/// in the caller's own project. Nothing to do is an answer and no failure.
pub proof fn law_work_is_claimed_for_whoever_asks(e: EngineView, q: RequestView, ctx: Context)
    ensures
        ({
            let space = caller_space_of(q, e.session, known_views(ctx.known@));
            let (b, r) = claiming(e.board, ctx.sender@, q.whole("task"@), space, ctx.now);
            let a = task_claiming(e, q, ctx);
            &&& a.0.board == b && a.0.session == e.session
            &&& r is Ok && r->Ok_0 is Some ==> a.1 == Ok::<_, FaultView>(
                ReplyView::Task(r->Ok_0->Some_0),
            ) && a.0.dirty_shape
            &&& r is Ok && r->Ok_0 is None ==> a.1 == Ok::<_, FaultView>(ReplyView::NoTask)
            &&& r is Err ==> a.1 is Err
        }),
        ({
            let (b, r) = finishing(
                e.board,
                ctx.sender@,
                q.whole("task"@),
                q.text("result"@),
                ctx.now,
            );
            let a = task_finishing(e, q, ctx);
            &&& a.0.board == b && a.0.session == e.session
            &&& r is Ok ==> a.1 == Ok::<_, FaultView>(ReplyView::Task(r->Ok_0)) && a.0.dirty_shape
            &&& r is Err ==> a.1 is Err
        }),
        q.whole("task"@) is Some ==> {
            let on = q.flag("drop"@) == Some(true);
            let (b, r) = releasing(e.board, q.whole("task"@)->Some_0, on, ctx.now);
            let a = task_releasing(e, q, ctx);
            &&& a.0.board == b && a.0.session == e.session
            &&& r is Ok ==> a.1 is Ok && a.1->Ok_0 is Released && a.1->Ok_0->Released_task == r->Ok_0
            &&& r is Ok && !on ==> a.1->Ok_0->settled_by is None
            &&& r is Ok && on ==> a.1->Ok_0->settled_by is Some
            &&& r is Err ==> a.1 is Err
        },
{
}

/// A project's list shows its own work and work for every project; the whole list, all of it.
pub proof fn law_a_list_shows_a_projects_own_work(
    e: EngineView,
    q: RequestView,
    ctx: Context,
    t: TaskView,
)
    ensures
        ({
            let scope = if q.flag("everywhere"@) == Some(true) {
                None
            } else {
                caller_space_of(q, e.session, known_views(ctx.known@))
            };
            let r = tasks_listing(e, q, ctx);
            &&& r.0 == e && r.1 is Ok && r.1->Ok_0 is Tasks
            &&& r.1->Ok_0->Tasks_0.contains(t) <==> e.board.tasks.contains(t) && (scope is None
                || t.space is None || t.space == scope)
        }),
{
    let p = listed_for(scope_of(e, q, ctx));
    let f = |t: TaskView| t;
    let out = pick(e.board.tasks, p, f);
    if out.contains(t) {
        let k = choose|k: int| 0 <= k < out.len() && out[k] == t;
        let i = lemma_pick_sound(e.board.tasks, p, f, k);
        assert(e.board.tasks[i] == t);
    }
    if e.board.tasks.contains(t) && p(t) {
        let i = choose|i: int| 0 <= i < e.board.tasks.len() && e.board.tasks[i] == t;
        let k = lemma_pick_complete(e.board.tasks, p, f, i);
        assert(out[k] == t);
    }
}

/// A pane is put on the board, or off it, and nothing else changes.
pub proof fn law_a_pane_is_put_on_the_board(s: SessionView, i: int, on: bool)
    requires
        s.wf(),
        0 <= i < s.panes.len(),
    ensures
        ({
            let t = enlisted(s, s.panes[i].id, on);
            &&& t.panes[i].life.board == on && t.panes[i].life.role == s.panes[i].life.role
                && t.panes[i].life.agent == s.panes[i].life.agent && t.panes[i].id == s.panes[i].id
                && t.panes[i].life.pinned == s.panes[i].life.pinned
            &&& forall|j: int|
                0 <= j < s.panes.len() && j != i ==> #[trigger] t.panes[j] == s.panes[j]
            &&& t.spaces == s.spaces && t.tabs == s.tabs
        }),
{
    let id = s.panes[i].id;
    assert forall|j: int| 0 <= j < i implies !pane_is(id)(#[trigger] s.panes[j]) by {
        assert(s.panes[j].id < s.panes[i].id);
    }
    lemma_first_where_is(s.panes, pane_is(id), i);
}

/// A pane is put on the board unless the request says off.
pub proof fn law_a_pane_enlists_unless_told_otherwise(e: EngineView, q: RequestView, ctx: Context)
    requires
        pane_meant(q, e.session, known_views(ctx.known@), "from"@) is Some,
        e.session.has_pane(pane_meant(q, e.session, known_views(ctx.known@), "from"@)->Some_0),
    ensures
        ({
            let p = pane_meant(q, e.session, known_views(ctx.known@), "from"@)->Some_0;
            let on = q.flag("on"@) != Some(false);
            &&& enlisting(e, q, ctx).0.session == enlisted(e.session, p, on)
            &&& enlisting(e, q, ctx).1 == Ok::<_, FaultView>(
                ReplyView::Enlisted { pane: p, board: on },
            )
        }),
{
}

/// A role is set by a person, as it was given, and a pane is pinned as it was asked for, or the
/// other way round.
pub proof fn law_a_person_sets_roles_and_pins(e: EngineView, q: RequestView, ctx: Context, i: int)
    requires
        e.session.wf(),
        0 <= i < e.session.panes.len(),
        pane_meant(q, e.session, known_views(ctx.known@), "pane"@) == Some(e.session.panes[i].id),
    ensures
        ({
            let p = e.session.panes[i];
            let from = pane_named_by(q, known_views(ctx.known@), "from"@);
            let r = role_setting(e, q, ctx);
            &&& from is None ==> r.0.session.panes[i].life.role == opt_text(ctx.role)
                && r.0.session.panes[i].id == p.id && r.0.session.panes[i].life.board
                == p.life.board
            &&& from is Some && e.session.has_pane(from->Some_0) && e.session.panes[e.session.pane_at(
                from->Some_0,
            )].life.agent is Some ==> r.0 == e && r.1 is Err
            &&& pinning(e, q, ctx).0.session.panes[i].life.pinned == (if q.flag("pinned"@) is Some {
                q.flag("pinned"@)->Some_0
            } else {
                !p.life.pinned
            })
            &&& pinning(e, q, ctx).0.session.panes[i].life.role == p.life.role
        }),
{
    let s = e.session;
    let id = s.panes[i].id;
    assert forall|j: int| 0 <= j < i implies !pane_is(id)(#[trigger] s.panes[j]) by {
        assert(s.panes[j].id < s.panes[i].id);
    }
    lemma_first_where_is(s.panes, pane_is(id), i);
}

// -- rules -------------------------------------------------------------------

/// A rule goes by an interval or by a time of day, one of the two, and only a time of day has days.
pub proof fn law_a_rule_goes_by_one_clock(q: RequestView)
    ensures
        q.text("every"@) is Some && q.text("at"@) is Some ==> when_of(q) is Err,
        q.text("every"@) is None && q.text("at"@) is None ==> when_of(q) is Err,
        q.text("every"@) is Some && q.text("days"@) is Some ==> when_of(q) is Err,
        q.text("every"@) is Some && q.text("at"@) is None && q.text("days"@) is None && every_in(
            q.text("every"@)->Some_0,
        ) is Ok ==> when_of(q) == Ok::<_, FaultView>(every_in(q.text("every"@)->Some_0)->Ok_0),
        q.text("every"@) is None && q.text("at"@) is Some && q.text("days"@) is None && at_in(
            q.text("at"@)->Some_0,
        ) is Ok ==> when_of(q) == Ok::<_, FaultView>(at_in(q.text("at"@)->Some_0)->Ok_0),
        when_of(q) is Ok && q.text("days"@) is Some && when_of(q)->Ok_0 is At ==> days_in(
            q.text("days"@)->Some_0,
        ) is Ok && when_of(q)->Ok_0->days == days_in(q.text("days"@)->Some_0)->Ok_0 && at_in(
            q.text("at"@)->Some_0,
        )->Ok_0->hour == when_of(q)->Ok_0->hour && at_in(q.text("at"@)->Some_0)->Ok_0->min
            == when_of(q)->Ok_0->min,
{
}

/// A rule does one thing: puts work on the board, sends a message, or starts an agent.
pub proof fn law_a_rule_does_one_thing(q: RequestView)
    ensures
        ({
            let task = q.text("task"@);
            let to = q.text("to"@);
            let cmd = q.text("spawn"@);
            &&& task is Some && to is None && cmd is None ==> what_of(q) == Ok::<_, FaultView>(
                WhatView::Task { text: task->Some_0 },
            )
            &&& task is None && to is Some && cmd is None && q.text("body"@) is Some ==> what_of(q)
                == Ok::<_, FaultView>(
                WhatView::Send { to: to->Some_0, body: q.text("body"@)->Some_0 },
            )
            &&& task is None && to is Some && cmd is None && q.text("body"@) is None ==> what_of(
                q,
            ) is Err
            &&& task is None && to is None && cmd is Some ==> what_of(q) == Ok::<_, FaultView>(
                WhatView::Spawn { cmd: cmd->Some_0, name: q.text("name"@) },
            )
            &&& task is None && to is None && cmd is None ==> what_of(q) is Err
            &&& task is Some && to is Some ==> what_of(q) is Err
            &&& task is Some && cmd is Some ==> what_of(q) is Err
            &&& to is Some && cmd is Some ==> what_of(q) is Err
        }),
{
}

/// A list of rules shows every rule that was not removed, and says whether any fires.
pub proof fn law_a_list_of_rules_shows_what_is_there(e: EngineView, rules: Rules, t: TriggerView)
    ensures
        ({
            let r = triggers_listing(e, rules);
            &&& r.0 == e && r.1 is Ok && r.1->Ok_0 is Triggers
            &&& r.1->Ok_0->Triggers_armed == rules.unattended
            &&& r.1->Ok_0->triggers.contains(t) <==> e.triggers.triggers.contains(t) && !t.deleted
        }),
{
    let all = e.triggers.triggers;
    let f = |t: TriggerView| t;
    let out = pick(all, living(), f);
    if out.contains(t) {
        let k = choose|k: int| 0 <= k < out.len() && out[k] == t;
        let i = lemma_pick_sound(all, living(), f, k);
        assert(all[i] == t);
    }
    if all.contains(t) && !t.deleted {
        let i = choose|i: int| 0 <= i < all.len() && all[i] == t;
        assert(living()(all[i]));
        let k = lemma_pick_complete(all, living(), f, i);
        assert(out[k] == t);
    }
}

/// All rules are turned off at once, but never on.
pub proof fn law_all_rules_are_turned_off_but_never_on(e: EngineView, q: RequestView, i: int)
    requires
        q.get("trigger"@) is None,
    ensures
        q.flag("on"@) == Some(true) ==> trigger_switching(e, q).0 == e && trigger_switching(
            e,
            q,
        ).1 is Err,
        q.flag("on"@) != Some(true) ==> trigger_switching(e, q).1 is Ok && trigger_switching(
            e,
            q,
        ).0.dirty_shape && trigger_switching(e, q).0.session == e.session && trigger_switching(
            e,
            q,
        ).0.board == e.board,
{
}

/// A space takes the colour that is named, or the next, and is folded as asked, or the other way
/// round; what it is then is the answer.
pub proof fn law_a_space_takes_its_colour_and_fold(e: EngineView, q: RequestView, ctx: Context)
    requires
        space_meant(q, e.session) is Ok,
        e.session.has_space(space_meant(q, e.session)->Ok_0),
    ensures
        ({
            let id = space_meant(q, e.session)->Ok_0;
            let was = look_of(e.session, id);
            let a = space_accenting(e, q, ctx);
            let b = space_collapsing(e, q);
            &&& q.whole("slot"@) is Some && q.whole("slot"@)->Some_0 < 256 ==> a.1 == Ok::<
                _,
                FaultView,
            >(ReplyView::Accent { space: id, slot: q.whole("slot"@)->Some_0 as u8 })
            &&& a.1 is Ok && a.1->Ok_0 is Accent && look_of(a.0.session, id).slot
                == a.1->Ok_0->slot && look_of(a.0.session, id).collapsed == was.collapsed
            &&& q.flag("collapsed"@) is Some ==> b.1 == Ok::<_, FaultView>(
                ReplyView::Collapsed { space: id, collapsed: q.flag("collapsed"@)->Some_0 },
            )
            &&& q.flag("collapsed"@) is None ==> b.1 == Ok::<_, FaultView>(
                ReplyView::Collapsed { space: id, collapsed: !was.collapsed },
            )
            &&& look_of(b.0.session, id).collapsed == b.1->Ok_0->collapsed && look_of(
                b.0.session,
                id,
            ).slot == was.slot
            &&& a.0.dirty_shape && b.0.dirty_shape
        }),
{
}

/// What is refused says why.
pub proof fn law_what_is_refused_says_why(e: EngineView, q: RequestView, rules: Rules, ctx: Context)
    ensures
        !rules.board && begins(q.method, "task."@) ==> answered(e, q, rules, ctx) == (
            e,
            Err::<ReplyView, _>(
                FaultView {
                    code: Code::Failed,
                    message:
                        "the task board is off — set agents.board = true in config.toml to enable it"@,
                },
            ),
        ),
        q.text("text"@) is None ==> task_adding(e, q, rules, ctx).1 == Err::<ReplyView, _>(
            FaultView { code: Code::BadRequest, message: "text required"@ },
        ),
        q.text("name"@) is None ==> space_focusing(e, q).1 == Err::<ReplyView, _>(
            FaultView { code: Code::BadRequest, message: "name required"@ },
        ),
        q.whole("task"@) is None ==> task_releasing(e, q, ctx).1 == Err::<ReplyView, _>(
            FaultView { code: Code::BadRequest, message: "task id required"@ },
        ),
{
}

} // verus!
