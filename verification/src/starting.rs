//! What becomes of a pane whose program does not start: it was never there.

use crate::commands::{Cmd, Level};
use crate::control::{answer, Reply, ReplyView};
use crate::engine::{Engine, EngineView};
use crate::layout::{Layout, Node};
use crate::proto::Dir;
use crate::rpc::{failed, failed_of, Fault, FaultView};
use crate::seqs::{lemma_first_where, lemma_first_where_is};
use crate::state::{
    lemma_wf_without_pane, pane_is, splitting_in, tab_is, unzoomed, with_tab, Bars, Session,
    SessionView, TabView,
};
use crate::structure::{lemma_pane, lemma_tab, shape, sound};
use crate::text::opt_str;
use vstd::prelude::*;

verus! {

/// A session without a pane whose program did not start. Its neighbour has its room back, and what
/// was in front of the tab before is so again. A tab that had nothing else stands empty.
pub open spec fn unstarted(s: SessionView, pane: u64, front: Option<u64>) -> SessionView {
    let i = s.pane_at(pane);
    if i >= s.panes.len() {
        s
    } else {
        let k = s.tab_at(s.panes[i].tab);
        let rest = SessionView { panes: s.panes.remove(i), ..s };
        if k < s.tabs.len() {
            let was = s.tabs[k];
            SessionView {
                tabs: s.tabs.update(
                    k,
                    TabView {
                        layout: Layout {
                            tree: match was.layout.tree {
                                Some(n) => n.without(pane),
                                None => None,
                            },
                        },
                        focused_pane: if was.focused_pane == Some(pane) {
                            front
                        } else {
                            was.focused_pane
                        },
                        ..was
                    },
                ),
                ..rest
            }
        } else {
            rest
        }
    }
}

impl Session {
    /// The program of a pane did not start. `front` is what was in front of its tab before it
    /// came.
    pub fn not_started(&mut self, pane: u64, front: Option<u64>)
        requires
            old(self)@.wf(),
        ensures
            final(self)@ == unstarted(old(self)@, pane, front),
            final(self)@.wf(),
    {
        let i: usize = self.pane_index(pane);
        if i >= self.panes.len() {
            return;
        }
        let ghost before = self@;
        let k: usize = self.tab_index(self.panes[i].tab);
        let gone = self.panes.remove(i);
        proof {
            assert(self@.panes =~= before.panes.remove(i as int));
            lemma_wf_without_pane(before, i as int, self@.effects);
        }
        if k < self.tabs.len() {
            let ghost mid = self@;
            self.tabs[k].layout.close(pane);
            if self.tabs[k].focused_pane == Some(pane) {
                self.tabs[k].focused_pane = front;
            }
            proof {
                assert(self@.tabs =~= unstarted(before, pane, front).tabs);
            }
        }
    }
}

// -- saying so ---------------------------------------------------------------

/// How much it matters that what a command was to start did not.
pub open spec fn weight_of(cmd: Cmd) -> Level {
    match cmd {
        Cmd::NewTab | Cmd::NewSpace { .. } | Cmd::OpenProject { .. } | Cmd::NewTabIn(_) =>
            Level::Error,
        _ => Level::Warn,
    }
}

/// A call whose program did not start is refused with the reason, whatever it came to otherwise.
/// Not so a command that was run by its name: that is said in a notice, as for any command.
pub open spec fn answered_unless(
    r: Result<ReplyView, FaultView>,
    failed: Option<Seq<char>>,
) -> Result<ReplyView, FaultView> {
    match (r, failed) {
        (Ok(ReplyView::Ran { .. }), _) => r,
        (Ok(_), Some(why)) => Err(failed_of(why)),
        _ => r,
    }
}

/// What a call is answered, where it is known whether what it was to start did.
pub fn answer_unless(r: Result<Reply, Fault>, failed_start: Option<&str>) -> (after: Result<
    Reply,
    Fault,
>)
    ensures
        answer(after) == answered_unless(answer(r), opt_str(failed_start)),
{
    match (r, failed_start) {
        (Ok(Reply::Ran { name, seen, act }), _) => Ok(Reply::Ran { name, seen, act }),
        (Ok(_), Some(why)) => Err(failed(why)),
        (r, _) => r,
    }
}

impl Engine {
    /// What a command was to start did not: the pane goes, and a notice says why.
    pub fn command_not_started(&mut self, cmd: &Cmd, pane: u64, front: Option<u64>, why: &str)
        requires
            old(self)@.wf(),
        ensures
            final(self)@ == (EngineView {
                session: unstarted(old(self)@.session, pane, front),
                ..old(self)@
            }).noticing(weight_of(*cmd), why@),
            final(self)@.wf(),
    {
        self.session.not_started(pane, front);
        let level = match cmd {
            Cmd::NewTab | Cmd::NewSpace { .. } | Cmd::OpenProject { .. } | Cmd::NewTabIn(_) =>
                Level::Error,
            _ => Level::Warn,
        };
        self.notice(level, why);
    }
}

// -- laws --------------------------------------------------------------------

/// Taking out of a tree what was just put beside something gives the tree back.
proof fn lemma_undivided(n: Node, target: u64, dir: Dir, new: u64)
    requires
        !n.leaves().contains(new),
    ensures
        n.divided(target, dir, new).without(new) == Some(n),
    decreases n,
{
    match n {
        Node::Leaf(p) => {
            assert(n.leaves()[0] == p);
            reveal_with_fuel(Node::without, 2);
        },
        Node::Split { axis, ratio, a, b } => {
            let all = n.leaves();
            assert forall|i: int| 0 <= i < a.leaves().len() implies a.leaves()[i] != new by {
                assert(all[i] == a.leaves()[i]);
            }
            assert forall|i: int| 0 <= i < b.leaves().len() implies b.leaves()[i] != new by {
                assert(all[a.leaves().len() + i] == b.leaves()[i]);
            }
            lemma_undivided(*a, target, dir, new);
            lemma_undivided(*b, target, dir, new);
        },
    }
}

/// A split whose program does not start is undone: but for the number that was given out, and for
/// the zoom, which is dropped in any case, the session is as it was, and lays out as it did.
pub proof fn law_a_split_that_does_not_start_is_undone(
    s: SessionView,
    bars: Bars,
    shell: Seq<char>,
    target: Option<u64>,
    dir: Dir,
    cmd: Option<Seq<char>>,
    cwd: Option<Seq<char>>,
    fits: bool,
)
    requires
        sound(s),
        splitting_in(s, bars, shell, target, dir, cmd, cwd, fits).1 is Ok,
    ensures
        ({
            let (t, r) = splitting_in(s, bars, shell, target, dir, cmd, cwd, fits);
            let start = t.effects.last();
            let after = unstarted(t, r->Ok_0, start->front);
            &&& t.effects.drop_last() == s.effects
            &&& start is Spawn && start->Spawn_pane == r->Ok_0
            &&& SessionView { effects: s.effects, ..after } == (SessionView {
                next_pane: (s.next_pane + 1) as u64,
                ..unzoomed(s, bars).laid_out(bars)
            })
        }),
{
    let (t, r) = splitting_in(s, bars, shell, target, dir, cmd, cwd, fits);
    let new = r->Ok_0;
    let beside = if target is Some {
        target->Some_0
    } else {
        s.front_pane()->Some_0
    };
    let u = unzoomed(s, bars);
    let p = s.panes[s.pane_at(beside)];
    let k = u.tab_at(p.tab);
    let start = t.effects.last();
    let after = unstarted(t, new, start->front);
    assert(t.effects.drop_last() =~= s.effects);
    // The new pane is the last one.
    assert forall|j: int| 0 <= j < s.panes.len() implies !pane_is(new)(#[trigger] t.panes[j]) by {
        assert(t.panes[j] == s.panes[j]);
    }
    assert(pane_is(new)(t.panes[s.panes.len() as int]));
    lemma_first_where_is(t.panes, pane_is(new), s.panes.len() as int);
    assert(t.panes.remove(s.panes.len() as int) =~= s.panes);
    // Its tab is where it was.
    lemma_first_where(u.tabs, tab_is(p.tab));
    assert forall|j: int| 0 <= j < k implies !tab_is(p.tab)(#[trigger] t.tabs[j]) by {
        assert(t.tabs[j] == u.tabs[j]);
    }
    assert(tab_is(p.tab)(u.tabs[k]));
    assert(tab_is(p.tab)(t.tabs[k]));
    lemma_first_where_is(t.tabs, tab_is(p.tab), k);
    // And its tree holds no pane that has not been.
    lemma_tab(s, p.tab);
    let tree = u.tabs[k].layout.tree->Some_0;
    assert(u.tabs[k].layout.tree is Some);
    assert forall|q: u64| #[trigger] tree.leaves().contains(q) implies q != new by {
        assert(u.tabs[k].layout.order().contains(q));
        lemma_pane(s, q);
        assert(s.has_pane(q));
    }
    lemma_undivided(tree, beside, dir, new);
    assert(after.tabs =~= u.tabs);
}

/// And everything still hangs together.
pub proof fn law_a_split_that_does_not_start_keeps_it_sound(
    s: SessionView,
    bars: Bars,
    shell: Seq<char>,
    target: Option<u64>,
    dir: Dir,
    cmd: Option<Seq<char>>,
    cwd: Option<Seq<char>>,
    fits: bool,
)
    requires
        sound(s),
        s.has_ids(),
        splitting_in(s, bars, shell, target, dir, cmd, cwd, fits).1 is Ok,
    ensures
        ({
            let (t, r) = splitting_in(s, bars, shell, target, dir, cmd, cwd, fits);
            sound(unstarted(t, r->Ok_0, t.effects.last()->front))
        }),
{
    law_a_split_that_does_not_start_is_undone(s, bars, shell, target, dir, cmd, cwd, fits);
    let (t, r) = splitting_in(s, bars, shell, target, dir, cmd, cwd, fits);
    let after = unstarted(t, r->Ok_0, t.effects.last()->front);
    let plain = SessionView { effects: s.effects, ..after };
    assert(plain.spaces == s.spaces && plain.tabs == s.tabs && plain.panes == s.panes);
    assert(after.spaces == s.spaces && after.tabs == s.tabs && after.panes == s.panes);
    assert(shape(after) == shape(s));
}

/// A tab whose program does not start stands empty in front of its space, and a space likewise
/// with its first tab.
pub proof fn law_a_tab_that_does_not_start_stands_empty(
    s: SessionView,
    bars: Bars,
    shell: Seq<char>,
    space: u64,
    name: Option<Seq<char>>,
)
    requires
        s.wf(),
        s.has_ids(),
        with_tab(s, bars, shell, space, name).1 is Ok,
    ensures
        ({
            let (t, r) = with_tab(s, bars, shell, space, name);
            let start = t.effects.last();
            let after = unstarted(t, start->Spawn_pane, start->front);
            &&& start is Spawn && start->Spawn_pane == s.next_pane
            &&& after.panes == s.panes
            &&& after.tabs.drop_last() == s.tabs
            &&& after.tabs.last().id == r->Ok_0
            &&& after.tabs.last().layout.tree is None
            &&& after.tabs.last().focused_pane is None
            &&& after.spaces == t.spaces
        }),
{
    let (t, r) = with_tab(s, bars, shell, space, name);
    let pane = s.next_pane;
    let id = s.next_tab;
    let start = t.effects.last();
    assert forall|j: int| 0 <= j < s.panes.len() implies !pane_is(pane)(
        #[trigger] t.panes[j],
    ) by {
        assert(t.panes[j] == s.panes[j]);
    }
    assert(pane_is(pane)(t.panes[s.panes.len() as int]));
    lemma_first_where_is(t.panes, pane_is(pane), s.panes.len() as int);
    assert(t.panes.remove(s.panes.len() as int) =~= s.panes);
    assert forall|j: int| 0 <= j < s.tabs.len() implies !tab_is(id)(#[trigger] t.tabs[j]) by {
        assert(t.tabs[j] == s.tabs[j]);
    }
    assert forall|j: int| 0 <= j < s.tabs.len() implies !tab_is(id)(#[trigger] s.tabs[j]) by {}
    assert(tab_is(id)(t.tabs[s.tabs.len() as int]));
    lemma_first_where_is(t.tabs, tab_is(id), s.tabs.len() as int);
    lemma_first_where_is(s.tabs, tab_is(id), s.tabs.len() as int);
    let after = unstarted(t, pane, start->front);
    assert(after.tabs.drop_last() =~= s.tabs);
}

} // verus!
