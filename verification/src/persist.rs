//! Saving and restoring the session shape.
//!
//! Restoring the *shape* is not the same as restoring the *processes*. After a restart, panes
//! come back as fresh shells in their saved directories. Agent panes can do better: where that
//! is asked for, the agent is run again with its resume flag and the session id it reported.
//!
//! What a pane showed is deliberately not saved: it holds secrets.

use crate::handoff::position_in;
use crate::layout::{Axis, Layout, Node};
use crate::seqs::first_where;
use crate::starting::unstarted;
use crate::state::{
    id_is, killed_all, space_focused, spawned, tab_closed, with_space, with_tab, Bars, PaneView,
    Session, SessionView, SpaceView, TabView,
};
use crate::tasks::listed;
use crate::text::{as_opt, decimal, number, opt_text, own_opt, owned, same, texts};
use vstd::prelude::*;
use vstd::string::*;

verus! {

/// Bumped when the saved shape changes. Another version is ignored rather than guessed at.
pub const STATE_VERSION: u32 = 1;

#[derive(Debug)]
pub struct SavedState {
    pub version: u32,
    pub spaces: Vec<SavedSpace>,
    pub focused_space: Option<usize>,
    /// When a digest was last read.
    pub last_seen: u64,
}

#[derive(Debug)]
pub struct SavedSpace {
    pub name: String,
    pub cwd: String,
    pub tabs: Vec<SavedTab>,
    pub focused_tab: Option<usize>,
}

#[derive(Debug)]
pub struct SavedTab {
    pub name: String,
    pub tree: SavedNode,
    /// Index into this tab's panes, in tree order.
    pub focused_pane: Option<usize>,
}

/// The layout tree with panes in full, so ids need not survive a restart.
#[derive(Debug)]
pub enum SavedNode {
    Leaf(SavedPane),
    Split { horizontal: bool, ratio: u32, a: Box<SavedNode>, b: Box<SavedNode> },
}

#[derive(Debug, Clone, PartialEq, Eq)]
pub struct SavedPane {
    pub cmd: String,
    pub cwd: String,
    pub name: Option<String>,
    /// Agent kind detected when the state was saved, used to pick a resume command.
    pub agent_kind: Option<String>,
    pub agent_session: Option<String>,
}

/// A saved pane, as text.
pub struct SavedPaneView {
    pub cmd: Seq<char>,
    pub cwd: Seq<char>,
    pub name: Option<Seq<char>>,
    pub agent_kind: Option<Seq<char>>,
    pub agent_session: Option<Seq<char>>,
}

impl View for SavedPane {
    type V = SavedPaneView;

    open spec fn view(&self) -> SavedPaneView {
        SavedPaneView {
            cmd: self.cmd@,
            cwd: self.cwd@,
            name: opt_text(self.name),
            agent_kind: opt_text(self.agent_kind),
            agent_session: opt_text(self.agent_session),
        }
    }
}

/// A saved tree, as text.
pub enum SavedNodeView {
    Leaf(SavedPaneView),
    Split { horizontal: bool, ratio: u32, a: Box<SavedNodeView>, b: Box<SavedNodeView> },
}

/// A saved tree, as text.
pub open spec fn node_view(n: SavedNode) -> SavedNodeView
    decreases n,
{
    match n {
        SavedNode::Leaf(p) => SavedNodeView::Leaf(p@),
        SavedNode::Split { horizontal, ratio, a, b } => SavedNodeView::Split {
            horizontal,
            ratio,
            a: Box::new(node_view(*a)),
            b: Box::new(node_view(*b)),
        },
    }
}

/// A saved tab, as text.
pub struct SavedTabView {
    pub name: Seq<char>,
    pub tree: SavedNodeView,
    pub focused_pane: Option<usize>,
}

impl View for SavedTab {
    type V = SavedTabView;

    open spec fn view(&self) -> SavedTabView {
        SavedTabView {
            name: self.name@,
            tree: node_view(self.tree),
            focused_pane: self.focused_pane,
        }
    }
}

/// A saved space, as text.
pub struct SavedSpaceView {
    pub name: Seq<char>,
    pub cwd: Seq<char>,
    pub tabs: Seq<SavedTabView>,
    pub focused_tab: Option<usize>,
}

impl View for SavedSpace {
    type V = SavedSpaceView;

    open spec fn view(&self) -> SavedSpaceView {
        SavedSpaceView {
            name: self.name@,
            cwd: self.cwd@,
            tabs: Seq::new(self.tabs@.len(), |i: int| self.tabs@[i]@),
            focused_tab: self.focused_tab,
        }
    }
}

/// A saved session, as text.
pub struct SavedStateView {
    pub version: u32,
    pub spaces: Seq<SavedSpaceView>,
    pub focused_space: Option<usize>,
    pub last_seen: u64,
}

impl View for SavedState {
    type V = SavedStateView;

    open spec fn view(&self) -> SavedStateView {
        SavedStateView {
            version: self.version,
            spaces: Seq::new(self.spaces@.len(), |i: int| self.spaces@[i]@),
            focused_space: self.focused_space,
            last_seen: self.last_seen,
        }
    }
}

// -- saving ------------------------------------------------------------------

/// What is saved of a pane: a shell in the current directory for one that is not there.
pub open spec fn pane_saved(s: SessionView, shell: Seq<char>, id: u64) -> SavedPaneView {
    if s.has_pane(id) {
        let p = s.panes[s.pane_at(id)];
        SavedPaneView {
            cmd: p.cmd,
            cwd: p.cwd,
            name: p.name,
            agent_kind: match p.life.agent {
                Some(a) => Some(a.kind),
                None => None,
            },
            agent_session: match p.life.agent {
                Some(a) => a.session_id,
                None => None,
            },
        }
    } else {
        SavedPaneView {
            cmd: shell,
            cwd: "."@,
            name: None,
            agent_kind: None,
            agent_session: None,
        }
    }
}

/// What is saved of a tree.
pub open spec fn node_saved(s: SessionView, shell: Seq<char>, n: Node) -> SavedNodeView
    decreases n,
{
    match n {
        Node::Leaf(id) => SavedNodeView::Leaf(pane_saved(s, shell, id)),
        Node::Split { axis, ratio, a, b } => SavedNodeView::Split {
            horizontal: axis == Axis::Horizontal,
            ratio,
            a: Box::new(node_saved(s, shell, *a)),
            b: Box::new(node_saved(s, shell, *b)),
        },
    }
}

/// Where an id is in a list, if it is.
pub open spec fn place_in(s: Seq<u64>, id: Option<u64>) -> Option<usize> {
    match id {
        Some(x) => {
            let i = first_where(s, id_is(x));
            if i < s.len() {
                Some(i as usize)
            } else {
                None
            }
        },
        None => None,
    }
}

/// What is saved of the first `n` tabs of a list: those that are there and have panes.
pub open spec fn tabs_saved(s: SessionView, shell: Seq<char>, tabs: Seq<u64>, n: int) -> Seq<
    SavedTabView,
>
    decreases n,
{
    if n <= 0 {
        Seq::empty()
    } else {
        let before = tabs_saved(s, shell, tabs, n - 1);
        let id = tabs[n - 1];
        if s.has_tab(id) && s.tabs[s.tab_at(id)].layout.tree is Some {
            let t = s.tabs[s.tab_at(id)];
            before.push(
                SavedTabView {
                    name: t.name,
                    tree: node_saved(s, shell, t.layout.tree->Some_0),
                    focused_pane: place_in(t.layout.order(), t.focused_pane),
                },
            )
        } else {
            before
        }
    }
}

/// What is saved of a space.
pub open spec fn space_saved(s: SessionView, shell: Seq<char>, sp: SpaceView) -> SavedSpaceView {
    SavedSpaceView {
        name: sp.name,
        cwd: sp.cwd,
        tabs: tabs_saved(s, shell, sp.tabs, sp.tabs.len() as int),
        focused_tab: place_in(sp.tabs, sp.focused_tab),
    }
}

/// What is saved of a session.
pub open spec fn saved(s: SessionView, shell: Seq<char>, last_seen: u64) -> SavedStateView {
    SavedStateView {
        version: STATE_VERSION,
        spaces: Seq::new(s.spaces.len(), |i: int| space_saved(s, shell, s.spaces[i])),
        focused_space: match s.focused_space {
            Some(id) if s.has_space(id) => Some(s.space_at(id) as usize),
            _ => None,
        },
        last_seen,
    }
}

/// What is saved of a pane.
fn save_pane(s: &Session, shell: &str, id: u64) -> (r: SavedPane)
    ensures
        r@ == pane_saved(s@, shell@, id),
{
    match s.pane(id) {
        Some(p) => SavedPane {
            cmd: p.cmd.clone(),
            cwd: p.cwd.clone(),
            name: own_opt(as_opt(&p.name)),
            agent_kind: match &p.life.agent {
                Some(a) => Some(a.kind.clone()),
                None => None,
            },
            agent_session: match &p.life.agent {
                Some(a) => own_opt(as_opt(&a.session_id)),
                None => None,
            },
        },
        None => SavedPane {
            cmd: owned(shell),
            cwd: owned("."),
            name: None,
            agent_kind: None,
            agent_session: None,
        },
    }
}

/// What is saved of a tree.
pub fn save_node(s: &Session, shell: &str, n: &Node) -> (r: SavedNode)
    ensures
        node_view(r) == node_saved(s@, shell@, *n),
    decreases n,
{
    match n {
        Node::Leaf(id) => SavedNode::Leaf(save_pane(s, shell, *id)),
        Node::Split { axis, ratio, a, b } => SavedNode::Split {
            horizontal: *axis == Axis::Horizontal,
            ratio: *ratio,
            a: Box::new(save_node(s, shell, a)),
            b: Box::new(save_node(s, shell, b)),
        },
    }
}

/// Where an id is in a list, if it is.
fn place_of(s: &Vec<u64>, id: Option<u64>) -> (r: Option<usize>)
    ensures
        r == place_in(s@, id),
{
    match id {
        Some(x) => position_in(s, x),
        None => None,
    }
}

/// What is saved of a session.
pub fn save(s: &Session, shell: &str, last_seen: u64) -> (r: SavedState)
    ensures
        r@ == saved(s@, shell@, last_seen),
{
    let mut spaces: Vec<SavedSpace> = Vec::new();
    let mut i: usize = 0;
    while i < s.spaces.len()
        invariant
            i <= s.spaces@.len(),
            spaces@.len() == i,
            forall|j: int|
                0 <= j < i ==> (#[trigger] spaces@[j])@ == space_saved(
                    s@,
                    shell@,
                    s@.spaces[j],
                ),
        decreases s.spaces@.len() - i,
    {
        let sp = &s.spaces[i];
        let mut tabs: Vec<SavedTab> = Vec::new();
        let mut t: usize = 0;
        proof {
            assert(Seq::new(tabs@.len(), |i: int| tabs@[i]@) =~= tabs_saved(
                s@,
                shell@,
                sp.tabs@,
                0,
            ));
        }
        while t < sp.tabs.len()
            invariant
                t <= sp.tabs@.len(),
                Seq::new(tabs@.len(), |i: int| tabs@[i]@) == tabs_saved(
                    s@,
                    shell@,
                    sp.tabs@,
                    t as int,
                ),
            decreases sp.tabs@.len() - t,
        {
            let ghost had = Seq::new(tabs@.len(), |i: int| tabs@[i]@);
            match s.tab(sp.tabs[t]) {
                Some(tab) => match &tab.layout.tree {
                    Some(root) => {
                        let order = tab.layout.panes();
                        let saved_tab = SavedTab {
                            name: tab.name.clone(),
                            tree: save_node(s, shell, root),
                            focused_pane: place_of(&order, tab.focused_pane),
                        };
                        tabs.push(saved_tab);
                        proof {
                            assert(Seq::new(tabs@.len(), |i: int| tabs@[i]@) =~= had.push(
                                saved_tab@,
                            ));
                        }
                    },
                    None => {},
                },
                None => {},
            }
            t = t + 1;
        }
        let x = SavedSpace {
            name: sp.name.clone(),
            cwd: sp.cwd.clone(),
            tabs,
            focused_tab: place_of(&sp.tabs, sp.focused_tab),
        };
        proof {
            assert(x@ == space_saved(s@, shell@, s@.spaces[i as int]));
        }
        spaces.push(x);
        i = i + 1;
    }
    let focused_space: Option<usize> = match s.focused_space {
        Some(id) => {
            let k: usize = s.space_index(id);
            if k < s.spaces.len() {
                Some(k)
            } else {
                None
            }
        },
        None => None,
    };
    let state = SavedState { version: STATE_VERSION, spaces, focused_space, last_seen };
    proof {
        assert(state@.spaces =~= saved(s@, shell@, last_seen).spaces);
    }
    state
}

/// Take a saved session, unless it is of another version; then say so for the log.
pub fn load(state: SavedState) -> (r: Result<SavedState, String>)
    ensures
        state.version == STATE_VERSION ==> r == Ok::<SavedState, String>(state),
        state.version != STATE_VERSION ==> r is Err && r->Err_0@ == "ignoring saved state version "@
            + decimal(state.version as nat) + " (expected 1)"@,
{
    if state.version != STATE_VERSION {
        let mut m = owned("ignoring saved state version ");
        m.append(number(state.version as u64).as_str());
        m.append(" (expected 1)");
        return Err(m);
    }
    Ok(state)
}

// -- commands ----------------------------------------------------------------

/// How to resume a given agent, if that is known. The usual one takes its session as a flag,
/// unless it is the one that has a command for it.
pub open spec fn resumption(usual: Seq<char>, kind: Seq<char>, session: Seq<char>) -> Option<
    Seq<char>,
> {
    if kind == "codex"@ {
        Some("codex resume "@ + session)
    } else if kind == usual {
        Some(usual + " --resume "@ + session)
    } else {
        None
    }
}

/// How to resume a given agent, if that is known. The usual one takes its session as a flag,
/// unless it is the one that has a command for it.
pub fn resume_command(usual: &str, kind: &str, session: &str) -> (r: Option<String>)
    ensures
        opt_text(r) == resumption(usual@, kind@, session@),
{
    if same(kind, "codex") {
        let mut c = owned("codex resume ");
        c.append(session);
        Some(c)
    } else if same(kind, usual) {
        let mut c = owned(usual);
        c.append(" --resume ");
        c.append(session);
        Some(c)
    } else {
        // No known resume flag; a shell is safer than guessing at one.
        None
    }
}

/// The command that brings a pane back: what it was running, where no agent was; and
/// otherwise the agent's own session, where that is wanted and known, or else a shell.
pub open spec fn command_back(
    restore_agents: bool,
    usual: Seq<char>,
    shell: Seq<char>,
    leaf: SavedPaneView,
) -> Seq<char> {
    match leaf.agent_kind {
        None => leaf.cmd,
        Some(kind) => match leaf.agent_session {
            Some(session) if restore_agents && resumption(usual, kind, session) is Some => resumption(
                usual,
                kind,
                session,
            )->Some_0,
            _ => shell,
        },
    }
}

/// Pick the command to bring a pane back.
///
/// Running an agent's bare command again would start a *new* session, which is not what "don't
/// restore agents" means; and starting one unbidden where there is none to resume would be
/// presumptuous. Both come back as shells.
pub fn restore_command(
    restore_agents: bool,
    usual: &str,
    shell: &str,
    leaf: &SavedPane,
) -> (r: String)
    ensures
        r@ == command_back(restore_agents, usual@, shell@, leaf@),
{
    let kind = match &leaf.agent_kind {
        None => {
            return leaf.cmd.clone();
        },
        Some(k) => k,
    };
    if !restore_agents {
        return owned(shell);
    }
    match &leaf.agent_session {
        Some(session) => match resume_command(usual, kind.as_str(), session.as_str()) {
            Some(cmd) => cmd,
            None => owned(shell),
        },
        None => owned(shell),
    }
}

/// An agent comes back as an agent only with a session to resume and where that is asked for.
pub proof fn law_agents_resume_only_with_a_session(
    restore_agents: bool,
    usual: Seq<char>,
    shell: Seq<char>,
    leaf: SavedPaneView,
)
    requires
        leaf.agent_kind is Some,
        !restore_agents || leaf.agent_session is None,
    ensures
        command_back(restore_agents, usual, shell, leaf) == shell,
{
}

// -- trees -------------------------------------------------------------------

/// The panes of a saved tree, in order.
pub open spec fn saved_leaves(n: SavedNodeView) -> Seq<SavedPaneView>
    decreases n,
{
    match n {
        SavedNodeView::Leaf(p) => seq![p],
        SavedNodeView::Split { horizontal, ratio, a, b } => saved_leaves(*a) + saved_leaves(*b),
    }
}

/// A saved tree with ids in place of its panes, taken in order from `cursor` on; 0 where they
/// run out.
pub open spec fn regrown(n: SavedNodeView, ids: Seq<u64>, cursor: int) -> Node
    decreases n,
{
    match n {
        SavedNodeView::Leaf(_) => Node::Leaf(
            if 0 <= cursor < ids.len() {
                ids[cursor]
            } else {
                0
            },
        ),
        SavedNodeView::Split { horizontal, ratio, a, b } => Node::Split {
            axis: if horizontal {
                Axis::Horizontal
            } else {
                Axis::Vertical
            },
            ratio,
            a: Box::new(regrown(*a, ids, cursor)),
            b: Box::new(regrown(*b, ids, cursor + saved_leaves(*a).len())),
        },
    }
}

/// The panes of a saved tree, as text.
pub open spec fn leaf_views(v: Seq<&SavedPane>) -> Seq<SavedPaneView> {
    Seq::new(v.len(), |i: int| v[i]@)
}

/// The panes of a saved tree, added to `out` in order.
pub fn collect_leaves<'a>(n: &'a SavedNode, out: &mut Vec<&'a SavedPane>)
    ensures
        leaf_views(final(out)@) == leaf_views(old(out)@) + saved_leaves(node_view(*n)),
    decreases n,
{
    match n {
        SavedNode::Leaf(p) => {
            out.push(p);
            proof {
                assert(leaf_views(out@) =~= leaf_views(old(out)@) + seq![p@]);
            }
        },
        SavedNode::Split { horizontal, ratio, a, b } => {
            collect_leaves(a, out);
            collect_leaves(b, out);
            proof {
                assert(leaf_views(out@) =~= leaf_views(old(out)@) + (saved_leaves(node_view(**a))
                    + saved_leaves(node_view(**b))));
            }
        },
    }
}

/// Rebuild the tree, using up ids in the order the leaves were collected.
pub fn rebuild(n: &SavedNode, ids: &Vec<u64>, cursor: &mut usize) -> (r: Node)
    requires
        *old(cursor) + saved_leaves(node_view(*n)).len() <= usize::MAX,
    ensures
        r == regrown(node_view(*n), ids@, *old(cursor) as int),
        *final(cursor) == *old(cursor) + saved_leaves(node_view(*n)).len(),
    decreases n,
{
    match n {
        SavedNode::Leaf(_) => {
            let id: u64 = if *cursor < ids.len() {
                ids[*cursor]
            } else {
                0
            };
            *cursor = *cursor + 1;
            Node::Leaf(id)
        },
        SavedNode::Split { horizontal, ratio, a, b } => {
            let x = Box::new(rebuild(a, ids, cursor));
            let y = Box::new(rebuild(b, ids, cursor));
            Node::Split {
                axis: if *horizontal {
                    Axis::Horizontal
                } else {
                    Axis::Vertical
                },
                ratio: *ratio,
                a: x,
                b: y,
            }
        },
    }
}

/// A saved tree keeps its structure and gets its panes in order: what is rebuilt with a list
/// of ids has exactly those, in that order.
pub proof fn law_rebuilding_assigns_in_order(n: SavedNodeView, ids: Seq<u64>, cursor: int)
    requires
        0 <= cursor,
        cursor + saved_leaves(n).len() <= ids.len(),
    ensures
        regrown(n, ids, cursor).leaves() == ids.subrange(
            cursor,
            cursor + saved_leaves(n).len(),
        ),
    decreases n,
{
    match n {
        SavedNodeView::Leaf(_) => {
            assert(regrown(n, ids, cursor).leaves() =~= ids.subrange(cursor, cursor + 1));
        },
        SavedNodeView::Split { horizontal, ratio, a, b } => {
            let m = saved_leaves(*a).len();
            law_rebuilding_assigns_in_order(*a, ids, cursor);
            law_rebuilding_assigns_in_order(*b, ids, cursor + m);
            assert(regrown(n, ids, cursor).leaves() =~= ids.subrange(
                cursor,
                cursor + saved_leaves(n).len(),
            ));
        },
    }
}

/// As many panes are saved of a tree as it has.
pub(crate) proof fn lemma_saved_leaves_len(s: SessionView, shell: Seq<char>, n: Node)
    ensures
        saved_leaves(node_saved(s, shell, n)).len() == n.leaves().len(),
    decreases n,
{
    if let Node::Split { axis, ratio, a, b } = n {
        lemma_saved_leaves_len(s, shell, *a);
        lemma_saved_leaves_len(s, shell, *b);
    }
}

/// What is saved of a tree is enough to build it again: with the ids it had, it is the same.
pub proof fn law_a_saved_tree_rebuilds(
    s: SessionView,
    shell: Seq<char>,
    n: Node,
    ids: Seq<u64>,
    cursor: int,
)
    requires
        0 <= cursor,
        cursor + n.leaves().len() <= ids.len(),
        ids.subrange(cursor, cursor + n.leaves().len()) == n.leaves(),
    ensures
        regrown(node_saved(s, shell, n), ids, cursor) == n,
    decreases n,
{
    match n {
        Node::Leaf(p) => {
            assert(ids.subrange(cursor, cursor + 1)[0] == ids[cursor]);
            assert(n.leaves()[0] == p);
        },
        Node::Split { axis, ratio, a, b } => {
            let l = a.leaves();
            let r = b.leaves();
            lemma_saved_leaves_len(s, shell, *a);
            let whole = ids.subrange(cursor, cursor + n.leaves().len());
            assert(ids.subrange(cursor, cursor + l.len()) =~= l) by {
                assert forall|i: int| 0 <= i < l.len() implies ids[cursor + i] == l[i] by {
                    assert(whole[i] == (l + r)[i]);
                }
            }
            assert(ids.subrange(cursor + l.len(), cursor + l.len() + r.len()) =~= r) by {
                assert forall|i: int| 0 <= i < r.len() implies ids[cursor + l.len() + i] == r[i] by {
                    assert(whole[l.len() + i] == (l + r)[l.len() + i]);
                }
            }
            law_a_saved_tree_rebuilds(s, shell, *a, ids, cursor);
            law_a_saved_tree_rebuilds(s, shell, *b, ids, cursor + l.len());
        },
    }
}

// -- restoring ---------------------------------------------------------------

/// How a session is to be brought back.
pub struct Wishes {
    pub restore_agents: bool,
    /// The program that an agent is unless another is named.
    pub usual: String,
    pub shell: String,
    /// The saved directories that are still there.
    pub dirs: Vec<String>,
    /// Where to be instead.
    pub here: String,
}

/// The same, as text.
pub struct WishesView {
    pub restore_agents: bool,
    pub usual: Seq<char>,
    pub shell: Seq<char>,
    pub dirs: Seq<Seq<char>>,
    pub here: Seq<char>,
}

impl View for Wishes {
    type V = WishesView;

    open spec fn view(&self) -> WishesView {
        WishesView {
            restore_agents: self.restore_agents,
            usual: self.usual@,
            shell: self.shell@,
            dirs: texts(self.dirs@),
            here: self.here@,
        }
    }
}

/// A saved directory, or another where it is gone.
pub open spec fn dir_or(dirs: Seq<Seq<char>>, path: Seq<char>, other: Seq<char>) -> Seq<char> {
    if dirs.contains(path) {
        path
    } else {
        other
    }
}

/// A session with its newest pane named.
pub open spec fn newest_named(s: SessionView, name: Option<Seq<char>>) -> SessionView {
    if name is Some && s.panes.len() > 0 {
        SessionView {
            panes: s.panes.update(
                s.panes.len() - 1,
                PaneView { name, ..s.panes.last() },
            ),
            ..s
        }
    } else {
        s
    }
}

/// One pane brought back. Nothing happens once ids have run out.
pub open spec fn leaf_back(
    s: SessionView,
    w: WishesView,
    space: u64,
    tab: u64,
    leaf: SavedPaneView,
    cwd: Seq<char>,
) -> SessionView {
    if s.next_pane == u64::MAX {
        s
    } else {
        newest_named(
            spawned(
                s,
                space,
                tab,
                command_back(w.restore_agents, w.usual, w.shell, leaf),
                dir_or(w.dirs, leaf.cwd, cwd),
            ),
            leaf.name,
        )
    }
}

/// The first `n` panes of a tab brought back.
pub open spec fn leaves_back(
    s: SessionView,
    w: WishesView,
    space: u64,
    tab: u64,
    leaves: Seq<SavedPaneView>,
    cwd: Seq<char>,
    n: int,
) -> SessionView
    decreases n,
{
    if n <= 0 {
        s
    } else {
        leaf_back(
            leaves_back(s, w, space, tab, leaves, cwd, n - 1),
            w,
            space,
            tab,
            leaves[n - 1],
            cwd,
        )
    }
}

/// The ids that `n` new panes get.
pub open spec fn ids_given(s: SessionView, n: int) -> Seq<u64> {
    Seq::new(
        (if s.next_pane + n <= u64::MAX {
            n
        } else {
            u64::MAX - s.next_pane
        }) as nat,
        |i: int| (s.next_pane + i) as u64,
    )
}

/// A session with a tab's panes in their places.
pub open spec fn with_panes(s: SessionView, tab: u64, layout: Layout, front: Option<u64>) -> SessionView {
    let k = s.tab_at(tab);
    if k < s.tabs.len() {
        SessionView {
            tabs: s.tabs.update(k, TabView { layout, focused_pane: front, ..s.tabs[k] }),
            ..s
        }
    } else {
        s
    }
}

/// One tab brought back: its own panes in place of the one it was made with.
pub open spec fn tab_back(
    s: SessionView,
    w: WishesView,
    bars: Bars,
    space: u64,
    cwd: Seq<char>,
    t: SavedTabView,
    in_front: bool,
) -> SessionView {
    if !s.has_ids() {
        s
    } else {
        let (a, made) = with_tab(s, bars, w.shell, space, Some(t.name));
        match made {
            Err(_) => a,
            Ok(tab) => {
                let seeded = if a.has_tab(tab) {
                    a.tabs[a.tab_at(tab)].layout.order()
                } else {
                    Seq::empty()
                };
                let leaves = saved_leaves(t.tree);
                let b = leaves_back(a, w, space, tab, leaves, cwd, leaves.len() as int);
                let ids = ids_given(a, leaves.len() as int);
                let c = with_panes(
                    b,
                    tab,
                    Layout { tree: Some(regrown(t.tree, ids, 0)) },
                    match t.focused_pane {
                        Some(i) if (i as int) < ids.len() => Some(ids[i as int]),
                        _ => None,
                    },
                );
                let d = killed_all(c, seeded, seeded.len() as int);
                if in_front {
                    space_focused(d, space).0.with_tab_in_front(space, tab)
                } else {
                    d
                }
            },
        }
    }
}

/// The first `n` tabs of a space brought back.
pub open spec fn tabs_back(
    s: SessionView,
    w: WishesView,
    bars: Bars,
    space: u64,
    cwd: Seq<char>,
    tabs: Seq<SavedTabView>,
    front: Option<usize>,
    n: int,
) -> SessionView
    decreases n,
{
    if n <= 0 {
        s
    } else {
        tab_back(
            tabs_back(s, w, bars, space, cwd, tabs, front, n - 1),
            w,
            bars,
            space,
            cwd,
            tabs[n - 1],
            front == Some((n - 1) as usize),
        )
    }
}

/// A session without the first `n` of several tabs.
pub open spec fn tabs_closed(s: SessionView, bars: Bars, tabs: Seq<u64>, n: int) -> SessionView
    decreases n,
{
    if n <= 0 {
        s
    } else {
        tab_closed(tabs_closed(s, bars, tabs, n - 1), bars, tabs[n - 1])
    }
}

/// One space brought back: its own tabs in place of the one it was made with.
pub open spec fn space_back(
    s: SessionView,
    w: WishesView,
    bars: Bars,
    sp: SavedSpaceView,
    is_front: bool,
) -> SessionView {
    if !s.has_ids() || !s.has_space_ids() {
        s
    } else {
        let cwd = dir_or(w.dirs, sp.cwd, w.here);
        let id = s.next_space;
        let a = with_space(s, bars, w.shell, Some(sp.name), cwd);
        let auto = if a.has_space(id) {
            a.spaces[a.space_at(id)].tabs
        } else {
            Seq::empty()
        };
        let front = if is_front {
            sp.focused_tab
        } else {
            None
        };
        let b = tabs_back(a, w, bars, id, cwd, sp.tabs, front, sp.tabs.len() as int);
        tabs_closed(b, bars, auto, auto.len() as int)
    }
}

/// The first `n` spaces brought back.
pub open spec fn spaces_back(
    s: SessionView,
    w: WishesView,
    bars: Bars,
    st: SavedStateView,
    n: int,
) -> SessionView
    decreases n,
{
    if n <= 0 {
        s
    } else {
        space_back(
            spaces_back(s, w, bars, st, n - 1),
            w,
            bars,
            st.spaces[n - 1],
            st.focused_space == Some((n - 1) as usize),
        )
    }
}

/// A session brought back.
pub open spec fn restored(s: SessionView, w: WishesView, bars: Bars, st: SavedStateView) -> SessionView {
    let t = spaces_back(s, w, bars, st, st.spaces.len() as int);
    let u = match st.focused_space {
        Some(i) if (i as int) < t.spaces.len() => space_focused(t, t.spaces[i as int].id).0,
        _ => t,
    };
    u.laid_out(bars)
}

// -- when a program does not start -------------------------------------------

/// A session in which an id was given to a pane that never came.
pub open spec fn burnt(s: SessionView) -> SessionView {
    SessionView { next_pane: (s.next_pane + 1) as u64, ..s }
}

/// One tab brought back, where the program of a pane may not start, and whether that stopped it.
/// The first pane of a tab is the one it is made with; without it, the tab stands empty. Where it
/// is one of the tab's own, those before it have come and the tab still shows what it was made
/// with.
pub open spec fn tab_until(
    s: SessionView,
    w: WishesView,
    bars: Bars,
    space: u64,
    cwd: Seq<char>,
    t: SavedTabView,
    in_front: bool,
    failed: Option<u64>,
) -> (SessionView, bool) {
    let (a, made) = with_tab(s, bars, w.shell, space, Some(t.name));
    let leaves = saved_leaves(t.tree);
    match (failed, made) {
        (Some(f), Ok(tab)) if s.has_ids() && f == s.next_pane => (unstarted(a, f, None), true),
        (Some(f), Ok(tab)) if s.has_ids() && a.next_pane <= f < u64::MAX && f - a.next_pane
            < leaves.len() => (
            burnt(leaves_back(a, w, space, tab, leaves, cwd, f - a.next_pane)),
            true,
        ),
        _ => (tab_back(s, w, bars, space, cwd, t, in_front), false),
    }
}

/// The first `n` tabs of a space brought back, as far as that goes.
pub open spec fn tabs_until(
    s: SessionView,
    w: WishesView,
    bars: Bars,
    space: u64,
    cwd: Seq<char>,
    tabs: Seq<SavedTabView>,
    front: Option<usize>,
    failed: Option<u64>,
    n: int,
) -> (SessionView, bool)
    decreases n,
{
    if n <= 0 {
        (s, false)
    } else {
        let (t, stopped) = tabs_until(s, w, bars, space, cwd, tabs, front, failed, n - 1);
        if stopped {
            (t, true)
        } else {
            tab_until(
                t,
                w,
                bars,
                space,
                cwd,
                tabs[n - 1],
                front == Some((n - 1) as usize),
                failed,
            )
        }
    }
}

/// One space brought back, as far as that goes.
pub open spec fn space_until(
    s: SessionView,
    w: WishesView,
    bars: Bars,
    sp: SavedSpaceView,
    is_front: bool,
    failed: Option<u64>,
) -> (SessionView, bool) {
    let cwd = dir_or(w.dirs, sp.cwd, w.here);
    let a = with_space(s, bars, w.shell, Some(sp.name), cwd);
    let front = if is_front {
        sp.focused_tab
    } else {
        None
    };
    let (b, stopped) = tabs_until(
        a,
        w,
        bars,
        s.next_space,
        cwd,
        sp.tabs,
        front,
        failed,
        sp.tabs.len() as int,
    );
    if !s.has_ids() || !s.has_space_ids() {
        (s, false)
    } else if failed == Some(s.next_pane) {
        (unstarted(a, s.next_pane, None), true)
    } else if stopped {
        (b, true)
    } else {
        (space_back(s, w, bars, sp, is_front), false)
    }
}

/// The first `n` spaces brought back, as far as that goes.
pub open spec fn spaces_until(
    s: SessionView,
    w: WishesView,
    bars: Bars,
    st: SavedStateView,
    failed: Option<u64>,
    n: int,
) -> (SessionView, bool)
    decreases n,
{
    if n <= 0 {
        (s, false)
    } else {
        let (t, stopped) = spaces_until(s, w, bars, st, failed, n - 1);
        if stopped {
            (t, true)
        } else {
            space_until(
                t,
                w,
                bars,
                st.spaces[n - 1],
                st.focused_space == Some((n - 1) as usize),
                failed,
            )
        }
    }
}

/// A session brought back as far as the pane whose program did not start, and whether there was
/// one. Nothing that comes after it is brought back.
pub open spec fn restored_until(
    s: SessionView,
    w: WishesView,
    bars: Bars,
    st: SavedStateView,
    failed: Option<u64>,
) -> (SessionView, bool) {
    let (t, stopped) = spaces_until(s, w, bars, st, failed, st.spaces.len() as int);
    if stopped {
        (t, true)
    } else {
        (restored(s, w, bars, st), false)
    }
}

proof fn lemma_tabs_stay(
    s: SessionView,
    w: WishesView,
    bars: Bars,
    space: u64,
    cwd: Seq<char>,
    tabs: Seq<SavedTabView>,
    front: Option<usize>,
    failed: Option<u64>,
    from: int,
    n: int,
)
    requires
        0 <= from <= n,
        tabs_until(s, w, bars, space, cwd, tabs, front, failed, from).1,
    ensures
        tabs_until(s, w, bars, space, cwd, tabs, front, failed, n) == tabs_until(
            s,
            w,
            bars,
            space,
            cwd,
            tabs,
            front,
            failed,
            from,
        ),
    decreases n,
{
    if from < n {
        lemma_tabs_stay(s, w, bars, space, cwd, tabs, front, failed, from, n - 1);
    }
}

proof fn lemma_spaces_stay(
    s: SessionView,
    w: WishesView,
    bars: Bars,
    st: SavedStateView,
    failed: Option<u64>,
    from: int,
    n: int,
)
    requires
        0 <= from <= n,
        spaces_until(s, w, bars, st, failed, from).1,
    ensures
        spaces_until(s, w, bars, st, failed, n) == spaces_until(s, w, bars, st, failed, from),
    decreases n,
{
    if from < n {
        lemma_spaces_stay(s, w, bars, st, failed, from, n - 1);
    }
}

proof fn lemma_tabs_until(
    s: SessionView,
    w: WishesView,
    bars: Bars,
    space: u64,
    cwd: Seq<char>,
    tabs: Seq<SavedTabView>,
    front: Option<usize>,
    failed: Option<u64>,
    n: int,
)
    ensures
        ({
            let (t, stopped) = tabs_until(s, w, bars, space, cwd, tabs, front, failed, n);
            &&& !stopped ==> t == tabs_back(s, w, bars, space, cwd, tabs, front, n)
            &&& failed is None ==> !stopped
        }),
    decreases n,
{
    if n > 0 {
        lemma_tabs_until(s, w, bars, space, cwd, tabs, front, failed, n - 1);
    }
}

proof fn lemma_spaces_until(
    s: SessionView,
    w: WishesView,
    bars: Bars,
    st: SavedStateView,
    failed: Option<u64>,
    n: int,
)
    ensures
        ({
            let (t, stopped) = spaces_until(s, w, bars, st, failed, n);
            &&& !stopped ==> t == spaces_back(s, w, bars, st, n)
            &&& failed is None ==> !stopped
        }),
    decreases n,
{
    if n > 0 {
        lemma_spaces_until(s, w, bars, st, failed, n - 1);
        let t = spaces_until(s, w, bars, st, failed, n - 1).0;
        let sp = st.spaces[n - 1];
        let cwd = dir_or(w.dirs, sp.cwd, w.here);
        let front = if st.focused_space == Some((n - 1) as usize) {
            sp.focused_tab
        } else {
            None
        };
        lemma_tabs_until(
            with_space(t, bars, w.shell, Some(sp.name), cwd),
            w,
            bars,
            t.next_space,
            cwd,
            sp.tabs,
            front,
            failed,
            sp.tabs.len() as int,
        );
    }
}

/// Only a program that does not start keeps a session from coming back whole.
pub proof fn law_what_starts_comes_back(
    s: SessionView,
    w: WishesView,
    bars: Bars,
    st: SavedStateView,
)
    ensures
        restored_until(s, w, bars, st, None) == (restored(s, w, bars, st), false),
{
    lemma_spaces_until(s, w, bars, st, None, st.spaces.len() as int);
}

// -- doing it ----------------------------------------------------------------

/// A saved directory, or another where it is gone.
fn pick_dir(w: &Wishes, path: &str, other: &str) -> (r: String)
    ensures
        r@ == dir_or(w@.dirs, path@, other@),
{
    if listed(w.dirs.as_slice(), path) {
        owned(path)
    } else {
        owned(other)
    }
}

/// One pane brought back. Gives its id.
fn restore_leaf(s: &mut Session, w: &Wishes, space: u64, tab: u64, leaf: &SavedPane, cwd: &str) -> (r:
    Option<u64>)
    requires
        old(s)@.wf(),
    ensures
        final(s)@.wf(),
        final(s)@ == leaf_back(old(s)@, w@, space, tab, leaf@, cwd@),
        r == (if old(s)@.next_pane == u64::MAX {
            None
        } else {
            Some(old(s)@.next_pane)
        }),
{
    if s.next_pane == u64::MAX {
        return None;
    }
    let cmd = restore_command(w.restore_agents, w.usual.as_str(), w.shell.as_str(), leaf);
    let dir = pick_dir(w, leaf.cwd.as_str(), cwd);
    let id: u64 = s.spawn_pane(space, tab, cmd.as_str(), dir.as_str());
    let ghost mid = s@;
    let n: usize = s.panes.len();
    proof {
        assert(s.panes@.len() == mid.panes.len());
    }
    if leaf.name.is_some() {
        s.panes[n - 1].name = own_opt(as_opt(&leaf.name));
        proof {
            assert(s@.panes =~= newest_named(mid, leaf@.name).panes);
        }
    }
    Some(id)
}

/// The first `n` panes of a tab brought back. Gives their ids.
fn restore_leaves(
    s: &mut Session,
    w: &Wishes,
    space: u64,
    tab: u64,
    leaves: &Vec<&SavedPane>,
    cwd: &str,
    n: usize,
) -> (r: Vec<u64>)
    requires
        old(s)@.wf(),
        n <= leaves@.len(),
    ensures
        final(s)@.wf(),
        final(s)@ == leaves_back(
            old(s)@,
            w@,
            space,
            tab,
            leaf_views(leaves@),
            cwd@,
            n as int,
        ),
        r@ == ids_given(old(s)@, n as int),
        old(s)@.next_pane + n <= u64::MAX ==> final(s)@.next_pane == old(s)@.next_pane + n,
{
    let ghost s0 = s@;
    let ghost ls = leaf_views(leaves@);
    let mut ids: Vec<u64> = Vec::new();
    let mut i: usize = 0;
    proof {
        assert(ids@ =~= ids_given(s0, 0));
    }
    while i < n
        invariant
            i <= n <= leaves@.len(),
            ls == leaf_views(leaves@),
            s@.wf(),
            s@ == leaves_back(s0, w@, space, tab, ls, cwd@, i as int),
            s@.next_pane == (if s0.next_pane + i <= u64::MAX {
                s0.next_pane + i
            } else {
                u64::MAX as int
            }),
            ids@ == ids_given(s0, i as int),
        decreases n - i,
    {
        proof {
            assert(ls[i as int] == leaves@[i as int]@);
        }
        match restore_leaf(s, w, space, tab, leaves[i], cwd) {
            Some(id) => {
                ids.push(id);
            },
            None => {},
        }
        i = i + 1;
        proof {
            assert(ids@ =~= ids_given(s0, i as int));
        }
    }
    ids
}

/// One tab brought back, unless the program of that pane does not start. Gives whether it did
/// not.
fn restore_tab(
    s: &mut Session,
    w: &Wishes,
    bars: Bars,
    space: u64,
    cwd: &str,
    t: &SavedTab,
    in_front: bool,
    failed: Option<u64>,
) -> (stopped: bool)
    requires
        old(s)@.wf(),
    ensures
        final(s)@.wf(),
        (final(s)@, stopped) == tab_until(
            old(s)@,
            w@,
            bars,
            space,
            cwd@,
            t@,
            in_front,
            failed,
        ),
{
    if s.next_tab == u64::MAX || s.next_pane == u64::MAX {
        return false;
    }
    let seed: u64 = s.next_pane;
    let tab = match s.create_tab(bars, w.shell.as_str(), space, Some(t.name.as_str())) {
        Ok(id) => id,
        Err(e) => {
            return false;
        },
    };
    if failed == Some(seed) {
        s.not_started(seed, None);
        return true;
    }
    let seeded: Vec<u64> = match s.tab(tab) {
        Some(x) => x.layout.panes(),
        None => Vec::new(),
    };
    let ghost a = s@;
    let mut leaves: Vec<&SavedPane> = Vec::new();
    collect_leaves(&t.tree, &mut leaves);
    proof {
        assert(leaf_views(leaves@) =~= saved_leaves(node_view(t.tree)));
    }
    let first: u64 = s.next_pane;
    if let Some(f) = failed {
        if first <= f && f < u64::MAX && f - first < leaves.len() as u64 {
            let there = restore_leaves(s, w, space, tab, &leaves, cwd, (f - first) as usize);
            s.next_pane = f + 1;
            return true;
        }
    }
    let ids = restore_leaves(s, w, space, tab, &leaves, cwd, leaves.len());
    let mut cursor: usize = 0;
    let count: usize = leaves.len();
    proof {
        assert(leaf_views(leaves@).len() == leaves@.len());
        assert(count == saved_leaves(node_view(t.tree)).len());
    }
    let tree = rebuild(&t.tree, &ids, &mut cursor);
    let front: Option<u64> = match t.focused_pane {
        Some(i) => if i < ids.len() {
            Some(ids[i])
        } else {
            None
        },
        None => None,
    };
    let k: usize = s.tab_index(tab);
    if k < s.tabs.len() {
        s.set_tab(k, Layout::from_root(tree), front);
    }
    let ghost c = s@;
    let mut i: usize = 0;
    while i < seeded.len()
        invariant
            i <= seeded@.len(),
            s@.wf(),
            s@ == killed_all(c, seeded@, i as int),
        decreases seeded@.len() - i,
    {
        s.kill_pane(seeded[i]);
        i = i + 1;
    }
    if in_front {
        let went = s.focus_space(space);
        s.put_tab_in_front(space, tab);
    }
    false
}

/// One space brought back, as far as that goes.
fn restore_space(
    s: &mut Session,
    w: &Wishes,
    bars: Bars,
    sp: &SavedSpace,
    is_front: bool,
    failed: Option<u64>,
) -> (stopped: bool)
    requires
        old(s)@.wf(),
    ensures
        final(s)@.wf(),
        (final(s)@, stopped) == space_until(old(s)@, w@, bars, sp@, is_front, failed),
{
    if s.next_tab == u64::MAX || s.next_pane == u64::MAX || s.next_space >= u64::MAX - 2 {
        return false;
    }
    let seed: u64 = s.next_pane;
    let cwd = pick_dir(w, sp.cwd.as_str(), w.here.as_str());
    let id: u64 = s.next_space;
    let made = s.create_space(bars, w.shell.as_str(), Some(sp.name.as_str()), cwd.as_str());
    if failed == Some(seed) {
        s.not_started(seed, None);
        return true;
    }
    let auto: Vec<u64> = match s.space(id) {
        Some(x) => {
            let tabs: Vec<u64> = x.tabs.clone();
            proof {
                assert(tabs@ =~= x.tabs@);
            }
            tabs
        },
        None => Vec::new(),
    };
    let front: Option<usize> = if is_front {
        sp.focused_tab
    } else {
        None
    };
    let ghost a = s@;
    let ghost tabs = sp@.tabs;
    let mut i: usize = 0;
    let mut stopped = false;
    while !stopped && i < sp.tabs.len()
        invariant
            i <= sp.tabs@.len(),
            tabs == sp@.tabs,
            s@.wf(),
            (s@, stopped) == tabs_until(a, w@, bars, id, cwd@, tabs, front, failed, i as int),
        decreases sp.tabs@.len() - i,
    {
        let in_front = match front {
            Some(f) => f == i,
            None => false,
        };
        proof {
            assert(tabs[i as int] == sp.tabs@[i as int]@);
        }
        stopped = restore_tab(s, w, bars, id, cwd.as_str(), &sp.tabs[i], in_front, failed);
        i = i + 1;
    }
    if stopped {
        proof {
            let n = tabs.len() as int;
            lemma_tabs_stay(a, w@, bars, id, cwd@, tabs, front, failed, i as int, n);
        }
        return true;
    }
    proof {
        lemma_tabs_until(a, w@, bars, id, cwd@, tabs, front, failed, tabs.len() as int);
    }
    // Drop the placeholder tab that came with the space.
    let ghost b = s@;
    let mut i: usize = 0;
    while i < auto.len()
        invariant
            i <= auto@.len(),
            s@.wf(),
            s@ == tabs_closed(b, bars, auto@, i as int),
        decreases auto@.len() - i,
    {
        s.close_tab(bars, auto[i]);
        i = i + 1;
    }
    false
}

/// Bring a saved session back as far as that goes.
fn restore_some(
    s: &mut Session,
    w: &Wishes,
    bars: Bars,
    st: &SavedState,
    failed: Option<u64>,
) -> (stopped: bool)
    requires
        old(s)@.wf(),
    ensures
        final(s)@.wf(),
        (final(s)@, stopped) == restored_until(old(s)@, w@, bars, st@, failed),
{
    let ghost s0 = s@;
    let ghost all = st@.spaces;
    let mut i: usize = 0;
    let mut stopped = false;
    while !stopped && i < st.spaces.len()
        invariant
            i <= st.spaces@.len(),
            all == st@.spaces,
            s@.wf(),
            (s@, stopped) == spaces_until(s0, w@, bars, st@, failed, i as int),
        decreases st.spaces@.len() - i,
    {
        let is_front = match st.focused_space {
            Some(f) => f == i,
            None => false,
        };
        proof {
            assert(all[i as int] == st.spaces@[i as int]@);
        }
        stopped = restore_space(s, w, bars, &st.spaces[i], is_front, failed);
        i = i + 1;
    }
    if stopped {
        proof {
            lemma_spaces_stay(s0, w@, bars, st@, failed, i as int, all.len() as int);
        }
        return true;
    }
    proof {
        lemma_spaces_until(s0, w@, bars, st@, failed, all.len() as int);
    }
    if let Some(f) = st.focused_space {
        if f < s.spaces.len() {
            let id: u64 = s.spaces[f].id;
            proof {
                assert(s@.spaces[f as int].id == id);
            }
            let went = s.focus_space(id);
        }
    }
    s.relayout(bars);
    false
}

/// Bring a saved session back into one that is running.
pub fn restore(s: &mut Session, w: &Wishes, bars: Bars, st: &SavedState)
    requires
        old(s)@.wf(),
    ensures
        final(s)@.wf(),
        final(s)@ == restored(old(s)@, w@, bars, st@),
{
    proof {
        law_what_starts_comes_back(s@, w@, bars, st@);
    }
    let stopped = restore_some(s, w, bars, st, None);
}

/// Bring a saved session back as far as the pane whose program did not start. Gives whether there
/// was such a pane. The panes before it get the same ids as in a session that comes back whole.
pub fn restore_until(s: &mut Session, w: &Wishes, bars: Bars, st: &SavedState, failed: u64) -> (
    stopped: bool)
    requires
        old(s)@.wf(),
    ensures
        final(s)@.wf(),
        (final(s)@, stopped) == restored_until(old(s)@, w@, bars, st@, Some(failed)),
{
    restore_some(s, w, bars, st, Some(failed))
}

} // verus!
