//! What one daemon hands the next: the session's shape and its panes, by number.
//!
//! Panes are numbered in one order, and the trees refer to them by number, so that ids need
//! not survive the handover.

use crate::agent::{Activity, ActivityView, AgentClass, AgentRuntime, AgentView};
use crate::layout::{Axis, Node};
use crate::pane::Row;
use crate::proto::{AgentState, ViewState};
use crate::seqs::{first_where, lemma_first_where, lemma_first_where_is};
use crate::state::{id_is, Pane, PaneLife, PaneLifeView, PaneView};
use crate::text::{as_opt, copy_texts, opt_text, own_opt, texts};
use vstd::prelude::*;
use vstd::string::*;

verus! {

/// A layout tree with panes by their numbers.
#[derive(Debug)]
pub enum HNode {
    Leaf(usize),
    Split { horizontal: bool, ratio: u32, a: Box<HNode>, b: Box<HNode> },
}

/// An agent, as far as it survives a handover.
#[derive(Debug, Clone, PartialEq, Eq)]
pub struct HAgent {
    pub kind: String,
    pub name: String,
    pub state: AgentState,
    pub authority: String,
    pub reason: String,
    pub seen: bool,
    pub session_id: Option<String>,
    pub queued: Vec<String>,
}

/// A pane, as far as it survives a handover.
#[derive(Debug, Clone, PartialEq, Eq)]
pub struct HPane {
    pub pid: u32,
    pub cmd: String,
    pub cwd: String,
    pub name: Option<String>,
    pub title: Option<String>,
    pub cols: u16,
    pub rows: u16,
    pub agent: Option<HAgent>,
    pub spawned_by: Option<u64>,
    pub role: Option<String>,
    pub pinned: bool,
    pub board: bool,
    pub spawned_by_pane: Option<u64>,
    pub screen: Vec<Row>,
    /// What was read of the program's output but not drawn yet.
    pub pending: Vec<u8>,
    pub cursor_x: u16,
    pub cursor_y: u16,
}

#[derive(Debug)]
pub struct HTab {
    pub name: String,
    pub tree: HNode,
    pub focused_pane: Option<usize>,
}

#[derive(Debug)]
pub struct HSpace {
    pub name: String,
    pub cwd: String,
    pub tabs: Vec<HTab>,
    pub focused_tab: Option<usize>,
}

#[derive(Debug)]
pub struct Manifest {
    pub version: u32,
    pub from_version: String,
    pub focused_space: Option<usize>,
    pub view: ViewState,
    pub client_cols: u16,
    pub client_rows: u16,
    pub spaces: Vec<HSpace>,
    pub panes: Vec<HPane>,
}

impl HNode {
    /// The numbers of the panes, in tree order.
    pub open spec fn leaves(self) -> Seq<usize>
        decreases self,
    {
        match self {
            HNode::Leaf(i) => seq![i],
            HNode::Split { horizontal, ratio, a, b } => a.leaves() + b.leaves(),
        }
    }
}

/// The numbers of the panes of a tree, added to `out` in tree order.
pub fn collect_hleaves(n: &HNode, out: &mut Vec<usize>)
    ensures
        final(out)@ == old(out)@ + n.leaves(),
    decreases n,
{
    match n {
        HNode::Leaf(i) => {
            out.push(*i);
            proof {
                assert(out@ =~= old(out)@ + seq![*i]);
            }
        },
        HNode::Split { horizontal, ratio, a, b } => {
            collect_hleaves(a, out);
            collect_hleaves(b, out);
            proof {
                assert(out@ =~= old(out)@ + (a.leaves() + b.leaves()));
            }
        },
    }
}

/// The pane that a number stands for.
pub open spec fn id_at(ids: Seq<Option<u64>>, i: int) -> Option<u64> {
    if 0 <= i < ids.len() {
        ids[i]
    } else {
        None
    }
}

/// A tree with its panes back in their places, or the first number that stands for none.
pub open spec fn rebuilt(n: HNode, ids: Seq<Option<u64>>) -> Result<Node, usize>
    decreases n,
{
    match n {
        HNode::Leaf(i) => match id_at(ids, i as int) {
            Some(p) => Ok(Node::Leaf(p)),
            None => Err(i),
        },
        HNode::Split { horizontal, ratio, a, b } => match rebuilt(*a, ids) {
            Err(i) => Err(i),
            Ok(x) => match rebuilt(*b, ids) {
                Err(i) => Err(i),
                Ok(y) => Ok(
                    Node::Split {
                        axis: if horizontal {
                            Axis::Horizontal
                        } else {
                            Axis::Vertical
                        },
                        ratio,
                        a: Box::new(x),
                        b: Box::new(y),
                    },
                ),
            },
        },
    }
}

/// A tree with its panes back in their places, or the first number that stands for none.
pub fn rebuild_hnode(n: &HNode, ids: &Vec<Option<u64>>) -> (r: Result<Node, usize>)
    ensures
        r == rebuilt(*n, ids@),
    decreases n,
{
    match n {
        HNode::Leaf(i) => if *i < ids.len() {
            match ids[*i] {
                Some(p) => Ok(Node::Leaf(p)),
                None => Err(*i),
            }
        } else {
            Err(*i)
        },
        HNode::Split { horizontal, ratio, a, b } => match rebuild_hnode(a, ids) {
            Err(i) => Err(i),
            Ok(x) => match rebuild_hnode(b, ids) {
                Err(i) => Err(i),
                Ok(y) => Ok(
                    Node::Split {
                        axis: if *horizontal {
                            Axis::Horizontal
                        } else {
                            Axis::Vertical
                        },
                        ratio: *ratio,
                        a: Box::new(x),
                        b: Box::new(y),
                    },
                ),
            },
        },
    }
}

/// The number of a pane in an order: 0 for one that is not there.
pub open spec fn number_of(order: Seq<u64>, pane: u64) -> int {
    let i = first_where(order, id_is(pane));
    if i < order.len() {
        i
    } else {
        0
    }
}

/// A tree with panes by their numbers in an order.
pub open spec fn by_number(n: Node, order: Seq<u64>) -> HNode
    decreases n,
{
    match n {
        Node::Leaf(p) => HNode::Leaf(number_of(order, p) as usize),
        Node::Split { axis, ratio, a, b } => HNode::Split {
            horizontal: axis == Axis::Horizontal,
            ratio,
            a: Box::new(by_number(*a, order)),
            b: Box::new(by_number(*b, order)),
        },
    }
}

/// Where a pane is in an order.
pub fn position_in(order: &Vec<u64>, pane: u64) -> (r: Option<usize>)
    ensures
        match r {
            Some(i) => i < order@.len() && i == first_where(order@, id_is(pane)),
            None => first_where(order@, id_is(pane)) == order@.len(),
        },
{
    let mut i: usize = 0;
    while i < order.len()
        invariant
            i <= order@.len(),
            forall|j: int| 0 <= j < i ==> !id_is(pane)(#[trigger] order@[j]),
        decreases order@.len() - i,
    {
        if order[i] == pane {
            proof {
                lemma_first_where_is(order@, id_is(pane), i as int);
            }
            return Some(i);
        }
        i = i + 1;
    }
    proof {
        lemma_first_where_is(order@, id_is(pane), i as int);
    }
    None
}

/// A tree with panes by their numbers in an order.
pub fn to_hnode(n: &Node, order: &Vec<u64>) -> (r: HNode)
    ensures
        r == by_number(*n, order@),
    decreases n,
{
    match n {
        Node::Leaf(p) => {
            let i: usize = match position_in(order, *p) {
                Some(i) => i,
                None => 0,
            };
            HNode::Leaf(i)
        },
        Node::Split { axis, ratio, a, b } => HNode::Split {
            horizontal: *axis == Axis::Horizontal,
            ratio: *ratio,
            a: Box::new(to_hnode(a, order)),
            b: Box::new(to_hnode(b, order)),
        },
    }
}

/// The layout tree survives conversion: numbered in an order that holds its panes, and built
/// again with each number standing for the pane that had it, it is the same tree.
pub proof fn law_a_tree_survives_the_handover(n: Node, order: Seq<u64>, ids: Seq<Option<u64>>)
    requires
        order.len() <= usize::MAX,
        ids.len() == order.len(),
        forall|i: int| 0 <= i < order.len() ==> #[trigger] ids[i] == Some(order[i]),
        forall|i: int| 0 <= i < n.leaves().len() ==> order.contains(#[trigger] n.leaves()[i]),
    ensures
        rebuilt(by_number(n, order), ids) == Ok::<Node, usize>(n),
    decreases n,
{
    match n {
        Node::Leaf(p) => {
            assert(n.leaves()[0] == p);
            lemma_first_where(order, id_is(p));
            let k = choose|k: int| 0 <= k < order.len() && order[k] == p;
            let f = first_where(order, id_is(p));
            if f == order.len() {
                assert(!id_is(p)(order[k]));
            }
            assert(id_is(p)(order[f]));
            assert(ids[f] == Some(order[f]));
        },
        Node::Split { axis, ratio, a, b } => {
            let l = a.leaves();
            let r = b.leaves();
            assert forall|i: int| 0 <= i < l.len() implies order.contains(#[trigger] l[i]) by {
                assert(n.leaves()[i] == l[i]);
            }
            assert forall|i: int| 0 <= i < r.len() implies order.contains(#[trigger] r[i]) by {
                assert(n.leaves()[l.len() + i] == r[i]);
            }
            law_a_tree_survives_the_handover(*a, order, ids);
            law_a_tree_survives_the_handover(*b, order, ids);
        },
    }
}

// -- panes -------------------------------------------------------------------

/// The agent that a successor starts with. The clock restarts: a moment of another process
/// means nothing in this one.
pub open spec fn revived(a: HAgent, now: u64) -> AgentView {
    AgentView {
        kind: a.kind@,
        name: a.name@,
        class: AgentClass::Agent,
        state: a.state,
        since: now,
        authority: a.authority@,
        reason: a.reason@,
        seen: a.seen,
        session_id: opt_text(a.session_id),
        queued: texts(a.queued@),
        question: None,
        activity: ActivityView { turns: 0, tools: 0, files: 0, errors: 0, last_tool: None },
        touched: Seq::empty(),
        nudged_since: None,
        alerted_since: None,
    }
}

/// The pane that a successor starts with.
pub open spec fn adopted(h: HPane, now: u64) -> PaneLifeView {
    PaneLifeView {
        title: opt_text(h.title),
        cols: h.cols,
        rows: h.rows,
        agent: match h.agent {
            Some(a) => Some(revived(a, now)),
            None => None,
        },
        spawned_by: h.spawned_by,
        spawned_by_pane: h.spawned_by_pane,
        exited: false,
        board: h.board,
        role: opt_text(h.role),
        model: None,
        succeeded: false,
        handover_told: false,
        succession_depth: 0,
        pinned: h.pinned,
        scroll_offset: 0,
        wants_mouse: false,
        bracketed_paste: false,
    }
}

/// The agent that a successor starts with.
fn revive(a: &HAgent, now: u64) -> (r: AgentRuntime)
    ensures
        r@ == revived(*a, now),
{
    let r = AgentRuntime {
        kind: a.kind.clone(),
        name: a.name.clone(),
        class: AgentClass::Agent,
        state: a.state,
        since: now,
        authority: a.authority.clone(),
        reason: a.reason.clone(),
        seen: a.seen,
        session_id: own_opt(as_opt(&a.session_id)),
        queued: copy_texts(&a.queued),
        question: None,
        activity: Activity::none(),
        touched: Vec::new(),
        nudged_since: None,
        alerted_since: None,
    };
    proof {
        assert(r@.touched =~= Seq::<Seq<char>>::empty());
    }
    r
}

/// The pane that a successor starts with.
pub fn adopt(h: &HPane, now: u64) -> (r: PaneLife)
    ensures
        r@ == adopted(*h, now),
{
    PaneLife {
        title: own_opt(as_opt(&h.title)),
        cols: h.cols,
        rows: h.rows,
        agent: match &h.agent {
            Some(a) => Some(revive(a, now)),
            None => None,
        },
        spawned_by: h.spawned_by,
        spawned_by_pane: h.spawned_by_pane,
        exited: false,
        board: h.board,
        role: own_opt(as_opt(&h.role)),
        model: None,
        succeeded: false,
        handover_told: false,
        succession_depth: 0,
        pinned: h.pinned,
        scroll_offset: 0,
        wants_mouse: false,
        bracketed_paste: false,
    }
}

/// Whether what is handed over of an agent is what there is.
pub open spec fn agent_exported(h: HAgent, a: AgentView) -> bool {
    &&& h.kind@ == a.kind
    &&& h.name@ == a.name
    &&& h.state == a.state
    &&& h.authority@ == a.authority
    &&& h.reason@ == a.reason
    &&& h.seen == a.seen
    &&& opt_text(h.session_id) == a.session_id
    &&& texts(h.queued@) == a.queued
}

/// Whether what is handed over of a pane is what there is.
pub open spec fn exported(h: HPane, p: PaneView) -> bool {
    &&& h.cmd@ == p.cmd
    &&& h.cwd@ == p.cwd
    &&& opt_text(h.name) == p.name
    &&& opt_text(h.title) == p.life.title
    &&& h.cols == p.life.cols
    &&& h.rows == p.life.rows
    &&& match (h.agent, p.life.agent) {
        (Some(a), Some(b)) => agent_exported(a, b),
        (None, None) => true,
        _ => false,
    }
    &&& h.spawned_by == p.life.spawned_by
    &&& opt_text(h.role) == p.life.role
    &&& h.pinned == p.life.pinned
    &&& h.board == p.life.board
    &&& h.spawned_by_pane == p.life.spawned_by_pane
}

/// Everything a successor needs to take a pane over, beside the terminal itself.
pub fn export(p: &Pane, pid: u32, screen: Vec<Row>, pending: Vec<u8>, x: u16, y: u16) -> (r: HPane)
    ensures
        exported(r, p@),
        r.pid == pid,
        r.screen == screen,
        r.pending == pending,
        r.cursor_x == x,
        r.cursor_y == y,
{
    HPane {
        pid,
        cmd: p.cmd.clone(),
        cwd: p.cwd.clone(),
        name: own_opt(as_opt(&p.name)),
        title: own_opt(as_opt(&p.life.title)),
        cols: p.life.cols,
        rows: p.life.rows,
        agent: match &p.life.agent {
            Some(a) => Some(
                HAgent {
                    kind: a.kind.clone(),
                    name: a.name.clone(),
                    state: a.state,
                    authority: a.authority.clone(),
                    reason: a.reason.clone(),
                    seen: a.seen,
                    session_id: own_opt(as_opt(&a.session_id)),
                    queued: copy_texts(&a.queued),
                },
            ),
            None => None,
        },
        spawned_by: p.life.spawned_by,
        role: own_opt(as_opt(&p.life.role)),
        pinned: p.life.pinned,
        board: p.life.board,
        spawned_by_pane: p.life.spawned_by_pane,
        screen,
        pending,
        cursor_x: x,
        cursor_y: y,
    }
}

/// A pane keeps its size, its title, its role, its place on the board, who started it and the
/// agent in it across a handover.
pub proof fn law_a_pane_survives_the_handover(h: HPane, p: PaneView, now: u64)
    requires
        exported(h, p),
    ensures
        ({
            let l = adopted(h, now);
            &&& l.title == p.life.title
            &&& l.cols == p.life.cols
            &&& l.rows == p.life.rows
            &&& l.spawned_by == p.life.spawned_by
            &&& l.spawned_by_pane == p.life.spawned_by_pane
            &&& l.role == p.life.role
            &&& l.pinned == p.life.pinned
            &&& l.board == p.life.board
            &&& l.agent is Some == p.life.agent is Some
            &&& l.agent matches Some(a) ==> a == (AgentView {
                class: AgentClass::Agent,
                since: now,
                question: None,
                activity: ActivityView {
                    turns: 0,
                    tools: 0,
                    files: 0,
                    errors: 0,
                    last_tool: None,
                },
                touched: Seq::empty(),
                nudged_since: None,
                alerted_since: None,
                ..p.life.agent->Some_0
            })
        }),
{
}

} // verus!
