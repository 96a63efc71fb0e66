//! How the panes of a tab tile: a tree of splits with panes at its leaves.
//!
//! The share that a split gives its first half is carried as the bits of a single-precision
//! number. What rectangles it comes to is the renderer's arithmetic; here only the shape of
//! the tree matters, and the order of the panes in it.

use crate::proto::Dir;
use vstd::prelude::*;

verus! {

/// Which way a split divides.
#[derive(Debug, Clone, Copy, PartialEq, Eq, Structural)]
pub enum Axis {
    /// Side by side.
    Horizontal,
    /// One above the other.
    Vertical,
}

/// A pane, or two halves.
#[derive(Debug)]
pub enum Node {
    Leaf(u64),
    Split { axis: Axis, ratio: u32, a: Box<Node>, b: Box<Node> },
}

/// A half, as bits of a single-precision number.
pub const HALF: u32 = 0x3f00_0000;

impl Node {
    /// The panes in stable visual order.
    pub open spec fn leaves(self) -> Seq<u64>
        decreases self,
    {
        match self {
            Node::Leaf(p) => seq![p],
            Node::Split { axis, ratio, a, b } => a.leaves() + b.leaves(),
        }
    }

    /// The tree with two panes' places exchanged.
    pub open spec fn swapped(self, x: u64, y: u64) -> Node
        decreases self,
    {
        match self {
            Node::Leaf(p) => Node::Leaf(
                if p == x {
                    y
                } else if p == y {
                    x
                } else {
                    p
                },
            ),
            Node::Split { axis, ratio, a, b } => Node::Split {
                axis,
                ratio,
                a: Box::new(a.swapped(x, y)),
                b: Box::new(b.swapped(x, y)),
            },
        }
    }

    /// The tree with a new pane beside another.
    pub open spec fn divided(self, target: u64, dir: Dir, new: u64) -> Node
        decreases self,
    {
        match self {
            Node::Leaf(p) => if p == target {
                let old = Box::new(Node::Leaf(p));
                let fresh = Box::new(Node::Leaf(new));
                let axis = if dir == Dir::Left || dir == Dir::Right {
                    Axis::Horizontal
                } else {
                    Axis::Vertical
                };
                if dir == Dir::Left || dir == Dir::Up {
                    Node::Split { axis, ratio: HALF, a: fresh, b: old }
                } else {
                    Node::Split { axis, ratio: HALF, a: old, b: fresh }
                }
            } else {
                self
            },
            Node::Split { axis, ratio, a, b } => Node::Split {
                axis,
                ratio,
                a: Box::new(a.divided(target, dir, new)),
                b: Box::new(b.divided(target, dir, new)),
            },
        }
    }

    /// The tree without a pane: what shared a split with it takes the whole of it. Nothing
    /// where the pane was all there was.
    pub open spec fn without(self, pane: u64) -> Option<Node>
        decreases self,
    {
        match self {
            Node::Leaf(p) => if p == pane {
                None
            } else {
                Some(self)
            },
            Node::Split { axis, ratio, a, b } => match (a.without(pane), b.without(pane)) {
                (None, None) => None,
                (Some(x), None) => Some(x),
                (None, Some(y)) => Some(y),
                (Some(x), Some(y)) => Some(
                    Node::Split { axis, ratio, a: Box::new(x), b: Box::new(y) },
                ),
            },
        }
    }

    /// The panes, added to `out` in stable visual order.
    fn collect(&self, out: &mut Vec<u64>)
        ensures
            final(out)@ == old(out)@ + self.leaves(),
        decreases self,
    {
        match self {
            Node::Leaf(p) => {
                out.push(*p);
                proof {
                    assert(out@ =~= old(out)@ + seq![*p]);
                }
            },
            Node::Split { axis, ratio, a, b } => {
                a.collect(out);
                b.collect(out);
                proof {
                    assert(out@ =~= old(out)@ + (a.leaves() + b.leaves()));
                }
            },
        }
    }

    /// A copy.
    pub fn copy(&self) -> (r: Node)
        ensures
            r == *self,
        decreases self,
    {
        match self {
            Node::Leaf(p) => Node::Leaf(*p),
            Node::Split { axis, ratio, a, b } => Node::Split {
                axis: *axis,
                ratio: *ratio,
                a: Box::new(a.copy()),
                b: Box::new(b.copy()),
            },
        }
    }

    fn swap(&self, x: u64, y: u64) -> (r: Node)
        ensures
            r == self.swapped(x, y),
        decreases self,
    {
        match self {
            Node::Leaf(p) => Node::Leaf(
                if *p == x {
                    y
                } else if *p == y {
                    x
                } else {
                    *p
                },
            ),
            Node::Split { axis, ratio, a, b } => Node::Split {
                axis: *axis,
                ratio: *ratio,
                a: Box::new(a.swap(x, y)),
                b: Box::new(b.swap(x, y)),
            },
        }
    }

    fn divide(&self, target: u64, dir: Dir, new: u64) -> (r: Node)
        ensures
            r == self.divided(target, dir, new),
        decreases self,
    {
        match self {
            Node::Leaf(p) => {
                if *p != target {
                    return Node::Leaf(*p);
                }
                let old_half = Box::new(Node::Leaf(*p));
                let fresh = Box::new(Node::Leaf(new));
                let axis = match dir {
                    Dir::Left | Dir::Right => Axis::Horizontal,
                    Dir::Up | Dir::Down => Axis::Vertical,
                };
                match dir {
                    Dir::Left | Dir::Up => Node::Split { axis, ratio: HALF, a: fresh, b: old_half },
                    Dir::Right | Dir::Down => Node::Split {
                        axis,
                        ratio: HALF,
                        a: old_half,
                        b: fresh,
                    },
                }
            },
            Node::Split { axis, ratio, a, b } => Node::Split {
                axis: *axis,
                ratio: *ratio,
                a: Box::new(a.divide(target, dir, new)),
                b: Box::new(b.divide(target, dir, new)),
            },
        }
    }

    fn remove(&self, pane: u64) -> (r: Option<Node>)
        ensures
            r == self.without(pane),
        decreases self,
    {
        match self {
            Node::Leaf(p) => if *p == pane {
                None
            } else {
                Some(Node::Leaf(*p))
            },
            Node::Split { axis, ratio, a, b } => match (a.remove(pane), b.remove(pane)) {
                (None, None) => None,
                (Some(x), None) => Some(x),
                (None, Some(y)) => Some(y),
                (Some(x), Some(y)) => Some(
                    Node::Split { axis: *axis, ratio: *ratio, a: Box::new(x), b: Box::new(y) },
                ),
            },
        }
    }
}

/// The panes of a tab: a tree, or nothing.
#[derive(Debug)]
pub struct Layout {
    pub tree: Option<Node>,
}

impl Layout {
    /// The panes in stable visual order.
    pub open spec fn order(self) -> Seq<u64> {
        match self.tree {
            Some(n) => n.leaves(),
            None => Seq::empty(),
        }
    }

    /// No panes.
    pub fn new() -> (r: Layout)
        ensures
            r.tree is None,
    {
        Layout { tree: None }
    }

    /// One pane.
    pub fn single(pane: u64) -> (r: Layout)
        ensures
            r.tree == Some(Node::Leaf(pane)),
            r.order() == seq![pane],
    {
        Layout { tree: Some(Node::Leaf(pane)) }
    }

    /// The panes of a tree.
    pub fn from_root(n: Node) -> (r: Layout)
        ensures
            r.tree == Some(n),
    {
        Layout { tree: Some(n) }
    }

    /// A copy.
    pub fn copy(&self) -> (r: Layout)
        ensures
            r == *self,
    {
        match &self.tree {
            Some(n) => Layout { tree: Some(n.copy()) },
            None => Layout { tree: None },
        }
    }

    /// The panes in stable visual order.
    pub fn panes(&self) -> (r: Vec<u64>)
        ensures
            r@ == self.order(),
    {
        let mut out: Vec<u64> = Vec::new();
        if let Some(n) = &self.tree {
            n.collect(&mut out);
            proof {
                assert(out@ =~= n.leaves());
            }
        }
        out
    }

    /// Whether there is no pane.
    pub fn is_empty(&self) -> (r: bool)
        ensures
            r == (self.tree is None),
    {
        self.tree.is_none()
    }

    /// Whether a pane is here.
    pub fn contains(&self, pane: u64) -> (r: bool)
        ensures
            r == self.order().contains(pane),
    {
        let ps = self.panes();
        let mut i: usize = 0;
        while i < ps.len()
            invariant
                i <= ps@.len(),
                ps@ == self.order(),
                forall|j: int| 0 <= j < i ==> ps@[j] != pane,
            decreases ps@.len() - i,
        {
            if ps[i] == pane {
                return true;
            }
            i = i + 1;
        }
        false
    }

    /// Take a pane out. What shared a split with it gets its room.
    pub fn close(&mut self, pane: u64)
        ensures
            final(self).tree == (match old(self).tree {
                Some(n) => n.without(pane),
                None => None,
            }),
    {
        let left = match &self.tree {
            Some(n) => n.remove(pane),
            None => None,
        };
        self.tree = left;
    }

    /// Put a new pane beside another. Whether there is room is not asked here.
    pub fn split(&mut self, target: u64, dir: Dir, new: u64)
        ensures
            final(self).tree == (match old(self).tree {
                Some(n) => Some(n.divided(target, dir, new)),
                None => None,
            }),
    {
        let more = match &self.tree {
            Some(n) => Some(n.divide(target, dir, new)),
            None => None,
        };
        self.tree = more;
    }

    /// Exchange the places of two panes.
    pub fn swap(&mut self, x: u64, y: u64) -> (r: bool)
        ensures
            r == (old(self).order().contains(x) && old(self).order().contains(y)),
            final(self).tree == (if r {
                Some(old(self).tree->Some_0.swapped(x, y))
            } else {
                old(self).tree
            }),
    {
        if !self.contains(x) || !self.contains(y) {
            return false;
        }
        let turned = match &self.tree {
            Some(n) => Some(n.swap(x, y)),
            None => None,
        };
        self.tree = turned;
        true
    }
}

// -- laws --------------------------------------------------------------------

/// Panes with one left out.
pub open spec fn leaving_out(s: Seq<u64>, pane: u64) -> Seq<u64>
    decreases s.len(),
{
    if s.len() == 0 {
        s
    } else if s.last() == pane {
        leaving_out(s.drop_last(), pane)
    } else {
        leaving_out(s.drop_last(), pane).push(s.last())
    }
}

proof fn lemma_leaving_out_of_both(s: Seq<u64>, t: Seq<u64>, pane: u64)
    ensures
        leaving_out(s + t, pane) == leaving_out(s, pane) + leaving_out(t, pane),
    decreases t.len(),
{
    if t.len() == 0 {
        assert(s + t =~= s);
        assert(leaving_out(s, pane) + leaving_out(t, pane) =~= leaving_out(s, pane));
    } else {
        lemma_leaving_out_of_both(s, t.drop_last(), pane);
        assert((s + t).drop_last() =~= s + t.drop_last());
        assert((s + t).last() == t.last());
        assert(leaving_out(s, pane) + leaving_out(t.drop_last(), pane).push(t.last()) =~= (
        leaving_out(s, pane) + leaving_out(t.drop_last(), pane)).push(t.last()));
    }
}

/// Closing a pane takes it out and changes the order of no other.
pub proof fn law_closing_keeps_the_others_in_order(n: Node, pane: u64)
    ensures
        (match n.without(pane) {
            Some(m) => m.leaves(),
            None => Seq::empty(),
        }) == leaving_out(n.leaves(), pane),
    decreases n,
{
    match n {
        Node::Leaf(p) => {
            let s = seq![p];
            assert(s.drop_last() =~= Seq::<u64>::empty());
            assert(leaving_out(s.drop_last(), pane) =~= Seq::<u64>::empty());
            assert(Seq::<u64>::empty().push(p) =~= s);
        },
        Node::Split { axis, ratio, a, b } => {
            law_closing_keeps_the_others_in_order(*a, pane);
            law_closing_keeps_the_others_in_order(*b, pane);
            lemma_leaving_out_of_both(a.leaves(), b.leaves(), pane);
            let x = leaving_out(a.leaves(), pane);
            let y = leaving_out(b.leaves(), pane);
            assert(x + Seq::<u64>::empty() =~= x);
            assert(Seq::<u64>::empty() + y =~= y);
        },
    }
}

/// Splitting beside a pane that is not there changes nothing.
proof fn lemma_divided_elsewhere(n: Node, target: u64, dir: Dir, new: u64)
    requires
        !n.leaves().contains(target),
    ensures
        n.divided(target, dir, new) == n,
    decreases n,
{
    match n {
        Node::Leaf(p) => {
            assert(n.leaves()[0] == p);
        },
        Node::Split { axis, ratio, a, b } => {
            let l = a.leaves();
            let r = b.leaves();
            assert forall|i: int| 0 <= i < l.len() implies l[i] != target by {
                assert((l + r)[i] == l[i]);
            }
            assert forall|i: int| 0 <= i < r.len() implies r[i] != target by {
                assert((l + r)[l.len() + i] == r[i]);
            }
            lemma_divided_elsewhere(*a, target, dir, new);
            lemma_divided_elsewhere(*b, target, dir, new);
        },
    }
}

/// A new pane stands right beside the one it was split from, before it for left and up and
/// after it for right and down, and no other pane changes its place in the order.
pub proof fn law_a_new_pane_stands_beside_its_neighbour(
    n: Node,
    target: u64,
    dir: Dir,
    new: u64,
    i: int,
)
    requires
        0 <= i < n.leaves().len(),
        n.leaves()[i] == target,
        n.leaves().no_duplicates(),
    ensures
        n.divided(target, dir, new).leaves() == n.leaves().insert(
            if dir == Dir::Left || dir == Dir::Up {
                i
            } else {
                i + 1
            },
            new,
        ),
    decreases n,
{
    let at = if dir == Dir::Left || dir == Dir::Up {
        i
    } else {
        i + 1
    };
    match n {
        Node::Leaf(p) => {
            assert(n.leaves() =~= seq![p]);
            let d = n.divided(target, dir, new);
            reveal_with_fuel(Node::leaves, 2);
            assert(d.leaves() =~= n.leaves().insert(at, new));
        },
        Node::Split { axis, ratio, a, b } => {
            let l = a.leaves();
            let r = b.leaves();
            assert(n.leaves() =~= l + r);
            if i < l.len() {
                assert(l[i] == target);
                assert forall|j: int, k: int| 0 <= j < l.len() && 0 <= k < l.len() && j != k implies l[j]
                    != l[k] by {
                    assert((l + r)[j] == l[j] && (l + r)[k] == l[k]);
                }
                law_a_new_pane_stands_beside_its_neighbour(*a, target, dir, new, i);
                assert(!r.contains(target)) by {
                    if r.contains(target) {
                        let k = choose|k: int| 0 <= k < r.len() && r[k] == target;
                        assert((l + r)[l.len() + k] == target && (l + r)[i] == target);
                    }
                }
                lemma_divided_elsewhere(*b, target, dir, new);
                assert(l.insert(at, new) + r =~= (l + r).insert(at, new));
            } else {
                let k = i - l.len();
                assert(r[k] == target);
                assert forall|j: int, m: int| 0 <= j < r.len() && 0 <= m < r.len() && j != m implies r[j]
                    != r[m] by {
                    assert((l + r)[l.len() + j] == r[j] && (l + r)[l.len() + m] == r[m]);
                }
                law_a_new_pane_stands_beside_its_neighbour(*b, target, dir, new, k);
                assert(!l.contains(target)) by {
                    if l.contains(target) {
                        let j = choose|j: int| 0 <= j < l.len() && l[j] == target;
                        assert((l + r)[j] == target && (l + r)[i] == target);
                    }
                }
                lemma_divided_elsewhere(*a, target, dir, new);
                assert(l + r.insert(at - l.len(), new) =~= (l + r).insert(at, new));
            }
        },
    }
}

/// Swapping twice is not swapping at all.
pub proof fn law_swapping_twice_is_nothing(n: Node, x: u64, y: u64)
    ensures
        n.swapped(x, y).swapped(x, y) == n,
    decreases n,
{
    if let Node::Split { axis, ratio, a, b } = n {
        law_swapping_twice_is_nothing(*a, x, y);
        law_swapping_twice_is_nothing(*b, x, y);
    }
}

/// Swapping exchanges two places in the order and moves nothing else.
pub proof fn law_swapping_exchanges_two_places(n: Node, x: u64, y: u64)
    ensures
        n.swapped(x, y).leaves().len() == n.leaves().len(),
        forall|i: int|
            0 <= i < n.leaves().len() ==> #[trigger] n.swapped(x, y).leaves()[i] == (if n.leaves()[i]
                == x {
                y
            } else if n.leaves()[i] == y {
                x
            } else {
                n.leaves()[i]
            }),
    decreases n,
{
    if let Node::Split { axis, ratio, a, b } = n {
        law_swapping_exchanges_two_places(*a, x, y);
        law_swapping_exchanges_two_places(*b, x, y);
        let l = a.leaves();
        let s = n.swapped(x, y).leaves();
        assert forall|i: int| 0 <= i < n.leaves().len() implies #[trigger] s[i] == (if n.leaves()[i]
            == x {
            y
        } else if n.leaves()[i] == y {
            x
        } else {
            n.leaves()[i]
        }) by {
            if i < l.len() {
                assert(s[i] == a.swapped(x, y).leaves()[i]);
            } else {
                assert(s[i] == b.swapped(x, y).leaves()[i - l.len()]);
            }
        }
    }
}

} // verus!
