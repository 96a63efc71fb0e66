//! The plain values that travel between the daemon and its clients.

use vstd::prelude::*;

verus! {

/// One answer an agent offers: the key to press and the words beside it.
#[derive(Debug, Clone, PartialEq, Eq)]
pub struct Choice {
    pub key: String,
    pub label: String,
}

/// A choice, as text.
pub struct ChoiceView {
    pub key: Seq<char>,
    pub label: Seq<char>,
}

impl View for Choice {
    type V = ChoiceView;

    open spec fn view(&self) -> ChoiceView {
        ChoiceView { key: self.key@, label: self.label@ }
    }
}

/// What a blocked agent is waiting to be told.
#[derive(Debug, Clone, PartialEq, Eq)]
pub struct Question {
    pub text: String,
    pub options: Vec<Choice>,
}

/// A question, as text.
pub struct QuestionView {
    pub text: Seq<char>,
    pub options: Seq<ChoiceView>,
}

impl View for Question {
    type V = QuestionView;

    open spec fn view(&self) -> QuestionView {
        QuestionView {
            text: self.text@,
            options: Seq::new(self.options@.len(), |i: int| self.options@[i]@),
        }
    }
}

/// A way to go on the screen.
#[derive(Debug, Clone, Copy, PartialEq, Eq, Structural)]
pub enum Dir {
    Left,
    Right,
    Up,
    Down,
}

/// Cells of the screen.
#[derive(Debug, Clone, Copy, PartialEq, Eq, Structural)]
pub struct Rect {
    pub x: u16,
    pub y: u16,
    pub w: u16,
    pub h: u16,
}

/// No cells at all.
pub open spec fn no_rect() -> Rect {
    Rect { x: 0, y: 0, w: 0, h: 0 }
}

/// A number less another, or nothing.
pub open spec fn less(a: u16, b: int) -> u16 {
    if a < b {
        0
    } else {
        (a - b) as u16
    }
}

impl Rect {
    /// These cells.
    pub fn new(x: u16, y: u16, w: u16, h: u16) -> (r: Rect)
        ensures
            r == (Rect { x, y, w, h }),
    {
        Rect { x, y, w, h }
    }

    /// What is left inside a border one cell wide.
    pub open spec fn inside(self) -> Rect {
        Rect {
            x: if self.x == u16::MAX {
                u16::MAX
            } else {
                (self.x + 1) as u16
            },
            y: if self.y == u16::MAX {
                u16::MAX
            } else {
                (self.y + 1) as u16
            },
            w: less(self.w, 2),
            h: less(self.h, 2),
        }
    }

    /// What is left inside a border one cell wide.
    pub fn inset(&self) -> (r: Rect)
        ensures
            r == self.inside(),
    {
        Rect {
            x: self.x.saturating_add(1),
            y: self.y.saturating_add(1),
            w: self.w.saturating_sub(2),
            h: self.h.saturating_sub(2),
        }
    }

    /// Whether every cell of `other` is one of these.
    pub open spec fn covers(self, other: Rect) -> bool {
        other.w == 0 || other.h == 0 || (self.x <= other.x && other.x + other.w <= self.x + self.w
            && self.y <= other.y && other.y + other.h <= self.y + self.h)
    }

    /// Whether no cell is in both.
    pub open spec fn apart(self, other: Rect) -> bool {
        ||| self.w == 0 || self.h == 0 || other.w == 0 || other.h == 0
        ||| self.x + self.w <= other.x
        ||| other.x + other.w <= self.x
        ||| self.y + self.h <= other.y
        ||| other.y + other.h <= self.y
    }
}

/// What an agent is doing.
#[derive(Debug, Clone, Copy, PartialEq, Eq, Structural)]
pub enum AgentState {
    /// In the middle of a turn.
    Working,
    /// Waiting to be told something, in no hurry.
    Idle,
    /// Waiting for an answer.
    Blocked,
    /// Finished, and nobody has looked yet.
    Done,
}

impl AgentState {
    /// Whether a person should look.
    pub open spec fn wants_you(self) -> bool {
        self == AgentState::Blocked || self == AgentState::Done
    }

    /// Whether a person should look.
    pub fn needs_attention(&self) -> (r: bool)
        ensures
            r == self.wants_you(),
    {
        matches!(self, AgentState::Blocked | AgentState::Done)
    }
}

/// What is open around the panes.
#[derive(Debug, Clone, Copy, PartialEq, Eq, Structural)]
pub struct ViewState {
    pub sidebar_open: bool,
    pub bus_open: bool,
    pub sidebar_width: u16,
    pub bus_width: u16,
    /// The pane that has the whole room, where one has.
    pub zoom: Option<u64>,
}

} // verus!
