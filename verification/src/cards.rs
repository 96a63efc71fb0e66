//! The one seam between the personal board and the agents': a card becomes a task.

use crate::seqs::{count_where, lemma_count_take};
use crate::state::Session;
use crate::tasks::{adding, Board, BoardView, Task, TaskView};
use crate::text::{decimal, number, opt_text, owned, trim, trimmed};
use vstd::prelude::*;
use vstd::string::*;

verus! {

/// A card of the personal board, as far as handing it over reads it.
#[derive(Debug, Clone, PartialEq, Eq)]
pub struct Card {
    pub id: u64,
    pub title: String,
    pub body: String,
    /// Which project it is about, by space name.
    pub project: Option<String>,
    /// The task it was handed over as.
    pub handed: Option<u64>,
}

/// Why a card was not handed over.
#[derive(Debug, Clone, Copy, PartialEq, Eq, Structural)]
pub enum HandOverError {
    BoardOff,
    NoSuch(u64),
    Already { card: u64, task: u64 },
    NoProject(u64),
    /// There is nothing in it.
    Empty,
}

impl HandOverError {
    /// The sentence a person is shown.
    pub open spec fn text(self) -> Seq<char> {
        match self {
            HandOverError::BoardOff =>
                "the agents' board is off — set agents.board = true in config.toml to hand a card over"@,
            HandOverError::NoSuch(c) => "no card #"@ + decimal(c as nat),
            HandOverError::Already { card, task } => "card #"@ + decimal(card as nat)
                + " is already task #"@ + decimal(task as nat),
            HandOverError::NoProject(c) => "card #"@ + decimal(c as nat)
                + " names no project, so no agent could be told where to work"@,
            HandOverError::Empty => "a task needs a description"@,
        }
    }

    /// The sentence a person is shown.
    pub fn message(&self) -> (r: String)
        ensures
            r@ == self.text(),
    {
        match self {
            HandOverError::BoardOff => owned(
                "the agents' board is off — set agents.board = true in config.toml to hand a card over",
            ),
            HandOverError::NoSuch(c) => {
                let mut m = owned("no card #");
                m.append(number(*c).as_str());
                m
            },
            HandOverError::Already { card, task } => {
                let mut m = owned("card #");
                m.append(number(*card).as_str());
                m.append(" is already task #");
                m.append(number(*task).as_str());
                m
            },
            HandOverError::NoProject(c) => {
                let mut m = owned("card #");
                m.append(number(*c).as_str());
                m.append(" names no project, so no agent could be told where to work");
                m
            },
            HandOverError::Empty => owned("a task needs a description"),
        }
    }
}

/// What the task of a card says: its title, and its description where it has one.
pub open spec fn card_text(c: Card) -> Seq<char> {
    if trimmed(c.body@).len() == 0 {
        c.title@
    } else {
        c.title@ + "\n\n"@ + trimmed(c.body@)
    }
}

/// What handing a card over does to the agents' board.
pub open spec fn handing(
    b: BoardView,
    board_on: bool,
    number: u64,
    card: Option<Card>,
    now: u64,
) -> (BoardView, Result<TaskView, HandOverError>) {
    if !board_on {
        (b, Err(HandOverError::BoardOff))
    } else {
        match card {
            None => (b, Err(HandOverError::NoSuch(number))),
            Some(c) => match (c.handed, c.project) {
                (Some(task), _) => (b, Err(HandOverError::Already { card: number, task })),
                (None, None) => (b, Err(HandOverError::NoProject(number))),
                (None, Some(p)) => {
                    let (after, r) = adding(b, card_text(c), "kanban"@, Some(p@), now);
                    match r {
                        Ok(t) => (after, Ok(t)),
                        Err(_) => (after, Err(HandOverError::Empty)),
                    }
                },
            },
        }
    }
}

/// Put a card's work on the agents' board. The caller marks the card with the task that comes
/// back: only a task that really landed gets marked.
pub fn hand_over(board: &mut Board, board_on: bool, card_number: u64, card: Option<&Card>, now: u64) -> (r:
    Result<Task, HandOverError>)
    requires
        old(board)@.wf(),
        old(board)@.next_id < u64::MAX,
    ensures
        (
            final(board)@,
            match r {
                Ok(t) => Ok::<TaskView, HandOverError>(t@),
                Err(e) => Err(e),
            },
        ) == handing(
            old(board)@,
            board_on,
            card_number,
            match card {
                Some(c) => Some(*c),
                None => None,
            },
            now,
        ),
        final(board)@.wf(),
{
    if !board_on {
        return Err(HandOverError::BoardOff);
    }
    let c = match card {
        Some(c) => c,
        None => {
            return Err(HandOverError::NoSuch(card_number));
        },
    };
    if let Some(task) = c.handed {
        return Err(HandOverError::Already { card: card_number, task });
    }
    let project = match &c.project {
        Some(p) => p,
        None => {
            return Err(HandOverError::NoProject(card_number));
        },
    };
    let body = trim(c.body.as_str());
    let mut text = c.title.clone();
    if !body.as_str().is_empty() {
        text.append("\n\n");
        text.append(body.as_str());
    }
    match board.add_at(text.as_str(), "kanban", Some(project.as_str()), now) {
        Ok(t) => Ok(t),
        Err(e) => Err(HandOverError::Empty),
    }
}

/// The project that a board is read for: that of the space it is asked in, where there is one.
pub fn board_project(s: &Session, space: Option<u64>) -> (r: Option<String>)
    ensures
        opt_text(r) == (match space {
            Some(id) if s@.has_space(id) => Some(s@.spaces[s@.space_at(id)].name),
            _ => None,
        }),
{
    match space {
        Some(id) => match s.space(id) {
            Some(sp) => Some(sp.name.clone()),
            None => None,
        },
        None => None,
    }
}

/// Until when a card counts as due today, in unix millis.
pub open spec fn today(now: u64) -> u64 {
    if now + 43_200_000 <= u64::MAX {
        (now + 43_200_000) as u64
    } else {
        u64::MAX
    }
}

/// A card that is due today, or late.
pub open spec fn is_due(now: u64) -> spec_fn(u64) -> bool {
    |due: u64| due <= today(now)
}

/// How many cards are due today or late, given when each that is waiting is due.
pub fn count_due(dues: &Vec<u64>, now: u64) -> (r: usize)
    ensures
        r as nat == count_where(dues@, is_due(now)),
{
    let until: u64 = due_until(now);
    let mut n: usize = 0;
    let mut i: usize = 0;
    proof {
        assert(dues@.take(0) =~= Seq::<u64>::empty());
    }
    while i < dues.len()
        invariant
            i <= dues@.len(),
            n <= i,
            until == today(now),
            n as nat == count_where(dues@.take(i as int), is_due(now)),
        decreases dues@.len() - i,
    {
        proof {
            lemma_count_take(dues@, is_due(now), i as int);
        }
        if dues[i] <= until {
            n = n + 1;
        }
        i = i + 1;
    }
    proof {
        assert(dues@.take(i as int) =~= dues@);
    }
    n
}

/// Until when a card counts as due today, in unix millis. A card that is due today is stored at
/// today's local noon, so half a day ahead takes in today's and not tomorrow's.
pub fn due_until(now: u64) -> (r: u64)
    ensures
        r == today(now),
{
    now.saturating_add(43_200_000)
}

/// What is logged of a card that was due, and went over or did not.
pub open spec fn due_text(card: u64, r: Result<u64, HandOverError>) -> Seq<char> {
    "kanban: card #"@ + decimal(card as nat) + match r {
        Ok(task) => " handed over as task #"@ + decimal(task as nat),
        Err(e) => " could not be handed over: "@ + e.text(),
    }
}

/// What is logged of a card that was due. Nobody may be watching, and it is tried again.
pub fn due_line(card: u64, r: Result<u64, HandOverError>) -> (line: String)
    ensures
        line@ == due_text(card, r),
{
    let mut m = owned("kanban: card #");
    m.append(number(card).as_str());
    match r {
        Ok(task) => {
            m.append(" handed over as task #");
            m.append(number(task).as_str());
        },
        Err(e) => {
            m.append(" could not be handed over: ");
            m.append(e.message().as_str());
        },
    }
    m
}

/// A card goes over once, only to a board that is open, and only with a project to work in.
pub proof fn law_a_card_goes_over_once(
    b: BoardView,
    board_on: bool,
    number: u64,
    c: Card,
    now: u64,
)
    requires
        c.handed is Some || c.project is None || !board_on,
    ensures
        handing(b, board_on, number, Some(c), now).1 is Err,
        handing(b, board_on, number, Some(c), now).0 == b,
{
}

} // verus!
