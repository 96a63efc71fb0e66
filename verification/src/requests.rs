//! Commands about notes, cards and files: what a person is told of how they went, and what the
//! client that asked is sent.
//!
//! Reading and writing is done elsewhere; what comes of it is decided here. Every command about
//! a card is answered with the whole board, also one that was refused: a client holds one
//! picture and replaces it, so a card is never drawn in a state it was never in.

use crate::cards::board_project;
use crate::commands::Level;
use crate::documents::is_there;
use crate::engine::{Engine, EngineView, Event};
use crate::notebook::{init_text, vault_init_notice};
use crate::state::SessionView;
use crate::text::{decimal, number, opt_text, owned};
use vstd::prelude::*;
use vstd::string::*;

verus! {

/// What a client asked for.
#[derive(Debug, Clone, PartialEq, Eq)]
pub enum Ask {
    /// Something about its notes.
    Notes,
    /// To save a note.
    SaveNote { space: u64, path: String },
    /// To make a vault there.
    MakeVault { root: String },
    /// The board, as a project sees it.
    Board { space: Option<u64> },
    NewCard { space: Option<u64> },
    EditCard,
    MoveCard,
    Comment,
    Archive,
    HandOff { card: u64 },
    RenameColumn,
    /// The files of a project.
    Files,
    ReadFile { path: String },
    SaveFile { path: String },
    Attach { name: String },
}

/// How it went.
#[derive(Debug, Clone, PartialEq, Eq)]
pub enum Went {
    /// It was done.
    Well,
    /// There is nothing to say.
    Nothing,
    /// It was done, and for the first time.
    Fresh,
    /// It was done, as a task with this number.
    AsTask(u64),
    /// It was not, and this is why.
    Badly(String),
}

/// What a client is sent.
#[derive(Debug, Clone, PartialEq, Eq)]
pub enum Answer {
    /// What it asked of its notes.
    Notes,
    /// The note, as it is now.
    Note { space: u64, path: String },
    /// The whole board, as this project sees it.
    Board { project: Option<String> },
    /// Its files, or the one it asked for.
    Files,
}

/// The same, as text.
pub enum AnswerView {
    Notes,
    Note { space: u64, path: Seq<char> },
    Board { project: Option<Seq<char>> },
    Files,
}

impl View for Answer {
    type V = AnswerView;

    open spec fn view(&self) -> AnswerView {
        match *self {
            Answer::Notes => AnswerView::Notes,
            Answer::Note { space, path } => AnswerView::Note { space, path: path@ },
            Answer::Board { project } => AnswerView::Board { project: opt_text(project) },
            Answer::Files => AnswerView::Files,
        }
    }
}

/// What is left to be done.
#[derive(Debug, Clone, PartialEq, Eq)]
pub struct Followed {
    /// For the client that asked, and for nobody else.
    pub answer: Option<Answer>,
    /// The language server is told of the text.
    pub sync: bool,
    /// The vaults are looked through again.
    pub refresh: bool,
}

/// The same, as values.
pub struct FollowedView {
    pub answer: Option<AnswerView>,
    pub sync: bool,
    pub refresh: bool,
}

impl View for Followed {
    type V = FollowedView;

    open spec fn view(&self) -> FollowedView {
        FollowedView {
            answer: match self.answer {
                Some(a) => Some(a@),
                None => None,
            },
            sync: self.sync,
            refresh: self.refresh,
        }
    }
}

/// A command about a card.
pub open spec fn about_cards(a: Ask) -> bool {
    a is NewCard || a is EditCard || a is MoveCard || a is Comment || a is Archive || a is HandOff
        || a is RenameColumn
}

/// What is said of a command that failed.
pub open spec fn complained(a: Ask, e: Seq<char>) -> Option<(Level, Seq<char>)> {
    match a {
        Ask::SaveNote { .. } => Some((Level::Error, "could not save the note: "@ + e)),
        Ask::MakeVault { .. } => Some((Level::Error, "could not make a vault: "@ + e)),
        Ask::NewCard { .. } => Some((Level::Warn, "could not add the card: "@ + e)),
        Ask::EditCard => Some((Level::Warn, "could not change the card: "@ + e)),
        Ask::MoveCard => Some((Level::Warn, "could not move the card: "@ + e)),
        Ask::Comment => Some((Level::Warn, "could not add the comment: "@ + e)),
        Ask::Archive => Some((Level::Warn, "could not archive the card: "@ + e)),
        Ask::HandOff { .. } => Some((Level::Warn, e)),
        Ask::ReadFile { path } => Some(
            (Level::Warn, "could not open "@ + path@ + ": "@ + e),
        ),
        Ask::SaveFile { path } => Some(
            (Level::Error, "could not save "@ + path@ + ": "@ + e),
        ),
        Ask::Attach { name } => Some(
            (Level::Warn, "could not attach "@ + name@ + ": "@ + e),
        ),
        _ => None,
    }
}

/// What a person is told, if anything.
pub open spec fn said(a: Ask, w: Went) -> Option<(Level, Seq<char>)> {
    match (a, w) {
        (Ask::MakeVault { root }, Went::Fresh) => Some((Level::Info, init_text(root@, true))),
        (Ask::HandOff { card }, Went::AsTask(t)) => Some((Level::Info, handed_text(card, t))),
        (_, Went::Badly(e)) => complained(a, e@),
        (Ask::MakeVault { root }, _) => Some((Level::Info, init_text(root@, false))),
        _ => None,
    }
}

/// What is said of a card that went over.
pub open spec fn handed_text(card: u64, task: u64) -> Seq<char> {
    "card #"@ + decimal(card as nat) + " is on the agents' board as task #"@ + decimal(task as nat)
}

/// Whether the shape of the session is told anew. A card that is handed over says so itself.
pub open spec fn reshapes(a: Ask, w: Went) -> bool {
    match a {
        Ask::NewCard { .. } => !(w is Badly),
        Ask::EditCard | Ask::MoveCard | Ask::Comment | Ask::Archive | Ask::RenameColumn => true,
        _ => false,
    }
}

/// The project that a board is seen from.
pub open spec fn seen_from(s: SessionView, space: Option<u64>) -> Option<Seq<char>> {
    match space {
        Some(id) if s.has_space(id) => Some(s.spaces[s.space_at(id)].name),
        _ => None,
    }
}

/// What the client that asked is sent, if it is still there.
pub open spec fn answer_to(s: SessionView, a: Ask, w: Went) -> Option<AnswerView> {
    let went = !(w is Badly) && !(w is Nothing);
    match a {
        Ask::Notes => if went {
            Some(AnswerView::Notes)
        } else {
            None
        },
        Ask::SaveNote { space, path } => if w is Badly {
            None
        } else {
            Some(AnswerView::Note { space, path: path@ })
        },
        Ask::Board { space } => Some(AnswerView::Board { project: seen_from(s, space) }),
        Ask::NewCard { space } => Some(AnswerView::Board { project: seen_from(s, space) }),
        Ask::EditCard | Ask::MoveCard | Ask::Comment | Ask::Archive | Ask::RenameColumn => Some(
            AnswerView::Board { project: seen_from(s, s.focused_space) },
        ),
        Ask::HandOff { .. } => Some(
            AnswerView::Board { project: seen_from(s, s.focused_space) },
        ),
        Ask::Files => if went {
            Some(AnswerView::Files)
        } else {
            None
        },
        Ask::ReadFile { .. } => if w is Badly {
            None
        } else {
            Some(AnswerView::Files)
        },
        _ => None,
    }
}

/// What comes of a command that went so.
pub open spec fn followed(e: EngineView, id: u64, a: Ask, w: Went) -> (EngineView, FollowedView) {
    let shaped = EngineView { dirty_shape: e.dirty_shape || reshapes(a, w), ..e };
    (
        match said(a, w) {
            Some((level, text)) => shaped.noticing(level, text),
            None => shaped,
        },
        FollowedView {
            answer: if is_there(e.clients, id) {
                answer_to(e.session, a, w)
            } else {
                None
            },
            sync: (a is ReadFile || a is SaveFile) && !(w is Badly),
            refresh: a is MakeVault && !(w is Badly),
        },
    )
}

/// A sentence and why.
fn because(what: &str, why: &str) -> (r: String)
    ensures
        r@ == what@ + why@,
{
    let mut m = owned(what);
    m.append(why);
    m
}

/// A sentence about something, and why.
fn because_of(what: &str, which: &str, why: &str) -> (r: String)
    ensures
        r@ == what@ + which@ + ": "@ + why@,
{
    let mut m = owned(what);
    m.append(which);
    m.append(": ");
    m.append(why);
    m
}

/// What is said of a command that failed.
fn complaint(a: &Ask, e: &str) -> (r: Option<(Level, String)>)
    ensures
        (match r {
            Some((level, text)) => Some((level, text@)),
            None => None,
        }) == complained(*a, e@),
{
    match a {
        Ask::SaveNote { .. } => Some((Level::Error, because("could not save the note: ", e))),
        Ask::MakeVault { .. } => Some((Level::Error, because("could not make a vault: ", e))),
        Ask::NewCard { .. } => Some((Level::Warn, because("could not add the card: ", e))),
        Ask::EditCard => Some((Level::Warn, because("could not change the card: ", e))),
        Ask::MoveCard => Some((Level::Warn, because("could not move the card: ", e))),
        Ask::Comment => Some((Level::Warn, because("could not add the comment: ", e))),
        Ask::Archive => Some((Level::Warn, because("could not archive the card: ", e))),
        Ask::HandOff { .. } => Some((Level::Warn, owned(e))),
        Ask::ReadFile { path } => Some(
            (Level::Warn, because_of("could not open ", path.as_str(), e)),
        ),
        Ask::SaveFile { path } => Some(
            (Level::Error, because_of("could not save ", path.as_str(), e)),
        ),
        Ask::Attach { name } => Some(
            (Level::Warn, because_of("could not attach ", name.as_str(), e)),
        ),
        _ => None,
    }
}

/// What is said of a card that went over.
fn handed_notice(card: u64, task: u64) -> (r: String)
    ensures
        r@ == handed_text(card, task),
{
    let mut m = owned("card #");
    m.append(number(card).as_str());
    m.append(" is on the agents' board as task #");
    m.append(number(task).as_str());
    m
}

/// What a person is told, if anything.
fn notice_of(a: &Ask, w: &Went) -> (r: Option<(Level, String)>)
    ensures
        (match r {
            Some((level, text)) => Some((level, text@)),
            None => None,
        }) == said(*a, *w),
{
    match (a, w) {
        (Ask::MakeVault { root }, Went::Fresh) => Some(
            (Level::Info, vault_init_notice(root.as_str(), true)),
        ),
        (Ask::HandOff { card }, Went::AsTask(t)) => Some((Level::Info, handed_notice(*card, *t))),
        (_, Went::Badly(e)) => complaint(a, e.as_str()),
        (Ask::MakeVault { root }, _) => Some(
            (Level::Info, vault_init_notice(root.as_str(), false)),
        ),
        _ => None,
    }
}

impl Engine {
    /// The whole board, as a project sees it.
    fn board_seen(&self, space: Option<u64>) -> (r: Option<Answer>)
        ensures
            r matches Some(a) && a@ == (AnswerView::Board {
                project: seen_from(self@.session, space),
            }),
    {
        Some(Answer::Board { project: board_project(&self.session, space) })
    }

    /// What the client that asked is sent, if it is still there.
    fn answer_for(&self, a: &Ask, w: &Went) -> (r: Option<Answer>)
        ensures
            (match r {
                Some(x) => Some(x@),
                None => None,
            }) == answer_to(self@.session, *a, *w),
    {
        let failed = matches!(w, Went::Badly(_));
        let empty = matches!(w, Went::Nothing);
        match a {
            Ask::Notes => if failed || empty {
                None
            } else {
                Some(Answer::Notes)
            },
            Ask::SaveNote { space, path } => if failed {
                None
            } else {
                Some(Answer::Note { space: *space, path: path.clone() })
            },
            Ask::Board { space } => self.board_seen(*space),
            Ask::NewCard { space } => self.board_seen(*space),
            Ask::EditCard
            | Ask::MoveCard
            | Ask::Comment
            | Ask::Archive
            | Ask::RenameColumn => self.board_seen(self.session.focused_space),
            Ask::HandOff { .. } => self.board_seen(self.session.focused_space),
            Ask::Files => if failed || empty {
                None
            } else {
                Some(Answer::Files)
            },
            Ask::ReadFile { .. } => if failed {
                None
            } else {
                Some(Answer::Files)
            },
            _ => None,
        }
    }

    /// Take how a command of a client went, and say what is left to be done.
    pub fn follow(&mut self, id: u64, a: &Ask, w: &Went) -> (r: Followed)
        ensures
            (final(self)@, r@) == followed(old(self)@, id, *a, *w),
            old(self)@.wf() ==> final(self)@.wf(),
    {
        let failed = matches!(w, Went::Badly(_));
        let answer = if self.has_client(id) {
            self.answer_for(a, w)
        } else {
            None
        };
        let shape = match a {
            Ask::NewCard { .. } => !failed,
            Ask::EditCard
            | Ask::MoveCard
            | Ask::Comment
            | Ask::Archive
            | Ask::RenameColumn => true,
            _ => false,
        };
        if shape {
            self.touch();
        }
        if let Some((level, text)) = notice_of(a, w) {
            self.emit(Event::Notice { level, text });
        }
        Followed {
            answer,
            sync: matches!(a, Ask::ReadFile { .. } | Ask::SaveFile { .. }) && !failed,
            refresh: matches!(a, Ask::MakeVault { .. }) && !failed,
        }
    }
}

// -- laws ------------------------------------------------------------------------

/// Every command about a card is answered with the whole board, whether it worked or not.
pub proof fn law_every_card_command_is_answered_with_the_board(
    e: EngineView,
    id: u64,
    a: Ask,
    w: Went,
)
    requires
        about_cards(a),
        is_there(e.clients, id),
    ensures
        followed(e, id, a, w).1.answer matches Some(x) && x is Board,
{
}

/// A command that failed is never passed over in silence, but for a question that has no answer.
pub proof fn law_a_failure_is_said(e: EngineView, id: u64, a: Ask, why: String)
    requires
        !(a is Notes || a is Board || a is Files || a is RenameColumn),
    ensures
        followed(e, id, a, Went::Badly(why)).0.events.len() == e.events.len() + 1,
{
}

/// A client that has left is sent nothing.
pub proof fn law_nobody_else_is_answered(e: EngineView, id: u64, a: Ask, w: Went)
    requires
        !is_there(e.clients, id),
    ensures
        followed(e, id, a, w).1.answer is None,
{
}

} // verus!
