//! The control channel: what a request says, and how one is refused.
//!
//! This is the surface agents drive themselves through, and it has to be answerable from
//! anything that can write a line. A request is its method and its arguments by name; what a
//! line of JSON holds beside text, whole numbers and flags is of no use here.

use crate::commands::Cmd;
use crate::notebook::{vault_init_root, VaultQuery};
use crate::paths::join_path;
use crate::proto::Dir;
use crate::seqs::{first_where, lemma_first_where, lemma_first_where_is};
use crate::state::{named, Session, SessionView};
use crate::text::{decimal, number, opt_str, opt_text, own_opt, owned, quote, quoted, same};
use vstd::prelude::*;
use vstd::string::*;

verus! {

// -- arguments ---------------------------------------------------------------

/// What an argument says.
#[derive(Debug, Clone, PartialEq, Eq)]
pub enum Arg {
    Null,
    Flag(bool),
    /// A whole number that is not negative.
    Whole(u64),
    Negative(i64),
    Text(String),
    /// Anything else.
    Other,
}

/// The same, as values.
pub enum ArgView {
    Null,
    Flag(bool),
    Whole(u64),
    Negative(i64),
    Text(Seq<char>),
    Other,
}

impl View for Arg {
    type V = ArgView;

    open spec fn view(&self) -> ArgView {
        match *self {
            Arg::Null => ArgView::Null,
            Arg::Flag(b) => ArgView::Flag(b),
            Arg::Whole(n) => ArgView::Whole(n),
            Arg::Negative(n) => ArgView::Negative(n),
            Arg::Text(s) => ArgView::Text(s@),
            Arg::Other => ArgView::Other,
        }
    }
}

/// An argument and its name.
#[derive(Debug, Clone, PartialEq, Eq)]
pub struct Param {
    pub key: String,
    pub value: Arg,
}

/// A call.
#[derive(Debug, Clone, PartialEq, Eq)]
pub struct Request {
    pub method: String,
    pub params: Vec<Param>,
}

/// The same, as values.
pub struct RequestView {
    pub method: Seq<char>,
    pub params: Seq<(Seq<char>, ArgView)>,
}

impl View for Request {
    type V = RequestView;

    open spec fn view(&self) -> RequestView {
        RequestView {
            method: self.method@,
            params: Seq::new(
                self.params@.len(),
                |i: int| (self.params@[i].key@, self.params@[i].value@),
            ),
        }
    }
}

/// An argument of this name.
pub open spec fn called(key: Seq<char>) -> spec_fn((Seq<char>, ArgView)) -> bool {
    |p: (Seq<char>, ArgView)| p.0 == key
}

impl RequestView {
    /// The argument of a name.
    pub open spec fn get(self, key: Seq<char>) -> Option<ArgView> {
        let i = first_where(self.params, called(key));
        if i < self.params.len() {
            Some(self.params[i].1)
        } else {
            None
        }
    }

    /// An argument that is text.
    pub open spec fn text(self, key: Seq<char>) -> Option<Seq<char>> {
        match self.get(key) {
            Some(ArgView::Text(s)) => Some(s),
            _ => None,
        }
    }

    /// An argument that is a number and not negative.
    pub open spec fn whole(self, key: Seq<char>) -> Option<u64> {
        match self.get(key) {
            Some(ArgView::Whole(n)) => Some(n),
            _ => None,
        }
    }

    /// An argument that is a number.
    pub open spec fn number(self, key: Seq<char>) -> Option<i64> {
        match self.get(key) {
            Some(ArgView::Whole(n)) if n <= i64::MAX => Some(n as i64),
            Some(ArgView::Negative(n)) => Some(n),
            _ => None,
        }
    }

    /// An argument that is a flag.
    pub open spec fn flag(self, key: Seq<char>) -> Option<bool> {
        match self.get(key) {
            Some(ArgView::Flag(b)) => Some(b),
            _ => None,
        }
    }

    /// A flag that is off unless it is given.
    pub open spec fn is_on(self, key: Seq<char>) -> bool {
        self.flag(key) == Some(true)
    }

    /// A direction, or the usual one.
    pub open spec fn direction(self, key: Seq<char>, usual: Dir) -> Dir {
        match self.text(key) {
            Some(s) => if s == "left"@ {
                Dir::Left
            } else if s == "right"@ {
                Dir::Right
            } else if s == "up"@ {
                Dir::Up
            } else if s == "down"@ {
                Dir::Down
            } else {
                usual
            },
            None => usual,
        }
    }
}

impl Request {
    /// The argument of a name.
    pub fn get(&self, key: &str) -> (r: Option<&Arg>)
        ensures
            match r {
                Some(a) => self@.get(key@) == Some(a@),
                None => self@.get(key@) is None,
            },
    {
        let ghost ps = self@.params;
        let mut i: usize = 0;
        while i < self.params.len()
            invariant
                i <= self.params@.len(),
                ps == self@.params,
                forall|j: int| 0 <= j < i ==> !called(key@)(#[trigger] ps[j]),
            decreases self.params@.len() - i,
        {
            if same(self.params[i].key.as_str(), key) {
                proof {
                    assert(called(key@)(ps[i as int]));
                    lemma_first_where_is(ps, called(key@), i as int);
                }
                return Some(&self.params[i].value);
            }
            proof {
                assert(!called(key@)(ps[i as int]));
            }
            i = i + 1;
        }
        proof {
            lemma_first_where_is(ps, called(key@), ps.len() as int);
        }
        None
    }

    /// An argument that is text.
    pub fn str_arg(&self, key: &str) -> (r: Option<&str>)
        ensures
            opt_str(r) == self@.text(key@),
    {
        match self.get(key) {
            Some(Arg::Text(s)) => Some(s.as_str()),
            _ => None,
        }
    }

    /// An argument that is a number and not negative.
    pub fn u64_arg(&self, key: &str) -> (r: Option<u64>)
        ensures
            r == self@.whole(key@),
    {
        match self.get(key) {
            Some(Arg::Whole(n)) => Some(*n),
            _ => None,
        }
    }

    /// An argument that is a number.
    pub fn i64_arg(&self, key: &str) -> (r: Option<i64>)
        ensures
            r == self@.number(key@),
    {
        match self.get(key) {
            Some(Arg::Whole(n)) => if *n <= i64::MAX as u64 {
                Some(*n as i64)
            } else {
                None
            },
            Some(Arg::Negative(n)) => Some(*n),
            _ => None,
        }
    }

    /// An argument that is a flag.
    pub fn flag_arg(&self, key: &str) -> (r: Option<bool>)
        ensures
            r == self@.flag(key@),
    {
        match self.get(key) {
            Some(Arg::Flag(b)) => Some(*b),
            _ => None,
        }
    }

    /// A flag that is off unless it is given.
    pub fn bool_arg(&self, key: &str) -> (r: bool)
        ensures
            r == self@.is_on(key@),
    {
        match self.flag_arg(key) {
            Some(b) => b,
            None => false,
        }
    }

    /// A direction, or the usual one.
    pub fn dir_arg(&self, key: &str, default: Dir) -> (r: Dir)
        ensures
            r == self@.direction(key@, default),
    {
        match self.str_arg(key) {
            Some(s) => if same(s, "left") {
                Dir::Left
            } else if same(s, "right") {
                Dir::Right
            } else if same(s, "up") {
                Dir::Up
            } else if same(s, "down") {
                Dir::Down
            } else {
                default
            },
            None => default,
        }
    }
}

// -- refusals ----------------------------------------------------------------

/// What kind of refusal it is.
#[derive(Debug, Clone, Copy, PartialEq, Eq, Structural)]
pub enum Code {
    BadRequest,
    NotFound,
    Failed,
}

impl Code {
    /// How it is written.
    pub open spec fn word_spec(self) -> Seq<char> {
        match self {
            Code::BadRequest => "bad_request"@,
            Code::NotFound => "not_found"@,
            Code::Failed => "failed"@,
        }
    }

    /// How it is written.
    pub fn word(&self) -> (r: &'static str)
        ensures
            r@ == self.word_spec(),
    {
        match self {
            Code::BadRequest => "bad_request",
            Code::NotFound => "not_found",
            Code::Failed => "failed",
        }
    }
}

/// A refusal.
#[derive(Debug, Clone, PartialEq, Eq)]
pub struct Fault {
    pub code: Code,
    pub message: String,
}

/// The same, as values.
pub struct FaultView {
    pub code: Code,
    pub message: Seq<char>,
}

impl View for Fault {
    type V = FaultView;

    open spec fn view(&self) -> FaultView {
        FaultView { code: self.code, message: self.message@ }
    }
}

/// The request makes no sense.
pub open spec fn bad_of(m: Seq<char>) -> FaultView {
    FaultView { code: Code::BadRequest, message: m }
}

/// What it names is not there.
pub open spec fn not_found_of(m: Seq<char>) -> FaultView {
    FaultView { code: Code::NotFound, message: m }
}

/// It could not be done.
pub open spec fn failed_of(m: Seq<char>) -> FaultView {
    FaultView { code: Code::Failed, message: m }
}

/// The request makes no sense.
pub fn bad(m: &str) -> (r: Fault)
    ensures
        r@ == bad_of(m@),
{
    Fault { code: Code::BadRequest, message: owned(m) }
}

/// What it names is not there.
pub fn not_found(m: &str) -> (r: Fault)
    ensures
        r@ == not_found_of(m@),
{
    Fault { code: Code::NotFound, message: owned(m) }
}

/// It could not be done.
pub fn failed(m: &str) -> (r: Fault)
    ensures
        r@ == failed_of(m@),
{
    Fault { code: Code::Failed, message: owned(m) }
}

/// A result, with the refusal as values.
pub open spec fn refusal<A>(r: Result<A, Fault>) -> Result<A, FaultView> {
    match r {
        Ok(a) => Ok(a),
        Err(e) => Err(e@),
    }
}

// -- who and where -----------------------------------------------------------

/// A name, and the pane it stands for.
#[derive(Debug, Clone, PartialEq, Eq)]
pub struct Known {
    pub name: String,
    pub pane: u64,
}

/// Names and panes, as values.
pub open spec fn known_views(v: Seq<Known>) -> Seq<(Seq<char>, u64)> {
    Seq::new(v.len(), |i: int| (v[i].name@, v[i].pane))
}

/// A name that is this one.
pub open spec fn goes_by(name: Seq<char>) -> spec_fn((Seq<char>, u64)) -> bool {
    |k: (Seq<char>, u64)| k.0 == name
}

/// The pane a name stands for.
pub open spec fn stands_for(ks: Seq<(Seq<char>, u64)>, name: Seq<char>) -> Option<u64> {
    let i = first_where(ks, goes_by(name));
    if i < ks.len() {
        Some(ks[i].1)
    } else {
        None
    }
}

/// A pane that an argument names: by number, or by the name of what runs in it.
pub open spec fn pane_named_by(
    q: RequestView,
    ks: Seq<(Seq<char>, u64)>,
    key: Seq<char>,
) -> Option<u64> {
    match q.get(key) {
        Some(ArgView::Whole(n)) => Some(n),
        Some(ArgView::Text(s)) => stands_for(ks, s),
        _ => None,
    }
}

/// The pane a name stands for.
pub fn resolve(ks: &Vec<Known>, name: &str) -> (r: Option<u64>)
    ensures
        r == stands_for(known_views(ks@), name@),
{
    let ghost vs = known_views(ks@);
    let mut i: usize = 0;
    while i < ks.len()
        invariant
            i <= ks@.len(),
            vs == known_views(ks@),
            forall|j: int| 0 <= j < i ==> !goes_by(name@)(#[trigger] vs[j]),
        decreases ks@.len() - i,
    {
        if same(ks[i].name.as_str(), name) {
            proof {
                assert(goes_by(name@)(vs[i as int]));
                lemma_first_where_is(vs, goes_by(name@), i as int);
            }
            return Some(ks[i].pane);
        }
        proof {
            assert(!goes_by(name@)(vs[i as int]));
        }
        i = i + 1;
    }
    proof {
        lemma_first_where_is(vs, goes_by(name@), vs.len() as int);
    }
    None
}

/// A pane that an argument names.
pub fn pane_arg(q: &Request, ks: &Vec<Known>, key: &str) -> (r: Option<u64>)
    ensures
        r == pane_named_by(q@, known_views(ks@), key@),
{
    match q.get(key) {
        Some(Arg::Whole(n)) => Some(*n),
        Some(Arg::Text(s)) => resolve(ks, s.as_str()),
        _ => None,
    }
}

/// The pane that an argument names, or the one in front.
pub open spec fn pane_meant(
    q: RequestView,
    s: SessionView,
    ks: Seq<(Seq<char>, u64)>,
    key: Seq<char>,
) -> Option<u64> {
    match pane_named_by(q, ks, key) {
        Some(p) => Some(p),
        None => s.front_pane(),
    }
}

/// The pane that an argument names, or the one in front.
pub fn pane_or_front(q: &Request, s: &Session, ks: &Vec<Known>, key: &str) -> (r: Option<u64>)
    ensures
        r == pane_meant(q@, s@, known_views(ks@), key@),
{
    match pane_arg(q, ks, key) {
        Some(p) => Some(p),
        None => s.focused_pane(),
    }
}

/// The project a call belongs to, by the name of its space: that of the pane it came from, or
/// else of the one in front.
pub open spec fn caller_space_of(q: RequestView, s: SessionView, ks: Seq<(Seq<char>, u64)>) -> Option<
    Seq<char>,
> {
    match pane_meant(q, s, ks, "from"@) {
        Some(p) if s.has_pane(p) => {
            let id = s.panes[s.pane_at(p)].space;
            if s.has_space(id) {
                Some(s.spaces[s.space_at(id)].name)
            } else {
                None
            }
        },
        _ => None,
    }
}

/// The project a call belongs to.
pub fn caller_space(q: &Request, s: &Session, ks: &Vec<Known>) -> (r: Option<String>)
    ensures
        opt_text(r) == caller_space_of(q@, s@, known_views(ks@)),
{
    let pane = match pane_or_front(q, s, ks, "from") {
        Some(p) => p,
        None => {
            return None;
        },
    };
    match s.pane(pane) {
        Some(p) => match s.space(p.space) {
            Some(sp) => Some(sp.name.clone()),
            None => None,
        },
        None => None,
    }
}

/// The directory a worktree operation is about: that of the pane it came from, or else of the
/// one in front.
pub open spec fn origin_of(q: RequestView, s: SessionView, ks: Seq<(Seq<char>, u64)>) -> Result<
    Seq<char>,
    FaultView,
> {
    match pane_meant(q, s, ks, "from"@) {
        Some(p) if s.has_pane(p) => Ok(s.panes[s.pane_at(p)].cwd),
        _ => Err(failed_of("no pane to take a directory from"@)),
    }
}

/// The directory a worktree operation is about.
pub fn worktree_origin(q: &Request, s: &Session, ks: &Vec<Known>) -> (r: Result<String, Fault>)
    ensures
        match r {
            Ok(d) => origin_of(q@, s@, known_views(ks@)) == Ok::<Seq<char>, FaultView>(d@),
            Err(e) => origin_of(q@, s@, known_views(ks@)) == Err::<Seq<char>, FaultView>(e@),
        },
{
    match pane_or_front(q, s, ks, "from") {
        Some(p) => match s.pane(p) {
            Some(pane) => Ok(pane.cwd.clone()),
            None => Err(failed("no pane to take a directory from")),
        },
        None => Err(failed("no pane to take a directory from")),
    }
}

/// What is said of a space that is not there.
pub open spec fn no_space_text(name: Seq<char>) -> Seq<char> {
    "no space called "@ + quoted(name)
}

/// A space that is named like this.
pub open spec fn space_called(s: SessionView, name: Seq<char>) -> Result<u64, FaultView> {
    let i = first_where(s.spaces, named(name));
    if i < s.spaces.len() {
        Ok(s.spaces[i].id)
    } else {
        Err(not_found_of(no_space_text(name)))
    }
}

/// A space that is named like this.
pub fn find_space(s: &Session, name: &str) -> (r: Result<u64, Fault>)
    ensures
        refusal(r) == space_called(s@, name@),
{
    match s.find_space_by_name(name) {
        Some(id) => Ok(id),
        None => {
            proof {
                lemma_first_where(s@.spaces, named(name@));
                let i = first_where(s@.spaces, named(name@));
                if i < s@.spaces.len() {
                    assert(named(name@)(s@.spaces[i]));
                    assert(s@.spaces[i].name == name@);
                }
            }
            let mut m = owned("no space called ");
            m.append(quote(name).as_str());
            Err(not_found(m.as_str()))
        },
    }
}

/// The space that is meant: by name, by number, or the one in front.
pub open spec fn space_meant(q: RequestView, s: SessionView) -> Result<u64, FaultView> {
    match q.text("name"@) {
        Some(n) => space_called(s, n),
        None => match q.whole("space"@) {
            Some(id) => Ok(id),
            None => match s.focused_space {
                Some(id) => Ok(id),
                None => Err(bad_of("no space"@)),
            },
        },
    }
}

/// The space that is meant: by name, by number, or the one in front.
pub fn space_arg(q: &Request, s: &Session) -> (r: Result<u64, Fault>)
    ensures
        refusal(r) == space_meant(q@, s@),
{
    if let Some(n) = q.str_arg("name") {
        return find_space(s, n);
    }
    if let Some(id) = q.u64_arg("space") {
        return Ok(id);
    }
    match s.focused_space {
        Some(id) => Ok(id),
        None => Err(bad("no space")),
    }
}

/// The space whose notes are meant: by name, or the one in front.
pub open spec fn vault_space_meant(q: RequestView, s: SessionView) -> Result<u64, FaultView> {
    match q.text("space"@) {
        Some(n) => space_called(s, n),
        None => match s.focused_space {
            Some(id) => Ok(id),
            None => Err(bad_of("no focused space"@)),
        },
    }
}

/// The space whose notes are meant: by name, or the one in front.
pub fn vault_space(q: &Request, s: &Session) -> (r: Result<u64, Fault>)
    ensures
        refusal(r) == vault_space_meant(q@, s@),
{
    match q.str_arg("space") {
        Some(n) => find_space(s, n),
        None => match s.focused_space {
            Some(id) => Ok(id),
            None => Err(bad("no focused space")),
        },
    }
}

/// The trigger that is meant.
pub fn trigger_arg(q: &Request) -> (r: Result<u64, Fault>)
    ensures
        refusal(r) == trigger_meant(q@),
{
    match q.u64_arg("trigger") {
        Some(id) => Ok(id),
        None => Err(bad("trigger id required")),
    }
}

/// The trigger that is meant.
pub open spec fn trigger_meant(q: RequestView) -> Result<u64, FaultView> {
    match q.whole("trigger"@) {
        Some(id) => Ok(id),
        None => Err(bad_of("trigger id required"@)),
    }
}

// -- notes -------------------------------------------------------------------

/// What is asked of a vault, as the request says. Anything but a search or a reading lists.
pub open spec fn question_in(q: RequestView) -> Result<QuestionView, FaultView> {
    if q.method == "vault.search"@ {
        match q.text("q"@) {
            Some(s) => Ok(QuestionView::Search(s)),
            None => Err(bad_of("q required"@)),
        }
    } else if q.method == "vault.read"@ {
        match q.text("path"@) {
            Some(s) => Ok(QuestionView::Note(s)),
            None => Err(bad_of("path required"@)),
        }
    } else {
        Ok(QuestionView::List)
    }
}

/// A question to a vault, as values.
pub enum QuestionView {
    List,
    Search(Seq<char>),
    Note(Seq<char>),
    Graph,
}

impl View for VaultQuery {
    type V = QuestionView;

    open spec fn view(&self) -> QuestionView {
        match *self {
            VaultQuery::List => QuestionView::List,
            VaultQuery::Search(s) => QuestionView::Search(s@),
            VaultQuery::Note(s) => QuestionView::Note(s@),
            VaultQuery::Graph => QuestionView::Graph,
        }
    }
}

/// Which space's vault is asked, and what.
pub fn vault_question(q: &Request, s: &Session) -> (r: Result<(u64, VaultQuery), Fault>)
    ensures
        match (vault_space_meant(q@, s@), question_in(q@)) {
            (Err(f), _) => r matches Err(x) && x@ == f,
            (Ok(_), Err(f)) => r matches Err(x) && x@ == f,
            (Ok(id), Ok(v)) => r matches Ok(x) && x.0 == id && x.1@ == v,
        },
{
    let space: u64 = match vault_space(q, s) {
        Ok(id) => id,
        Err(f) => {
            return Err(f);
        },
    };
    let m = q.method.as_str();
    let kind = if same(m, "vault.search") {
        match q.str_arg("q") {
            Some(s) => VaultQuery::Search(owned(s)),
            None => {
                return Err(bad("q required"));
            },
        }
    } else if same(m, "vault.read") {
        match q.str_arg("path") {
            Some(s) => VaultQuery::Note(owned(s)),
            None => {
                return Err(bad("path required"));
            },
        }
    } else {
        VaultQuery::List
    };
    Ok((space, kind))
}

/// Where a vault is asked for: at a path, or where the project in front would have one.
pub open spec fn init_root_of(q: RequestView, s: SessionView, dir: Seq<char>, home: Seq<char>) -> Result<
    Seq<char>,
    FaultView,
> {
    match q.text("path"@) {
        Some(p) => Ok(p),
        None => match s.focused_space {
            None => Err(bad_of("no focused space"@)),
            Some(id) => if s.has_space(id) {
                Ok(join_path(s.spaces[s.space_at(id)].cwd, dir))
            } else {
                Ok(home)
            },
        },
    }
}

/// Where a vault is asked for.
pub fn vault_init_arg(q: &Request, s: &Session, dir: &str, home: &str) -> (r: Result<String, Fault>)
    ensures
        match r {
            Ok(p) => init_root_of(q@, s@, dir@, home@) == Ok::<Seq<char>, FaultView>(p@),
            Err(f) => init_root_of(q@, s@, dir@, home@) == Err::<Seq<char>, FaultView>(f@),
        },
{
    if let Some(p) = q.str_arg("path") {
        return Ok(owned(p));
    }
    match s.focused_space {
        None => Err(bad("no focused space")),
        Some(id) => Ok(vault_init_root(s, id, dir, home)),
    }
}

/// A note to be written.
#[derive(Debug, Clone, PartialEq, Eq)]
pub struct NoteWrite {
    pub space: u64,
    pub path: String,
    pub body: String,
    /// Who to credit.
    pub by: Option<String>,
    pub append: bool,
}

/// The same, as values.
pub struct NoteWriteView {
    pub space: u64,
    pub path: Seq<char>,
    pub body: Seq<char>,
    pub by: Option<Seq<char>>,
    pub append: bool,
}

impl View for NoteWrite {
    type V = NoteWriteView;

    open spec fn view(&self) -> NoteWriteView {
        NoteWriteView {
            space: self.space,
            path: self.path@,
            body: self.body@,
            by: opt_text(self.by),
            append: self.append,
        }
    }
}

/// The note that a request writes. `titled` is the file that a note of the given title has, and
/// `caller` what the pane that the request names is called. A note is signed by whoever the
/// request says, or else by what runs in that pane.
pub open spec fn note_in(
    q: RequestView,
    s: SessionView,
    titled: Seq<char>,
    caller: Option<Seq<char>>,
) -> Result<NoteWriteView, FaultView> {
    let path = match (q.text("path"@), q.text("title"@)) {
        (Some(p), _) => Some(p),
        (None, Some(_)) => Some(titled),
        (None, None) => None,
    };
    match (path, q.text("body"@), vault_space_meant(q, s)) {
        (None, _, _) => Err(bad_of("path or title required"@)),
        (Some(_), None, _) => Err(bad_of("body required"@)),
        (Some(_), Some(_), Err(f)) => Err(f),
        (Some(path), Some(body), Ok(space)) => Ok(
            NoteWriteView {
                space,
                path,
                body,
                by: match q.text("by"@) {
                    Some(b) => Some(b),
                    None => caller,
                },
                append: q.is_on("append"@),
            },
        ),
    }
}

/// The note that a request writes.
pub fn note_arg(q: &Request, s: &Session, titled: &str, caller: Option<&str>) -> (r: Result<
    NoteWrite,
    Fault,
>)
    ensures
        match r {
            Ok(n) => note_in(q@, s@, titled@, opt_str(caller)) == Ok::<NoteWriteView, FaultView>(n@),
            Err(f) => note_in(q@, s@, titled@, opt_str(caller)) == Err::<NoteWriteView, FaultView>(
                f@,
            ),
        },
{
    let path = match (q.str_arg("path"), q.str_arg("title")) {
        (Some(p), _) => owned(p),
        (None, Some(_)) => owned(titled),
        (None, None) => {
            return Err(bad("path or title required"));
        },
    };
    let body = match q.str_arg("body") {
        Some(b) => owned(b),
        None => {
            return Err(bad("body required"));
        },
    };
    let space: u64 = match vault_space(q, s) {
        Ok(id) => id,
        Err(f) => {
            return Err(f);
        },
    };
    let by = match q.str_arg("by") {
        Some(b) => Some(owned(b)),
        None => own_opt(caller),
    };
    Ok(NoteWrite { space, path, body, by, append: q.bool_arg("append") })
}

// -- what happened -----------------------------------------------------------

/// The start of the window a reading covers: so many seconds back, or since the last reading,
/// or, on the first one, since the start.
pub open spec fn window_of(q: RequestView, last_seen: u64, started: u64, now: u64) -> u64 {
    match q.whole("since"@) {
        Some(secs) => if secs * 1000 >= now {
            0
        } else {
            (now - secs * 1000) as u64
        },
        None => if last_seen == 0 {
            started
        } else {
            last_seen
        },
    }
}

/// The start of the window a reading covers.
pub fn digest_window(q: &Request, last_seen: u64, started: u64, now: u64) -> (r: u64)
    ensures
        r == window_of(q@, last_seen, started, now),
{
    match q.u64_arg("since") {
        Some(secs) => if secs > now / 1000 {
            0
        } else {
            now - secs * 1000
        },
        None => if last_seen == 0 {
            started
        } else {
            last_seen
        },
    }
}

// -- messages ----------------------------------------------------------------

/// What is asked for a message to be sent: to whom, what, whether though they are busy, and
/// whether an answer is expected.
pub fn send_args(q: &Request) -> (r: Result<(String, String, bool, bool), Fault>)
    ensures
        match r {
            Ok((to, body, force, expects)) => q@.text("to"@) == Some(to@) && q@.text("body"@)
                == Some(body@) && force == q@.is_on("force"@) && expects == q@.is_on(
                "expects_reply"@,
            ),
            Err(f) => (q@.text("to"@) is None && f@ == bad_of("to required"@)) || (q@.text(
                "to"@,
            ) is Some && q@.text("body"@) is None && f@ == bad_of("body required"@)),
        },
{
    let to = match q.str_arg("to") {
        Some(t) => owned(t),
        None => {
            return Err(bad("to required"));
        },
    };
    let body = match q.str_arg("body") {
        Some(b) => owned(b),
        None => {
            return Err(bad("body required"));
        },
    };
    Ok((to, body, q.bool_arg("force"), q.bool_arg("expects_reply")))
}

/// The request that an answer is to.
pub fn request_arg(q: &Request) -> (r: Result<u64, Fault>)
    ensures
        refusal(r) == (match q@.whole("request"@) {
            Some(id) => Ok::<u64, FaultView>(id),
            None => Err(bad_of("request id required"@)),
        }),
{
    match q.u64_arg("request") {
        Some(id) => Ok(id),
        None => Err(bad("request id required")),
    }
}

/// Whether a message can be answered: it is in the log, and asked for it. `expects` is whether
/// the message expects an answer, where there is one.
pub fn may_reply(id: u64, expects: Option<bool>) -> (r: Result<(), Fault>)
    ensures
        match (r, expects) {
            (Ok(_), Some(true)) => true,
            (Err(f), Some(false)) => f@ == bad_of(
                "message #"@ + decimal(id as nat) + " was not a request"@,
            ),
            (Err(f), None) => f@ == not_found_of(
                "no request #"@ + decimal(id as nat) + " in the log"@,
            ),
            _ => false,
        },
{
    match expects {
        Some(true) => Ok(()),
        Some(false) => {
            let mut m = owned("message #");
            m.append(number(id).as_str());
            m.append(" was not a request");
            Err(bad(m.as_str()))
        },
        None => {
            let mut m = owned("no request #");
            m.append(number(id).as_str());
            m.append(" in the log");
            Err(not_found(m.as_str()))
        },
    }
}

// -- commands by name --------------------------------------------------------

/// The command of a name, where there is one.
pub open spec fn command_called(name: Seq<char>, q: RequestView) -> Option<Cmd> {
    if name == "split-right"@ {
        Some(Cmd::SplitRight)
    } else if name == "split-down"@ {
        Some(Cmd::SplitDown)
    } else if name == "close-pane"@ {
        Some(Cmd::ClosePane)
    } else if name == "zoom"@ {
        Some(Cmd::ToggleZoom)
    } else if name == "focus-left"@ {
        Some(Cmd::FocusDir(Dir::Left))
    } else if name == "focus-right"@ {
        Some(Cmd::FocusDir(Dir::Right))
    } else if name == "focus-up"@ {
        Some(Cmd::FocusDir(Dir::Up))
    } else if name == "focus-down"@ {
        Some(Cmd::FocusDir(Dir::Down))
    } else if name == "new-tab"@ {
        Some(Cmd::NewTab)
    } else if name == "next-tab"@ {
        Some(Cmd::NextTab)
    } else if name == "prev-tab"@ {
        Some(Cmd::PrevTab)
    } else if name == "close-tab"@ {
        Some(Cmd::CloseTab)
    } else if name == "next-space"@ {
        Some(Cmd::NextSpace)
    } else if name == "prev-space"@ {
        Some(Cmd::PrevSpace)
    } else if name == "toggle-sidebar"@ {
        Some(Cmd::ToggleSidebar)
    } else if name == "toggle-bus"@ {
        Some(Cmd::ToggleBus)
    } else if name == "jump-attention"@ {
        Some(Cmd::JumpAttention)
    } else if name == "redraw"@ {
        Some(Cmd::Redraw)
    } else if name == "digest"@ {
        Some(Cmd::RequestDigest)
    } else {
        None
    }
}

/// Whether a command is the one of a name. `new-space` takes the name of the space from the
/// request.
pub open spec fn called_as(name: Seq<char>, q: RequestView, r: Option<Cmd>) -> bool {
    if name == "new-space"@ {
        match r {
            Some(Cmd::NewSpace { name: n }) => opt_text(n) == q.text("name"@),
            _ => false,
        }
    } else {
        r == command_called(name, q)
    }
}

/// The command of a name. `new-space` takes the name of the space from the request.
pub fn command_by_name(name: &str, q: &Request) -> (r: Option<Cmd>)
    ensures
        called_as(name@, q@, r),
{
    if same(name, "new-space") {
        return Some(Cmd::NewSpace { name: own_opt(q.str_arg("name")) });
    }
    if same(name, "split-right") {
        Some(Cmd::SplitRight)
    } else if same(name, "split-down") {
        Some(Cmd::SplitDown)
    } else if same(name, "close-pane") {
        Some(Cmd::ClosePane)
    } else if same(name, "zoom") {
        Some(Cmd::ToggleZoom)
    } else if same(name, "focus-left") {
        Some(Cmd::FocusDir(Dir::Left))
    } else if same(name, "focus-right") {
        Some(Cmd::FocusDir(Dir::Right))
    } else if same(name, "focus-up") {
        Some(Cmd::FocusDir(Dir::Up))
    } else if same(name, "focus-down") {
        Some(Cmd::FocusDir(Dir::Down))
    } else if same(name, "new-tab") {
        Some(Cmd::NewTab)
    } else if same(name, "next-tab") {
        Some(Cmd::NextTab)
    } else if same(name, "prev-tab") {
        Some(Cmd::PrevTab)
    } else if same(name, "close-tab") {
        Some(Cmd::CloseTab)
    } else if same(name, "next-space") {
        Some(Cmd::NextSpace)
    } else if same(name, "prev-space") {
        Some(Cmd::PrevSpace)
    } else if same(name, "toggle-sidebar") {
        Some(Cmd::ToggleSidebar)
    } else if same(name, "toggle-bus") {
        Some(Cmd::ToggleBus)
    } else if same(name, "jump-attention") {
        Some(Cmd::JumpAttention)
    } else if same(name, "redraw") {
        Some(Cmd::Redraw)
    } else if same(name, "digest") {
        Some(Cmd::RequestDigest)
    } else {
        None
    }
}

/// The names a palette offers.
pub open spec fn palette() -> Seq<Seq<char>> {
    seq![
        "split-right"@,
        "split-down"@,
        "close-pane"@,
        "zoom"@,
        "focus-left"@,
        "focus-right"@,
        "focus-up"@,
        "focus-down"@,
        "new-tab"@,
        "next-tab"@,
        "prev-tab"@,
        "close-tab"@,
        "new-space"@,
        "next-space"@,
        "prev-space"@,
        "toggle-sidebar"@,
        "toggle-bus"@,
        "jump-attention"@,
        "digest"@,
    ]
}

/// The names a palette offers.
pub fn command_names() -> (r: Vec<&'static str>)
    ensures
        Seq::new(r@.len(), |i: int| r@[i]@) == palette(),
{
    let r: Vec<&'static str> = vec![
        "split-right",
        "split-down",
        "close-pane",
        "zoom",
        "focus-left",
        "focus-right",
        "focus-up",
        "focus-down",
        "new-tab",
        "next-tab",
        "prev-tab",
        "close-tab",
        "new-space",
        "next-space",
        "prev-space",
        "toggle-sidebar",
        "toggle-bus",
        "jump-attention",
        "digest",
    ];
    proof {
        assert(Seq::new(r@.len(), |i: int| r@[i]@) =~= palette());
    }
    r
}

// -- laws --------------------------------------------------------------------

/// How many characters each name of the palette has, its first and its last: enough to tell them
/// apart.
spec fn palette_keys() -> Seq<(int, char, char)> {
    seq![
        (11int, 's', 't'),
        (10int, 's', 'n'),
        (10int, 'c', 'e'),
        (4int, 'z', 'm'),
        (10int, 'f', 't'),
        (11int, 'f', 't'),
        (8int, 'f', 'p'),
        (10int, 'f', 'n'),
        (7int, 'n', 'b'),
        (8int, 'n', 'b'),
        (8int, 'p', 'b'),
        (9int, 'c', 'b'),
        (9int, 'n', 'e'),
        (10int, 'n', 'e'),
        (10int, 'p', 'e'),
        (14int, 't', 'r'),
        (10int, 't', 's'),
        (14int, 'j', 'n'),
        (6int, 'd', 't'),
    ]
}

/// The commands of the palette's names, but for the one that a request has a part in.
spec fn palette_commands() -> Seq<Option<Cmd>> {
    seq![
        Some(Cmd::SplitRight),
        Some(Cmd::SplitDown),
        Some(Cmd::ClosePane),
        Some(Cmd::ToggleZoom),
        Some(Cmd::FocusDir(Dir::Left)),
        Some(Cmd::FocusDir(Dir::Right)),
        Some(Cmd::FocusDir(Dir::Up)),
        Some(Cmd::FocusDir(Dir::Down)),
        Some(Cmd::NewTab),
        Some(Cmd::NextTab),
        Some(Cmd::PrevTab),
        Some(Cmd::CloseTab),
        None,
        Some(Cmd::NextSpace),
        Some(Cmd::PrevSpace),
        Some(Cmd::ToggleSidebar),
        Some(Cmd::ToggleBus),
        Some(Cmd::JumpAttention),
        Some(Cmd::RequestDigest),
    ]
}

proof fn lemma_palette_keys(i: int)
    requires
        0 <= i < palette().len(),
    ensures
        palette()[i].len() == palette_keys()[i].0,
        palette()[i][0] == palette_keys()[i].1,
        palette()[i].last() == palette_keys()[i].2,
{
    reveal_strlit("split-right");
    reveal_strlit("split-down");
    reveal_strlit("close-pane");
    reveal_strlit("zoom");
    reveal_strlit("focus-left");
    reveal_strlit("focus-right");
    reveal_strlit("focus-up");
    reveal_strlit("focus-down");
    reveal_strlit("new-tab");
    reveal_strlit("next-tab");
    reveal_strlit("prev-tab");
    reveal_strlit("close-tab");
    reveal_strlit("new-space");
    reveal_strlit("next-space");
    reveal_strlit("prev-space");
    reveal_strlit("toggle-sidebar");
    reveal_strlit("toggle-bus");
    reveal_strlit("jump-attention");
    reveal_strlit("digest");
}

proof fn lemma_palette_commands(i: int, q: RequestView)
    requires
        0 <= i < palette().len(),
        palette_commands()[i] is Some,
    ensures
        palette()[i] != "new-space"@,
        command_called(palette()[i], q) == palette_commands()[i],
{
    reveal_strlit("split-right");
    reveal_strlit("split-down");
    reveal_strlit("close-pane");
    reveal_strlit("zoom");
    reveal_strlit("focus-left");
    reveal_strlit("focus-right");
    reveal_strlit("focus-up");
    reveal_strlit("focus-down");
    reveal_strlit("new-tab");
    reveal_strlit("next-tab");
    reveal_strlit("prev-tab");
    reveal_strlit("close-tab");
    reveal_strlit("new-space");
    reveal_strlit("next-space");
    reveal_strlit("prev-space");
    reveal_strlit("toggle-sidebar");
    reveal_strlit("toggle-bus");
    reveal_strlit("jump-attention");
    reveal_strlit("digest");
    reveal_strlit("redraw");
    lemma_palette_keys(i);
}

/// Every name that the palette offers is a command's, no name is there twice, and no two names
/// are of one command.
pub proof fn law_the_palette_names_distinct_commands(
    i: int,
    j: int,
    q: RequestView,
    a: Option<Cmd>,
    b: Option<Cmd>,
)
    requires
        0 <= i < palette().len(),
        0 <= j < palette().len(),
        i != j,
        called_as(palette()[i], q, a),
        called_as(palette()[j], q, b),
    ensures
        palette()[i] != palette()[j],
        a is Some,
        b is Some,
        a != b,
{
    lemma_palette_keys(i);
    lemma_palette_keys(j);
    if palette_commands()[i] is Some {
        lemma_palette_commands(i, q);
    }
    if palette_commands()[j] is Some {
        lemma_palette_commands(j, q);
    }
}

/// A name that the palette does not offer means no command, but for the one to redraw.
pub proof fn law_other_names_are_no_commands(name: Seq<char>, q: RequestView)
    requires
        !palette().contains(name),
        name != "redraw"@,
    ensures
        called_as(name, q, None),
{
    assert forall|i: int| 0 <= i < 19 implies name != #[trigger] palette()[i] by {}
    assert(name != palette()[0]);
    assert(name != palette()[1]);
    assert(name != palette()[2]);
    assert(name != palette()[3]);
    assert(name != palette()[4]);
    assert(name != palette()[5]);
    assert(name != palette()[6]);
    assert(name != palette()[7]);
    assert(name != palette()[8]);
    assert(name != palette()[9]);
    assert(name != palette()[10]);
    assert(name != palette()[11]);
    assert(name != palette()[12]);
    assert(name != palette()[13]);
    assert(name != palette()[14]);
    assert(name != palette()[15]);
    assert(name != palette()[16]);
    assert(name != palette()[17]);
    assert(name != palette()[18]);
}

} // verus!
