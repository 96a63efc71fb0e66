//! Language servers, as far as a person is told of them.

use crate::commands::Level;
use crate::paths::{same_path, same_place};
use crate::seqs::{lemma_pick_take, pick};
use crate::state::{Session, SessionView};
use crate::text::{as_opt, opt_str, opt_text, own_opt, owned};
use vstd::prelude::*;
use vstd::string::*;

verus! {

/// How a language server is.
#[derive(Debug, Clone, Copy, PartialEq, Eq, Structural)]
pub enum ServerState {
    Starting,
    Ready,
    /// It died, and is given a moment.
    Waiting,
    /// It keeps dying.
    Failed,
}

/// What is said of a server beside its state: why it waits or failed, or else its last words, or
/// else what was run, which is usually the whole answer. Of one that is ready, nothing.
pub open spec fn detail_of(
    state: ServerState,
    why: Option<Seq<char>>,
    last_error: Option<Seq<char>>,
    command: Seq<char>,
) -> Option<Seq<char>> {
    if state == ServerState::Ready {
        None
    } else if (state == ServerState::Waiting || state == ServerState::Failed) && why is Some {
        why
    } else if last_error is Some {
        last_error
    } else {
        Some(command)
    }
}

/// What is said of a server beside its state.
pub fn server_detail(
    state: ServerState,
    why: Option<&str>,
    last_error: Option<&str>,
    command: &str,
) -> (r: Option<String>)
    ensures
        opt_text(r) == detail_of(state, opt_str(why), opt_str(last_error), command@),
{
    if state == ServerState::Ready {
        return None;
    }
    if (state == ServerState::Waiting || state == ServerState::Failed) && why.is_some() {
        return own_opt(why);
    }
    match last_error {
        Some(e) => Some(owned(e)),
        None => Some(owned(command)),
    }
}

/// A server that runs, or ran.
#[derive(Debug, Clone, PartialEq, Eq)]
pub struct Serving {
    /// The project it serves.
    pub root: String,
    pub lang: String,
    pub state: ServerState,
    /// Why it waits or failed.
    pub why: Option<String>,
    pub last_error: Option<String>,
    pub command: String,
    pub open: usize,
    pub errors: usize,
    pub warnings: usize,
}

/// The same, as text.
pub struct ServingView {
    pub root: Seq<char>,
    pub lang: Seq<char>,
    pub state: ServerState,
    pub why: Option<Seq<char>>,
    pub last_error: Option<Seq<char>>,
    pub command: Seq<char>,
    pub open: usize,
    pub errors: usize,
    pub warnings: usize,
}

impl View for Serving {
    type V = ServingView;

    open spec fn view(&self) -> ServingView {
        ServingView {
            root: self.root@,
            lang: self.lang@,
            state: self.state,
            why: opt_text(self.why),
            last_error: opt_text(self.last_error),
            command: self.command@,
            open: self.open,
            errors: self.errors,
            warnings: self.warnings,
        }
    }
}

/// What a client is shown of a server.
#[derive(Debug, Clone, PartialEq, Eq)]
pub struct LspInfo {
    pub lang: String,
    pub state: ServerState,
    pub open: usize,
    pub errors: usize,
    pub warnings: usize,
    pub detail: Option<String>,
}

/// The same, as text.
pub struct LspInfoView {
    pub lang: Seq<char>,
    pub state: ServerState,
    pub open: usize,
    pub errors: usize,
    pub warnings: usize,
    pub detail: Option<Seq<char>>,
}

impl View for LspInfo {
    type V = LspInfoView;

    open spec fn view(&self) -> LspInfoView {
        LspInfoView {
            lang: self.lang@,
            state: self.state,
            open: self.open,
            errors: self.errors,
            warnings: self.warnings,
            detail: opt_text(self.detail),
        }
    }
}

/// Servers, as text.
pub open spec fn serving_views(v: Seq<Serving>) -> Seq<ServingView> {
    Seq::new(v.len(), |i: int| v[i]@)
}

/// What is shown of them, as text.
pub open spec fn info_views(v: Seq<LspInfo>) -> Seq<LspInfoView> {
    Seq::new(v.len(), |i: int| v[i]@)
}

/// A server of this project.
pub open spec fn serves(root: Seq<char>) -> spec_fn(ServingView) -> bool {
    |x: ServingView| same_place(x.root, root)
}

/// What is shown of a server.
pub open spec fn shown_as() -> spec_fn(ServingView) -> LspInfoView {
    |x: ServingView|
        LspInfoView {
            lang: x.lang,
            state: x.state,
            open: x.open,
            errors: x.errors,
            warnings: x.warnings,
            detail: detail_of(x.state, x.why, x.last_error, x.command),
        }
}

/// What is shown of the servers of a space.
pub open spec fn serving_in(s: SessionView, space: u64, all: Seq<ServingView>) -> Seq<LspInfoView> {
    if s.has_space(space) {
        pick(all, serves(s.spaces[s.space_at(space)].cwd), shown_as())
    } else {
        Seq::empty()
    }
}

/// What is shown of a server.
fn info_of(x: &Serving) -> (r: LspInfo)
    ensures
        r@ == shown_as()(x@),
{
    LspInfo {
        lang: x.lang.clone(),
        state: x.state,
        open: x.open,
        errors: x.errors,
        warnings: x.warnings,
        detail: server_detail(
            x.state,
            as_opt(&x.why),
            as_opt(&x.last_error),
            x.command.as_str(),
        ),
    }
}

/// What is shown of the servers of a space.
pub fn lsp_info(s: &Session, space: u64, all: &Vec<Serving>) -> (r: Vec<LspInfo>)
    ensures
        info_views(r@) == serving_in(s@, space, serving_views(all@)),
{
    let mut out: Vec<LspInfo> = Vec::new();
    let root = match s.space(space) {
        Some(sp) => sp.cwd.as_str(),
        None => {
            proof {
                assert(info_views(out@) =~= Seq::<LspInfoView>::empty());
            }
            return out;
        },
    };
    let ghost views = serving_views(all@);
    let mut i: usize = 0;
    proof {
        assert(info_views(out@) =~= pick(views.take(0), serves(root@), shown_as()));
    }
    while i < all.len()
        invariant
            i <= all@.len(),
            views == serving_views(all@),
            info_views(out@) == pick(views.take(i as int), serves(root@), shown_as()),
        decreases all@.len() - i,
    {
        proof {
            lemma_pick_take(views, serves(root@), shown_as(), i as int);
            assert(views[i as int] == all@[i as int]@);
        }
        if same_path(all[i].root.as_str(), root) {
            let ghost had = info_views(out@);
            let x = info_of(&all[i]);
            let ghost v = x@;
            out.push(x);
            proof {
                assert(info_views(out@) =~= had.push(v));
            }
        }
        i = i + 1;
    }
    proof {
        assert(views.take(i as int) =~= views);
    }
    out
}

/// What is said of a server that came up.
pub open spec fn ready_text(lang: Seq<char>) -> Seq<char> {
    lang + " language server ready"@
}

/// What is said of a server that came up.
pub fn server_ready(lang: &str) -> (r: (Level, String))
    ensures
        r.0 == Level::Info,
        r.1@ == ready_text(lang@),
{
    let mut m = owned(lang);
    m.append(" language server ready");
    (Level::Info, m)
}

/// What is said of a server that died: one is "wait a moment", the other "fix your config".
pub open spec fn death_text(lang: Seq<char>, gave_up: bool, why: Seq<char>) -> Seq<char> {
    lang + (if gave_up {
        " language server keeps dying, giving up: "@
    } else {
        " language server died, restarting: "@
    }) + why
}

/// What is said of a server that died.
pub fn server_died(lang: &str, gave_up: bool, why: &str) -> (r: (Level, String))
    ensures
        r.0 == Level::Warn,
        r.1@ == death_text(lang@, gave_up, why@),
{
    let mut m = owned(lang);
    if gave_up {
        m.append(" language server keeps dying, giving up: ");
    } else {
        m.append(" language server died, restarting: ");
    }
    m.append(why);
    (Level::Warn, m)
}

} // verus!
