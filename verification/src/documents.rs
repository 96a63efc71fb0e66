//! Documents that editors have open, and what language servers say of them.
//!
//! A server deals in whole paths and an editor in relative ones, so what is open is remembered
//! under the first together with the second. A server publishes what it thinks of whatever it
//! feels like looking at; only what is on somebody's screen is passed on.

use crate::commands::Level;
use crate::engine::{client_is, ClientView, Engine, EngineView, Event, EventView};
use crate::notebook::{doc_path, document};
use crate::paths::{place, same_path};
use crate::seqs::{first_where, lemma_first_where, lemma_first_where_is};
use crate::servers::{death_text, ready_text, server_died, server_ready};
use crate::state::{Session, SessionView};
use crate::text::{opt_str, opt_text, owned};
use vstd::prelude::*;
use vstd::string::*;

verus! {

/// A document that is open, and what its editor calls it.
#[derive(Debug, Clone, PartialEq, Eq)]
pub struct OpenDoc {
    pub path: String,
    pub rel: String,
}

/// What each document that is open is called, by its place, however the path is written.
pub open spec fn table(v: Seq<OpenDoc>) -> Map<Seq<Seq<char>>, Seq<char>>
    decreases v.len(),
{
    if v.len() == 0 {
        Map::empty()
    } else {
        table(v.drop_last()).insert(place(v.last().path@), v.last().rel@)
    }
}

/// What the document at a path is called.
pub open spec fn called(t: Map<Seq<Seq<char>>, Seq<char>>, path: Seq<char>) -> Option<Seq<char>> {
    if t.dom().contains(place(path)) {
        Some(t[place(path)])
    } else {
        None
    }
}

/// What is open, and which client last asked for completions.
pub struct Docs {
    pub open: Vec<OpenDoc>,
    pub asked: Option<u64>,
}

/// The same, as values.
#[verifier::ext_equal]
pub struct DocsView {
    pub open: Map<Seq<Seq<char>>, Seq<char>>,
    pub asked: Option<u64>,
}

impl View for Docs {
    type V = DocsView;

    open spec fn view(&self) -> DocsView {
        DocsView { open: table(self.open@), asked: self.asked }
    }
}

/// What a language server is told of a document: where it is, and the project it is in.
#[derive(Debug, Clone, PartialEq, Eq)]
pub struct Sync {
    pub path: String,
    pub root: String,
}

/// The same, as text.
pub open spec fn sync_view(s: Option<Sync>) -> Option<(Seq<char>, Seq<char>)> {
    match s {
        Some(x) => Some((x.path@, x.root@)),
        None => None,
    }
}

/// Which document a server is told of: one of a project that is there, at a place that is
/// allowed, in a language that a server speaks.
pub open spec fn synced(
    s: SessionView,
    space: u64,
    rel: Seq<char>,
    vault: bool,
    vault_root: Option<Seq<char>>,
    spoken: bool,
) -> Option<(Seq<char>, Seq<char>)> {
    match document(s, space, rel, vault, vault_root) {
        Some(p) if spoken && s.has_space(space) => Some((p, s.spaces[s.space_at(space)].cwd)),
        _ => None,
    }
}

/// Which document a server is told of. `spoken` says whether there is one for its language.
fn sync_of(
    s: &Session,
    space: u64,
    rel: &str,
    vault: bool,
    vault_root: Option<&str>,
    spoken: bool,
) -> (r: Option<Sync>)
    ensures
        sync_view(r) == synced(s@, space, rel@, vault, opt_str(vault_root), spoken),
{
    let path = match doc_path(s, space, rel, vault, vault_root) {
        Some(p) => p,
        None => {
            return None;
        },
    };
    if !spoken {
        return None;
    }
    match s.space(space) {
        Some(sp) => Some(Sync { path, root: sp.cwd.clone() }),
        None => None,
    }
}

impl Docs {
    /// Nothing is open.
    pub fn new() -> (r: Docs)
        ensures
            r@ == (DocsView { open: Map::empty(), asked: None }),
    {
        Docs { open: Vec::new(), asked: None }
    }

    /// What a document is called.
    pub fn name_of(&self, path: &str) -> (r: Option<String>)
        ensures
            opt_text(r) == called(self@.open, path@),
    {
        let mut found: Option<String> = None;
        let mut i: usize = 0;
        while i < self.open.len()
            invariant
                i <= self.open@.len(),
                opt_text(found) == called(table(self.open@.take(i as int)), path@),
            decreases self.open@.len() - i,
        {
            proof {
                assert(self.open@.take(i + 1).drop_last() =~= self.open@.take(i as int));
            }
            if same_path(self.open[i].path.as_str(), path) {
                found = Some(self.open[i].rel.clone());
            }
            i = i + 1;
        }
        proof {
            assert(self.open@.take(i as int) =~= self.open@);
        }
        found
    }

    /// Forget a document.
    fn forget(&mut self, path: &str)
        ensures
            final(self)@ == (DocsView { open: old(self)@.open.remove(place(path@)), ..old(self)@ }),
    {
        let mut kept: Vec<OpenDoc> = Vec::new();
        let mut i: usize = 0;
        proof {
            assert(table(kept@) =~= table(self.open@.take(0)).remove(place(path@)));
        }
        while i < self.open.len()
            invariant
                i <= self.open@.len(),
                self.open@ == old(self).open@,
                self.asked == old(self).asked,
                table(kept@) == table(self.open@.take(i as int)).remove(place(path@)),
            decreases self.open@.len() - i,
        {
            let d = &self.open[i];
            proof {
                assert(self.open@.take(i + 1).drop_last() =~= self.open@.take(i as int));
            }
            if !same_path(d.path.as_str(), path) {
                let ghost had = kept@;
                kept.push(OpenDoc { path: d.path.clone(), rel: d.rel.clone() });
                proof {
                    assert(kept@.drop_last() =~= had);
                }
            }
            proof {
                assert(table(kept@) =~= table(self.open@.take(i + 1)).remove(place(path@)));
            }
            i = i + 1;
        }
        proof {
            assert(self.open@.take(i as int) =~= self.open@);
        }
        self.open = kept;
    }

    /// An editor's text changed: remember what it calls the document, and say what a server is
    /// to be told.
    pub fn doc_changed(
        &mut self,
        s: &Session,
        space: u64,
        rel: &str,
        vault: bool,
        vault_root: Option<&str>,
        spoken: bool,
    ) -> (r: Option<Sync>)
        ensures
            sync_view(r) == synced(s@, space, rel@, vault, opt_str(vault_root), spoken),
            final(self)@ == (match sync_view(r) {
                Some((path, root)) => DocsView {
                    open: old(self)@.open.insert(place(path), rel@),
                    ..old(self)@
                },
                None => old(self)@,
            }),
    {
        let told = sync_of(s, space, rel, vault, vault_root, spoken);
        if let Some(x) = &told {
            self.forget(x.path.as_str());
            let ghost had = self.open@;
            self.open.push(OpenDoc { path: x.path.clone(), rel: owned(rel) });
            proof {
                assert(self.open@.drop_last() =~= had);
                assert(self@.open =~= old(self)@.open.insert(place(x.path@), rel@));
            }
        }
        told
    }

    /// An editor closed a document: forget it, and say what a server is to be told.
    pub fn doc_closed(
        &mut self,
        s: &Session,
        space: u64,
        rel: &str,
        vault: bool,
        vault_root: Option<&str>,
        spoken: bool,
    ) -> (r: Option<Sync>)
        ensures
            sync_view(r) == synced(s@, space, rel@, vault, opt_str(vault_root), spoken),
            final(self)@ == (match sync_view(r) {
                Some((path, root)) => DocsView {
                    open: old(self)@.open.remove(place(path)),
                    ..old(self)@
                },
                None => old(self)@,
            }),
    {
        let told = sync_of(s, space, rel, vault, vault_root, spoken);
        if let Some(x) = &told {
            self.forget(x.path.as_str());
        }
        told
    }

    /// A client asks how a line could go on. Its text goes with the question: an answer about
    /// text a server has not been shown is an answer about another document.
    pub fn complete(
        &mut self,
        id: u64,
        s: &Session,
        space: u64,
        rel: &str,
        vault: bool,
        vault_root: Option<&str>,
        spoken: bool,
    ) -> (r: Option<Sync>)
        ensures
            sync_view(r) == synced(s@, space, rel@, vault, opt_str(vault_root), spoken),
            final(self)@ == (match sync_view(r) {
                Some((path, root)) => DocsView {
                    open: old(self)@.open.insert(place(path), rel@),
                    asked: Some(id),
                },
                None => old(self)@,
            }),
    {
        let told = self.doc_changed(s, space, rel, vault, vault_root, spoken);
        if told.is_some() {
            self.asked = Some(id);
        }
        told
    }
}

// -- what servers say ----------------------------------------------------------

/// Something a language server did. What it found stays where it is, by the number of the event.
#[derive(Debug, Clone, PartialEq, Eq)]
pub enum ServerEvent {
    Ready { lang: String },
    Exited { lang: String, gave_up: bool, why: String },
    Completions { path: String },
    Reply,
    Diagnostics { path: String },
}

/// What one event found, passed on: to whom, and under which name.
#[derive(Debug, Clone, PartialEq, Eq)]
pub struct Routed {
    pub event: usize,
    pub rel: String,
    pub to: Vec<u64>,
}

/// The same, as values.
pub struct RoutedView {
    pub event: usize,
    pub rel: Seq<char>,
    pub to: Seq<u64>,
}

impl View for Routed {
    type V = RoutedView;

    open spec fn view(&self) -> RoutedView {
        RoutedView { event: self.event, rel: self.rel@, to: self.to@ }
    }
}

/// What is passed on, as values.
pub open spec fn routed_views(v: Seq<Routed>) -> Seq<RoutedView> {
    Seq::new(v.len(), |i: int| v[i]@)
}

/// Every client there is.
pub open spec fn everybody(cs: Seq<ClientView>) -> Seq<u64> {
    Seq::new(cs.len(), |i: int| cs[i].id)
}

/// Whether a client is there.
pub open spec fn is_there(cs: Seq<ClientView>, id: u64) -> bool {
    first_where(cs, client_is(id)) < cs.len()
}

/// What an event is passed on as. Completions go to whoever asked and to nobody else;
/// diagnostics go to everybody, for a document that is open.
pub open spec fn passed_on(
    d: DocsView,
    cs: Seq<ClientView>,
    ev: ServerEvent,
    n: usize,
) -> Option<RoutedView> {
    match ev {
        ServerEvent::Completions { path } => match (called(d.open, path@), d.asked) {
            (Some(rel), Some(id)) if is_there(cs, id) => Some(
                RoutedView { event: n, rel, to: seq![id] },
            ),
            _ => None,
        },
        ServerEvent::Diagnostics { path } => match called(d.open, path@) {
            Some(rel) => Some(RoutedView { event: n, rel, to: everybody(cs) }),
            None => None,
        },
        _ => None,
    }
}

/// What a person is told of an event.
pub open spec fn said_of(ev: ServerEvent) -> Option<EventView> {
    match ev {
        ServerEvent::Ready { lang } => Some(
            EventView::Notice { level: Level::Info, text: ready_text(lang@) },
        ),
        ServerEvent::Exited { lang, gave_up, why } => Some(
            EventView::Notice { level: Level::Warn, text: death_text(lang@, gave_up, why@) },
        ),
        _ => None,
    }
}

/// The documents after an event: a question for completions has been answered once.
pub open spec fn after_event(d: DocsView, ev: ServerEvent) -> DocsView {
    match ev {
        ServerEvent::Completions { path } => DocsView { asked: None, ..d },
        _ => d,
    }
}

/// The documents after the first `n` events.
pub open spec fn after_events(d: DocsView, evs: Seq<ServerEvent>, n: int) -> DocsView
    decreases n,
{
    if n <= 0 {
        d
    } else {
        after_event(after_events(d, evs, n - 1), evs[n - 1])
    }
}

/// What the first `n` events are passed on as.
pub open spec fn all_passed_on(
    d: DocsView,
    cs: Seq<ClientView>,
    evs: Seq<ServerEvent>,
    n: int,
) -> Seq<RoutedView>
    decreases n,
{
    if n <= 0 {
        Seq::empty()
    } else {
        let before = all_passed_on(d, cs, evs, n - 1);
        match passed_on(after_events(d, evs, n - 1), cs, evs[n - 1], (n - 1) as usize) {
            Some(r) => before.push(r),
            None => before,
        }
    }
}

/// What a person is told of the first `n` events.
pub open spec fn all_said(evs: Seq<ServerEvent>, n: int) -> Seq<EventView>
    decreases n,
{
    if n <= 0 {
        Seq::empty()
    } else {
        match said_of(evs[n - 1]) {
            Some(x) => all_said(evs, n - 1).push(x),
            None => all_said(evs, n - 1),
        }
    }
}

/// Whether any of the first `n` events brought diagnostics. Their counts are part of the
/// snapshot.
pub open spec fn any_diagnosed(evs: Seq<ServerEvent>, n: int) -> bool {
    exists|i: int| 0 <= i < n && (#[trigger] evs[i]) is Diagnostics
}

impl Engine {
    /// Every client there is.
    fn client_ids(&self) -> (r: Vec<u64>)
        ensures
            r@ == everybody(self@.clients),
    {
        let mut out: Vec<u64> = Vec::new();
        let mut i: usize = 0;
        while i < self.clients.len()
            invariant
                i <= self.clients@.len(),
                out@ == everybody(self@.clients).take(i as int),
            decreases self.clients@.len() - i,
        {
            out.push(self.clients[i].id);
            proof {
                assert(out@ =~= everybody(self@.clients).take(i + 1));
            }
            i = i + 1;
        }
        proof {
            assert(out@ =~= everybody(self@.clients));
        }
        out
    }

    /// Whether a client is there.
    pub fn has_client(&self, id: u64) -> (r: bool)
        ensures
            r == is_there(self@.clients, id),
    {
        let mut i: usize = 0;
        while i < self.clients.len()
            invariant
                i <= self.clients@.len(),
                forall|j: int| 0 <= j < i ==> (#[trigger] self@.clients[j]).id != id,
            decreases self.clients@.len() - i,
        {
            if self.clients[i].id == id {
                proof {
                    assert(self@.clients[i as int].id == id);
                    lemma_first_where_is(self@.clients, client_is(id), i as int);
                }
                return true;
            }
            i = i + 1;
        }
        proof {
            lemma_first_where(self@.clients, client_is(id));
        }
        false
    }

    /// What one event of a language server is passed on as.
    fn pass_on(&self, docs: &Docs, ev: &ServerEvent, n: usize) -> (r: Option<Routed>)
        ensures
            (match r {
                Some(x) => Some(x@),
                None => None,
            }) == passed_on(docs@, self@.clients, *ev, n),
    {
        match ev {
            ServerEvent::Completions { path } => match (docs.name_of(path.as_str()), docs.asked) {
                (Some(rel), Some(id)) => {
                    if self.has_client(id) {
                        let mut to: Vec<u64> = Vec::new();
                        to.push(id);
                        proof {
                            assert(to@ =~= seq![id]);
                        }
                        Some(Routed { event: n, rel, to })
                    } else {
                        None
                    }
                },
                _ => None,
            },
            ServerEvent::Diagnostics { path } => match docs.name_of(path.as_str()) {
                Some(rel) => Some(Routed { event: n, rel, to: self.client_ids() }),
                None => None,
            },
            _ => None,
        }
    }

    /// Take what language servers did: say what a person should know, and pass the rest on to
    /// whom it concerns.
    pub fn drain_lsp(&mut self, docs: &mut Docs, events: &Vec<ServerEvent>) -> (r: Vec<Routed>)
        ensures
            final(docs)@ == after_events(old(docs)@, events@, events@.len() as int),
            routed_views(r@) == all_passed_on(
                old(docs)@,
                old(self)@.clients,
                events@,
                events@.len() as int,
            ),
            final(self)@ == (EngineView {
                events: old(self)@.events + all_said(events@, events@.len() as int),
                dirty_shape: old(self)@.dirty_shape || any_diagnosed(
                    events@,
                    events@.len() as int,
                ),
                ..old(self)@
            }),
    {
        let ghost e0 = self@;
        let ghost d0 = docs@;
        let mut out: Vec<Routed> = Vec::new();
        let mut i: usize = 0;
        proof {
            assert(routed_views(out@) =~= Seq::<RoutedView>::empty());
            assert(e0.events + all_said(events@, 0) =~= e0.events);
        }
        while i < events.len()
            invariant
                i <= events@.len(),
                docs@ == after_events(d0, events@, i as int),
                routed_views(out@) == all_passed_on(d0, e0.clients, events@, i as int),
                self@ == (EngineView {
                    events: e0.events + all_said(events@, i as int),
                    dirty_shape: e0.dirty_shape || any_diagnosed(events@, i as int),
                    ..e0
                }),
            decreases events@.len() - i,
        {
            let ev = &events[i];
            let ghost had = routed_views(out@);
            if let Some(x) = self.pass_on(docs, ev, i) {
                let ghost v = x@;
                out.push(x);
                proof {
                    assert(routed_views(out@) =~= had.push(v));
                }
            }
            match ev {
                ServerEvent::Ready { lang } => {
                    let (level, text) = server_ready(lang.as_str());
                    self.emit(Event::Notice { level, text });
                },
                ServerEvent::Exited { lang, gave_up, why } => {
                    let (level, text) = server_died(lang.as_str(), *gave_up, why.as_str());
                    self.emit(Event::Notice { level, text });
                },
                ServerEvent::Completions { path } => {
                    docs.asked = None;
                },
                ServerEvent::Reply => {},
                ServerEvent::Diagnostics { path } => {
                    self.dirty_shape = true;
                },
            }
            proof {
                assert(any_diagnosed(events@, i + 1) == (any_diagnosed(events@, i as int)
                    || events@[i as int] is Diagnostics));
                assert(self@.events =~= e0.events + all_said(events@, i + 1));
            }
            i = i + 1;
        }
        out
    }
}

// -- laws ------------------------------------------------------------------------

/// Completions reach at most one client, and it is the one that asked.
pub proof fn law_completions_go_to_whoever_asked(
    d: DocsView,
    cs: Seq<ClientView>,
    path: String,
    n: usize,
)
    ensures
        passed_on(d, cs, ServerEvent::Completions { path }, n) matches Some(r) ==> d.asked is Some
            && r.to == seq![d.asked->Some_0],
        after_event(d, ServerEvent::Completions { path }).asked is None,
{
}

/// What a server says of a document that nobody has open goes nowhere.
pub proof fn law_a_document_nobody_has_open_is_passed_on_to_nobody(
    d: DocsView,
    cs: Seq<ClientView>,
    path: String,
    n: usize,
)
    requires
        !d.open.dom().contains(place(path@)),
    ensures
        passed_on(d, cs, ServerEvent::Diagnostics { path }, n) is None,
        passed_on(d, cs, ServerEvent::Completions { path }, n) is None,
{
}

} // verus!
