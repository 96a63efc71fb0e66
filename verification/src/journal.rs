//! What happened, kept for whoever was not there to see it.

use crate::engine::{Event, EventView};
use crate::seqs::{count_where, first_where, lemma_count_take, lemma_first_where_is};
use crate::text::{decimal, number, opt_text, owned, texts};
use vstd::prelude::*;

verus! {

// -- names -------------------------------------------------------------------

/// Panes and what they are called, as text.
pub open spec fn called(names: Seq<(u64, String)>) -> Seq<(u64, Seq<char>)> {
    Seq::new(names.len(), |i: int| (names[i].0, names[i].1@))
}

/// The entry of a pane.
pub open spec fn entry_of(pane: u64) -> spec_fn((u64, Seq<char>)) -> bool {
    |n: (u64, Seq<char>)| n.0 == pane
}

/// What a pane is called: its name, or its number where it has none.
pub open spec fn name_in(names: Seq<(u64, Seq<char>)>, pane: u64) -> Seq<char> {
    let i = first_where(names, entry_of(pane));
    if i < names.len() {
        names[i].1
    } else {
        "pane"@ + decimal(pane as nat)
    }
}

/// What a pane is called: its name, or its number where it has none.
pub fn name_of(names: &Vec<(u64, String)>, pane: u64) -> (r: String)
    ensures
        r@ == name_in(called(names@), pane),
{
    let ghost ns = called(names@);
    let mut i: usize = 0;
    while i < names.len()
        invariant
            i <= names@.len(),
            ns == called(names@),
            forall|j: int| 0 <= j < i ==> !entry_of(pane)(#[trigger] ns[j]),
        decreases names@.len() - i,
    {
        if names[i].0 == pane {
            proof {
                assert(entry_of(pane)(ns[i as int]));
                lemma_first_where_is(ns, entry_of(pane), i as int);
            }
            return names[i].1.clone();
        }
        proof {
            assert(!entry_of(pane)(ns[i as int]));
        }
        i = i + 1;
    }
    proof {
        lemma_first_where_is(ns, entry_of(pane), ns.len() as int);
    }
    let mut s = owned("pane");
    s.append(number(pane).as_str());
    s
}

// -- events ------------------------------------------------------------------

/// Something that happened, and what the pane was called that it happened to.
#[derive(Debug, Clone, PartialEq, Eq)]
pub struct Recorded {
    pub event: Event,
    /// Where it happened to a pane.
    pub who: Option<String>,
}

/// The same, as values.
pub struct RecordedView {
    pub event: EventView,
    pub who: Option<Seq<char>>,
}

impl View for Recorded {
    type V = RecordedView;

    open spec fn view(&self) -> RecordedView {
        RecordedView { event: self.event@, who: opt_text(self.who) }
    }
}

/// Things that happened, as values.
pub open spec fn recorded_views(v: Seq<Recorded>) -> Seq<RecordedView> {
    Seq::new(v.len(), |i: int| v[i]@)
}

/// What is kept of an event. The name is the one that the pane had before: one that exited is
/// gone by the time this is written, and its name is what says which it was.
pub open spec fn kept_of(e: EventView, names: Seq<(u64, Seq<char>)>) -> RecordedView {
    RecordedView {
        event: e,
        who: match e {
            EventView::PaneExited { pane, status } => Some(name_in(names, pane)),
            EventView::Notice { level, text } => None,
        },
    }
}

/// What is kept of events.
pub open spec fn kept(es: Seq<EventView>, names: Seq<(u64, Seq<char>)>) -> Seq<RecordedView> {
    Seq::new(es.len(), |i: int| kept_of(es[i], names))
}

/// What is kept of events.
pub fn record(es: &Vec<Event>, names: &Vec<(u64, String)>) -> (r: Vec<Recorded>)
    ensures
        recorded_views(r@) == kept(crate::engine::event_views(es@), called(names@)),
{
    let ghost ns = called(names@);
    let mut out: Vec<Recorded> = Vec::new();
    let mut i: usize = 0;
    while i < es.len()
        invariant
            i <= es@.len(),
            ns == called(names@),
            out@.len() == i,
            forall|j: int| 0 <= j < i ==> (#[trigger] out@[j])@ == kept_of(es@[j]@, ns),
        decreases es@.len() - i,
    {
        let k = match &es[i] {
            Event::Notice { level, text } => Recorded {
                event: Event::Notice { level: *level, text: text.clone() },
                who: None,
            },
            Event::PaneExited { pane, status } => Recorded {
                event: Event::PaneExited { pane: *pane, status: *status },
                who: Some(name_of(names, *pane)),
            },
        };
        out.push(k);
        i = i + 1;
    }
    proof {
        assert(recorded_views(out@) =~= kept(crate::engine::event_views(es@), ns));
    }
    out
}

// -- the journal -------------------------------------------------------------

/// What an entry tells of.
#[derive(Debug, Clone, PartialEq, Eq)]
pub enum Happening {
    /// Something that clients were told of, or would have been.
    Event(Recorded),
    /// A rule acted.
    Fired(String),
    /// Something was done about an agent, or somebody was told.
    Notified(String),
}

/// The same, as values.
pub enum HappeningView {
    Event(RecordedView),
    Fired(Seq<char>),
    Notified(Seq<char>),
}

impl View for Happening {
    type V = HappeningView;

    open spec fn view(&self) -> HappeningView {
        match *self {
            Happening::Event(r) => HappeningView::Event(r@),
            Happening::Fired(t) => HappeningView::Fired(t@),
            Happening::Notified(t) => HappeningView::Notified(t@),
        }
    }
}

/// One line of the journal.
#[derive(Debug, Clone, PartialEq, Eq)]
pub struct Entry {
    pub at: u64,
    pub what: Happening,
}

/// The same, as values.
pub struct EntryView {
    pub at: u64,
    pub what: HappeningView,
}

impl View for Entry {
    type V = EntryView;

    open spec fn view(&self) -> EntryView {
        EntryView { at: self.at, what: self.what@ }
    }
}

/// What happened, in order.
pub struct Journal {
    pub entries: Vec<Entry>,
}

impl View for Journal {
    type V = Seq<EntryView>;

    open spec fn view(&self) -> Seq<EntryView> {
        Seq::new(self.entries@.len(), |i: int| self.entries@[i]@)
    }
}

/// A firing no longer ago than from.
pub open spec fn fired_from(from: int) -> spec_fn(EntryView) -> bool {
    |e: EntryView| e.at >= from && e.what is Fired
}

/// Lines about what was done, as entries of one moment.
pub open spec fn notified(lines: Seq<Seq<char>>, now: u64) -> Seq<EntryView> {
    Seq::new(lines.len(), |i: int| EntryView { at: now, what: HappeningView::Notified(lines[i]) })
}

/// Events as entries of one moment.
pub open spec fn entered(rs: Seq<RecordedView>, now: u64) -> Seq<EntryView> {
    Seq::new(rs.len(), |i: int| EntryView { at: now, what: HappeningView::Event(rs[i]) })
}

impl Journal {
    /// An empty one.
    pub fn new() -> (r: Journal)
        ensures
            r@ == Seq::<EntryView>::empty(),
    {
        let j = Journal { entries: Vec::new() };
        proof {
            assert(j@ =~= Seq::<EntryView>::empty());
        }
        j
    }

    /// One more thing that happened.
    pub fn note(&mut self, what: Happening, now: u64)
        ensures
            final(self)@ == old(self)@.push(EntryView { at: now, what: what@ }),
    {
        let ghost before = self@;
        self.entries.push(Entry { at: now, what });
        proof {
            assert(self@ =~= before.push(EntryView { at: now, what: what@ }));
        }
    }

    /// What a tick's end recorded.
    pub fn enter(&mut self, rs: Vec<Recorded>, now: u64)
        ensures
            final(self)@ == old(self)@ + entered(recorded_views(rs@), now),
    {
        let ghost before = self@;
        let ghost all = recorded_views(rs@);
        let n: usize = rs.len();
        let mut rest = rs;
        let mut back: Vec<Recorded> = Vec::new();
        // Taken from the end, and put in from the front.
        while rest.len() > 0
            invariant
                rest@.len() <= n,
                back@.len() == n - rest@.len(),
                all.len() == n,
                forall|j: int| 0 <= j < rest@.len() ==> (#[trigger] rest@[j])@ == all[j],
                forall|j: int| 0 <= j < back@.len() ==> (#[trigger] back@[j])@ == all[n - 1 - j],
            decreases rest@.len(),
        {
            if let Some(r) = rest.pop() {
                back.push(r);
            }
        }
        proof {
            assert(self@ =~= before + entered(all, now).take(0));
        }
        let mut i: usize = 0;
        while back.len() > 0
            invariant
                i + back@.len() == n,
                all.len() == n,
                self@ == before + entered(all, now).take(i as int),
                forall|j: int| 0 <= j < back@.len() ==> (#[trigger] back@[j])@ == all[n - 1 - j],
            decreases back@.len(),
        {
            if let Some(r) = back.pop() {
                let ghost had = self@;
                self.note(Happening::Event(r), now);
                proof {
                    assert(self@ =~= before + entered(all, now).take(i as int + 1));
                }
                i = i + 1;
            }
        }
        proof {
            assert(entered(all, now).take(n as int) =~= entered(all, now));
        }
    }

    /// Lines about what was done.
    pub fn notify(&mut self, lines: &Vec<String>, now: u64)
        ensures
            final(self)@ == old(self)@ + notified(texts(lines@), now),
    {
        let ghost before = self@;
        let ghost all = notified(texts(lines@), now);
        let mut i: usize = 0;
        proof {
            assert(self@ =~= before + all.take(0));
        }
        while i < lines.len()
            invariant
                i <= lines@.len(),
                all == notified(texts(lines@), now),
                self@ == before + all.take(i as int),
            decreases lines@.len() - i,
        {
            self.note(Happening::Notified(lines[i].clone()), now);
            proof {
                assert(self@ =~= before + all.take(i as int + 1));
            }
            i = i + 1;
        }
        proof {
            assert(all.take(i as int) =~= all);
        }
    }

    /// How many rules acted in a stretch of time that ends now.
    pub fn fired_within(&self, span: u64, now: u64) -> (r: usize)
        ensures
            r as nat == count_where(
                self@,
                fired_from(if now < span { 0 } else { now - span }),
            ),
    {
        let from: u64 = now.saturating_sub(span);
        let ghost p = fired_from(from as int);
        let ghost all = self@;
        let mut n: usize = 0;
        let mut i: usize = 0;
        proof {
            assert(all.take(0) =~= Seq::<EntryView>::empty());
        }
        while i < self.entries.len()
            invariant
                i <= self.entries@.len(),
                n <= i,
                all == self@,
                p == fired_from(from as int),
                n as nat == count_where(all.take(i as int), p),
            decreases self.entries@.len() - i,
        {
            proof {
                lemma_count_take(all, p, i as int);
            }
            let e = &self.entries[i];
            let fired = match &e.what {
                Happening::Fired(t) => true,
                Happening::Event(r) => false,
                Happening::Notified(t) => false,
            };
            if e.at >= from && fired {
                n = n + 1;
            }
            i = i + 1;
        }
        proof {
            assert(all.take(i as int) =~= all);
        }
        n
    }
}

// -- laws --------------------------------------------------------------------

/// Nothing that happens is left out of the journal, whether anybody is attached or not: what a
/// tick's end records has an entry for each event, in order.
pub proof fn law_every_event_is_entered(
    es: Seq<EventView>,
    names: Seq<(u64, Seq<char>)>,
    had: Seq<EntryView>,
    now: u64,
    i: int,
)
    requires
        0 <= i < es.len(),
    ensures
        ({
            let after = had + entered(kept(es, names), now);
            &&& after.len() == had.len() + es.len()
            &&& after[had.len() + i] == (EntryView {
                at: now,
                what: HappeningView::Event(kept_of(es[i], names)),
            })
        }),
{
}

/// A pane that is gone is recorded under the name it had.
pub proof fn law_an_exit_is_recorded_under_the_name_it_had(
    names: Seq<(u64, Seq<char>)>,
    k: int,
    status: i32,
)
    requires
        0 <= k < names.len(),
        forall|j: int| 0 <= j < k ==> (#[trigger] names[j]).0 != names[k].0,
    ensures
        kept_of(EventView::PaneExited { pane: names[k].0, status }, names).who == Some(names[k].1),
{
    let p = entry_of(names[k].0);
    assert forall|j: int| 0 <= j < k implies !p(#[trigger] names[j]) by {
        assert(names[j].0 != names[k].0);
    }
    lemma_first_where_is(names, p, k);
}

} // verus!
