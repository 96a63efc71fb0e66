//! What goes out to the windows that are attached, once per tick.

use crate::engine::{
    client_views, event_views, Client, ClientView, Engine, EngineView, Event, EventView,
};
use crate::journal::{called, kept, record, recorded_views, Recorded};
use crate::pane::{copy_row, row_views, CursorPos, Row, RunView, Screen, ScreenView};
use crate::seqs::{first_where, lemma_first_where_is, lemma_pick_sound, lemma_pick_take, pick};
use vstd::prelude::*;

verus! {

// -- screens -----------------------------------------------------------------

/// A pane's screen, and where its cursor was when clients were last told.
pub struct Mirror {
    pub pane: u64,
    pub screen: Screen,
    pub cursor: CursorPos,
    pub sent: Option<CursorPos>,
}

/// The same, as values.
pub struct MirrorView {
    pub pane: u64,
    pub screen: ScreenView,
    /// Rows that changed, in order.
    pub dirty: Seq<u16>,
    pub cursor: CursorPos,
    pub sent: Option<CursorPos>,
}

impl View for Mirror {
    type V = MirrorView;

    open spec fn view(&self) -> MirrorView {
        MirrorView {
            pane: self.pane,
            screen: self.screen@,
            dirty: self.screen.dirty@,
            cursor: self.cursor,
            sent: self.sent,
        }
    }
}

/// Screens, as values.
pub open spec fn mirror_views(v: Seq<Mirror>) -> Seq<MirrorView> {
    Seq::new(v.len(), |i: int| v[i]@)
}

/// Every screen is sound.
pub open spec fn all_sound(v: Seq<Mirror>) -> bool {
    forall|i: int| 0 <= i < v.len() ==> (#[trigger] v[i]).screen.wf()
}

/// The screen of a pane.
pub open spec fn mirror_of(pane: u64) -> spec_fn(MirrorView) -> bool {
    |m: MirrorView| m.pane == pane
}

/// A cursor, which shows only in the pane in front.
pub open spec fn shown_cursor(c: CursorPos, pane: u64, front: Option<u64>) -> CursorPos {
    CursorPos { visible: c.visible && front == Some(pane), ..c }
}

// -- frames ------------------------------------------------------------------

/// A row as it is now, and where it is.
#[derive(Debug, Clone, PartialEq, Eq)]
pub struct RowUpdate {
    pub y: u16,
    pub row: Row,
}

/// The same, as values.
pub struct RowUpdateView {
    pub y: u16,
    pub row: Seq<RunView>,
}

impl View for RowUpdate {
    type V = RowUpdateView;

    open spec fn view(&self) -> RowUpdateView {
        RowUpdateView { y: self.y, row: self.row@ }
    }
}

/// Rows as they are now, as values.
pub open spec fn update_views(v: Seq<RowUpdate>) -> Seq<RowUpdateView> {
    Seq::new(v.len(), |i: int| v[i]@)
}

/// Rows of a pane, and its cursor.
#[derive(Debug, Clone, PartialEq, Eq)]
pub struct Rows {
    pub pane: u64,
    pub rows: Vec<RowUpdate>,
    pub cursor: CursorPos,
}

/// The same, as values.
pub struct RowsView {
    pub pane: u64,
    pub rows: Seq<RowUpdateView>,
    pub cursor: CursorPos,
}

impl View for Rows {
    type V = RowsView;

    open spec fn view(&self) -> RowsView {
        RowsView { pane: self.pane, rows: update_views(self.rows@), cursor: self.cursor }
    }
}

/// Rows of panes, as values.
pub open spec fn rows_views(v: Seq<Rows>) -> Seq<RowsView> {
    Seq::new(v.len(), |i: int| v[i]@)
}

/// What goes out to one window, in this order: the snapshot where there is a fresh one, panes
/// whole, what changed of others, and what is told.
#[derive(Debug, Clone, PartialEq, Eq)]
pub struct Delivery {
    pub client: u64,
    pub snapshot: bool,
    pub whole: Vec<Rows>,
    pub changed: Vec<Rows>,
}

/// The same, as values.
pub struct DeliveryView {
    pub client: u64,
    pub snapshot: bool,
    pub whole: Seq<RowsView>,
    pub changed: Seq<RowsView>,
}

impl View for Delivery {
    type V = DeliveryView;

    open spec fn view(&self) -> DeliveryView {
        DeliveryView {
            client: self.client,
            snapshot: self.snapshot,
            whole: rows_views(self.whole@),
            changed: rows_views(self.changed@),
        }
    }
}

/// Deliveries, as values.
pub open spec fn delivery_views(v: Seq<Delivery>) -> Seq<DeliveryView> {
    Seq::new(v.len(), |i: int| v[i]@)
}

/// A row of a screen, as it goes out.
pub open spec fn row_out(rows: Seq<Seq<RunView>>) -> spec_fn(u16) -> RowUpdateView {
    |y: u16| RowUpdateView { y, row: rows[y as int] }
}

/// A mirror of which nothing is left to be told.
pub open spec fn settled(m: MirrorView) -> MirrorView {
    MirrorView {
        screen: ScreenView { dirty: Set::empty(), ..m.screen },
        dirty: Seq::empty(),
        ..m
    }
}

/// A row that is there.
pub open spec fn within(rows: nat) -> spec_fn(u16) -> bool {
    |y: u16| y < rows
}

/// What one visible pane adds: its rows that changed, and its cursor. A cursor that moved is
/// reason enough, as typing a space onto a blank cell changes no row.
pub open spec fn gathered_one(
    ms: Seq<MirrorView>,
    ups: Seq<RowsView>,
    pane: u64,
    front: Option<u64>,
) -> (Seq<MirrorView>, Seq<RowsView>) {
    let k = first_where(ms, mirror_of(pane));
    if k >= ms.len() {
        (ms, ups)
    } else {
        let m = ms[k];
        let c = shown_cursor(m.cursor, pane, front);
        if m.dirty.len() == 0 && m.sent == Some(c) {
            (ms, ups)
        } else {
            (
                ms.update(k, MirrorView { sent: Some(c), ..settled(m) }),
                ups.push(
                    RowsView {
                        pane,
                        rows: pick(
                            m.dirty,
                            within(m.screen.rows.len()),
                            row_out(m.screen.rows),
                        ),
                        cursor: c,
                    },
                ),
            )
        }
    }
}

/// What the first `n` visible panes add.
pub open spec fn gathered(
    ms: Seq<MirrorView>,
    visible: Seq<u64>,
    front: Option<u64>,
    n: int,
) -> (Seq<MirrorView>, Seq<RowsView>)
    decreases n,
{
    if n <= 0 {
        (ms, Seq::empty())
    } else {
        let (ms1, ups) = gathered(ms, visible, front, n - 1);
        gathered_one(ms1, ups, visible[n - 1], front)
    }
}

/// Every row of a screen, as it goes out.
pub open spec fn all_rows(rows: Seq<Seq<RunView>>) -> Seq<RowUpdateView> {
    Seq::new(rows.len(), |i: int| RowUpdateView { y: i as u16, row: rows[i] })
}

/// A pane whole.
pub open spec fn whole_one(ms: Seq<MirrorView>, pane: u64, front: Option<u64>) -> RowsView {
    let m = ms[first_where(ms, mirror_of(pane))];
    RowsView { pane, rows: all_rows(m.screen.rows), cursor: shown_cursor(m.cursor, pane, front) }
}

/// A pane that has a screen.
pub open spec fn is_mirrored(ms: Seq<MirrorView>) -> spec_fn(u64) -> bool {
    |p: u64| first_where(ms, mirror_of(p)) < ms.len()
}

/// Panes whole.
pub open spec fn whole_of(ms: Seq<MirrorView>, need: Seq<u64>, front: Option<u64>) -> Seq<RowsView> {
    pick(need, is_mirrored(ms), |p: u64| whole_one(ms, p, front))
}

/// A pane among others.
pub open spec fn among(ps: Seq<u64>) -> spec_fn(u64) -> bool {
    |p: u64| ps.contains(p)
}

/// A pane not among others.
pub open spec fn not_among(ps: Seq<u64>) -> spec_fn(u64) -> bool {
    |p: u64| !ps.contains(p)
}

/// An update of a pane that is not sent whole anyway.
pub open spec fn not_whole(need: Seq<u64>) -> spec_fn(RowsView) -> bool {
    |u: RowsView| !need.contains(u.pane)
}

/// What goes out to one window.
pub open spec fn delivered(
    c: ClientView,
    ms: Seq<MirrorView>,
    ups: Seq<RowsView>,
    visible: Seq<u64>,
    front: Option<u64>,
    snapshot: bool,
) -> DeliveryView {
    let need = pick(c.needs_full, among(visible), |p: u64| p);
    DeliveryView {
        client: c.id,
        snapshot,
        whole: whole_of(ms, need, front),
        changed: pick(ups, not_whole(need), |u: RowsView| u),
    }
}

/// A window that has been sent what it was owed of the visible panes.
pub open spec fn paid(c: ClientView, visible: Seq<u64>) -> ClientView {
    ClientView { needs_full: pick(c.needs_full, not_among(visible), |p: u64| p), ..c }
}

/// Screens of which nothing is left to be told.
pub open spec fn drained(ms: Seq<MirrorView>) -> Seq<MirrorView> {
    Seq::new(ms.len(), |i: int| settled(ms[i]))
}

/// What a tick's end does: to the engine, to the screens, and what goes out. With nobody
/// attached the rows that changed are dropped all the same, so that they cannot pile up.
pub open spec fn sent_out(e: EngineView, ms: Seq<MirrorView>) -> (
    EngineView,
    Seq<MirrorView>,
    Seq<DeliveryView>,
) {
    if e.clients.len() == 0 {
        (EngineView { events: Seq::empty(), ..e }, drained(ms), Seq::empty())
    } else {
        let visible = e.session.in_front();
        let front = e.session.front_pane();
        let (after, ups) = gathered(ms, visible, front, visible.len() as int);
        (
            EngineView {
                dirty_shape: false,
                events: Seq::empty(),
                clients: Seq::new(e.clients.len(), |i: int| paid(e.clients[i], visible)),
                ..e
            },
            after,
            Seq::new(
                e.clients.len(),
                |i: int| delivered(e.clients[i], after, ups, visible, front, e.dirty_shape),
            ),
        )
    }
}

// -- gathering ---------------------------------------------------------------

/// Where a pane's screen is.
fn find_mirror(ms: &Vec<Mirror>, pane: u64) -> (r: usize)
    ensures
        r <= ms@.len(),
        r == first_where(mirror_views(ms@), mirror_of(pane)),
{
    let ghost vs = mirror_views(ms@);
    let mut i: usize = 0;
    while i < ms.len() && ms[i].pane != pane
        invariant
            i <= ms@.len(),
            vs == mirror_views(ms@),
            forall|j: int| 0 <= j < i ==> !mirror_of(pane)(#[trigger] vs[j]),
        decreases ms@.len() - i,
    {
        proof {
            assert(!mirror_of(pane)(vs[i as int]));
        }
        i = i + 1;
    }
    proof {
        if i < ms@.len() {
            assert(mirror_of(pane)(vs[i as int]));
        }
        lemma_first_where_is(vs, mirror_of(pane), i as int);
    }
    i
}

fn shown(c: CursorPos, pane: u64, front: Option<u64>) -> (r: CursorPos)
    ensures
        r == shown_cursor(c, pane, front),
{
    let here = match front {
        Some(f) => f == pane,
        None => false,
    };
    CursorPos { visible: c.visible && here, ..c }
}

fn holds_pane(ps: &Vec<u64>, p: u64) -> (r: bool)
    ensures
        r == ps@.contains(p),
{
    let mut i: usize = 0;
    while i < ps.len()
        invariant
            i <= ps@.len(),
            forall|j: int| 0 <= j < i ==> #[trigger] ps@[j] != p,
        decreases ps@.len() - i,
    {
        if ps[i] == p {
            return true;
        }
        i = i + 1;
    }
    false
}

/// The rows that are there, as they go out.
fn rows_within(dirty: &Vec<u16>, rows: &Vec<Row>) -> (r: Vec<RowUpdate>)
    ensures
        update_views(r@) == pick(
            dirty@,
            within(rows@.len()),
            row_out(row_views(rows@)),
        ),
{
    let ghost f = row_out(row_views(rows@));
    let ghost p = within(rows@.len());
    let mut out: Vec<RowUpdate> = Vec::new();
    let mut i: usize = 0;
    proof {
        assert(update_views(out@) =~= pick(dirty@.take(0), p, f));
    }
    while i < dirty.len()
        invariant
            i <= dirty@.len(),
            f == row_out(row_views(rows@)),
            p == within(rows@.len()),
            update_views(out@) == pick(dirty@.take(i as int), p, f),
        decreases dirty@.len() - i,
    {
        proof {
            lemma_pick_take(dirty@, p, f, i as int);
        }
        let y: u16 = dirty[i];
        if (y as usize) < rows.len() {
            let ghost had = update_views(out@);
            out.push(RowUpdate { y, row: copy_row(&rows[y as usize]) });
            proof {
                assert(update_views(out@) =~= had.push(f(y)));
            }
        }
        i = i + 1;
    }
    proof {
        assert(dirty@.take(i as int) =~= dirty@);
    }
    out
}

/// Every row, as it goes out.
fn every_row(rows: &Vec<Row>) -> (r: Vec<RowUpdate>)
    ensures
        update_views(r@) == all_rows(row_views(rows@)),
{
    let mut out: Vec<RowUpdate> = Vec::new();
    let mut i: usize = 0;
    while i < rows.len()
        invariant
            i <= rows@.len(),
            out@.len() == i,
            forall|j: int|
                0 <= j < i ==> (#[trigger] out@[j])@ == (RowUpdateView {
                    y: j as u16,
                    row: rows@[j]@,
                }),
        decreases rows@.len() - i,
    {
        out.push(RowUpdate { y: #[verifier::truncate] (i as u16), row: copy_row(&rows[i]) });
        i = i + 1;
    }
    proof {
        assert(update_views(out@) =~= all_rows(row_views(rows@)));
    }
    out
}

/// A copy of some rows.
fn copy_updates(us: &Vec<RowUpdate>) -> (r: Vec<RowUpdate>)
    ensures
        update_views(r@) == update_views(us@),
{
    let mut out: Vec<RowUpdate> = Vec::new();
    let mut i: usize = 0;
    while i < us.len()
        invariant
            i <= us@.len(),
            out@.len() == i,
            forall|j: int| 0 <= j < i ==> (#[trigger] out@[j])@ == us@[j]@,
        decreases us@.len() - i,
    {
        out.push(RowUpdate { y: us[i].y, row: copy_row(&us[i].row) });
        i = i + 1;
    }
    proof {
        assert(update_views(out@) =~= update_views(us@));
    }
    out
}

/// What one visible pane adds.
fn gather_one(ms: &mut Vec<Mirror>, ups: &mut Vec<Rows>, pane: u64, front: Option<u64>)
    requires
        all_sound(old(ms)@),
    ensures
        all_sound(final(ms)@),
        (mirror_views(final(ms)@), rows_views(final(ups)@)) == gathered_one(
            mirror_views(old(ms)@),
            rows_views(old(ups)@),
            pane,
            front,
        ),
{
    let ghost before = mirror_views(ms@);
    let k: usize = find_mirror(ms, pane);
    if k >= ms.len() {
        return;
    }
    let c = shown(ms[k].cursor, pane, front);
    let moved = match ms[k].sent {
        Some(s) => s != c,
        None => true,
    };
    if ms[k].screen.dirty.len() == 0 && !moved {
        return;
    }
    let ghost m = before[k as int];
    let dirty = ms[k].screen.take_dirty();
    ms[k].sent = Some(c);
    let rows = rows_within(&dirty, &ms[k].screen.rows);
    let ghost had = rows_views(ups@);
    ups.push(Rows { pane, rows, cursor: c });
    proof {
        assert(ms@[k as int].screen.dirty@ =~= Seq::<u16>::empty());
        assert(mirror_views(ms@) =~= before.update(
            k as int,
            MirrorView { sent: Some(c), ..settled(m) },
        ));
        assert(rows_views(ups@) =~= had.push(
            RowsView { pane, rows: update_views(rows@), cursor: c },
        ));
    }
}

/// Panes whole.
fn whole(ms: &Vec<Mirror>, need: &Vec<u64>, front: Option<u64>) -> (r: Vec<Rows>)
    ensures
        rows_views(r@) == whole_of(mirror_views(ms@), need@, front),
{
    let ghost vs = mirror_views(ms@);
    let ghost f = |p: u64| whole_one(vs, p, front);
    let mut out: Vec<Rows> = Vec::new();
    let mut i: usize = 0;
    proof {
        assert(rows_views(out@) =~= pick(need@.take(0), is_mirrored(vs), f));
    }
    while i < need.len()
        invariant
            i <= need@.len(),
            vs == mirror_views(ms@),
            f == (|p: u64| whole_one(vs, p, front)),
            rows_views(out@) == pick(need@.take(i as int), is_mirrored(vs), f),
        decreases need@.len() - i,
    {
        proof {
            lemma_pick_take(need@, is_mirrored(vs), f, i as int);
        }
        let p: u64 = need[i];
        let k: usize = find_mirror(ms, p);
        if k < ms.len() {
            let rows = every_row(&ms[k].screen.rows);
            let cursor = shown(ms[k].cursor, p, front);
            let ghost had = rows_views(out@);
            out.push(Rows { pane: p, rows, cursor });
            proof {
                assert(rows_views(out@) =~= had.push(f(p)));
            }
        }
        i = i + 1;
    }
    proof {
        assert(need@.take(i as int) =~= need@);
    }
    out
}

/// The updates of panes that are not sent whole anyway.
fn not_sent_whole(ups: &Vec<Rows>, need: &Vec<u64>) -> (r: Vec<Rows>)
    ensures
        rows_views(r@) == pick(rows_views(ups@), not_whole(need@), |u: RowsView| u),
{
    let ghost us = rows_views(ups@);
    let ghost f = |u: RowsView| u;
    let mut out: Vec<Rows> = Vec::new();
    let mut i: usize = 0;
    proof {
        assert(rows_views(out@) =~= pick(us.take(0), not_whole(need@), f));
    }
    while i < ups.len()
        invariant
            i <= ups@.len(),
            us == rows_views(ups@),
            f == (|u: RowsView| u),
            rows_views(out@) == pick(us.take(i as int), not_whole(need@), f),
        decreases ups@.len() - i,
    {
        proof {
            lemma_pick_take(us, not_whole(need@), f, i as int);
        }
        let u = &ups[i];
        if !holds_pane(need, u.pane) {
            let ghost had = rows_views(out@);
            let rows = copy_updates(&u.rows);
            out.push(Rows { pane: u.pane, rows, cursor: u.cursor });
            proof {
                assert(rows_views(out@) =~= had.push(us[i as int]));
            }
        }
        i = i + 1;
    }
    proof {
        assert(us.take(i as int) =~= us);
    }
    out
}

/// The panes that are, or are not, among those visible.
fn sift(ps: &Vec<u64>, visible: &Vec<u64>) -> (r: (Vec<u64>, Vec<u64>))
    ensures
        r.0@ == pick(ps@, among(visible@), |p: u64| p),
        r.1@ == pick(ps@, not_among(visible@), |p: u64| p),
{
    let ghost f = |p: u64| p;
    let mut yes: Vec<u64> = Vec::new();
    let mut no: Vec<u64> = Vec::new();
    let mut i: usize = 0;
    proof {
        assert(yes@ =~= pick(ps@.take(0), among(visible@), f));
        assert(no@ =~= pick(ps@.take(0), not_among(visible@), f));
    }
    while i < ps.len()
        invariant
            i <= ps@.len(),
            f == (|p: u64| p),
            yes@ == pick(ps@.take(i as int), among(visible@), f),
            no@ == pick(ps@.take(i as int), not_among(visible@), f),
        decreases ps@.len() - i,
    {
        proof {
            lemma_pick_take(ps@, among(visible@), f, i as int);
            lemma_pick_take(ps@, not_among(visible@), f, i as int);
        }
        let p: u64 = ps[i];
        if holds_pane(visible, p) {
            yes.push(p);
        } else {
            no.push(p);
        }
        i = i + 1;
    }
    proof {
        assert(ps@.take(i as int) =~= ps@);
    }
    (yes, no)
}

/// What goes out, the events that go with it to every window, and what is to be kept.
pub struct Outgoing {
    pub deliveries: Vec<Delivery>,
    pub events: Vec<Event>,
    /// Every event, whether anybody is there to be told or not: with nobody there is exactly
    /// when somebody will want to read of it later.
    pub recorded: Vec<Recorded>,
}

impl Engine {
    /// Send out what changed. `names` is what each pane was called when the tick began: one that
    /// exited is gone by now.
    pub fn broadcast(&mut self, ms: &mut Vec<Mirror>, names: &Vec<(u64, String)>) -> (r: Outgoing)
        requires
            all_sound(old(ms)@),
        ensures
            all_sound(final(ms)@),
            (final(self)@, mirror_views(final(ms)@), delivery_views(r.deliveries@)) == sent_out(
                old(self)@,
                mirror_views(old(ms)@),
            ),
            event_views(r.events@) == (if old(self)@.clients.len() == 0 {
                Seq::<EventView>::empty()
            } else {
                old(self)@.events
            }),
            recorded_views(r.recorded@) == kept(old(self)@.events, called(names@)),
            final(self).session == old(self).session,
            final(self).board == old(self).board,
    {
        let ghost e = self@;
        let ghost before = mirror_views(ms@);
        let mut events: Vec<Event> = Vec::new();
        core::mem::swap(&mut events, &mut self.events);
        let recorded = record(&events, names);
        proof {
            assert(event_views(self.events@) =~= Seq::<EventView>::empty());
        }
        if self.clients.len() == 0 {
            drain(ms);
            let none: Vec<Delivery> = Vec::new();
            let nothing: Vec<Event> = Vec::new();
            proof {
                assert(delivery_views(none@) =~= Seq::<DeliveryView>::empty());
                assert(event_views(nothing@) =~= Seq::<EventView>::empty());
            }
            return Outgoing { deliveries: none, events: nothing, recorded };
        }
        let snapshot = self.dirty_shape;
        self.dirty_shape = false;
        let visible = self.session.visible_panes();
        let front = self.session.focused_pane();
        let ghost vis = e.session.in_front();
        let mut ups: Vec<Rows> = Vec::new();
        let nv: usize = visible.len();
        let mut i: usize = 0;
        proof {
            assert(rows_views(ups@) =~= Seq::<RowsView>::empty());
        }
        while i < nv
            invariant
                i <= nv,
                nv == visible@.len(),
                visible@ == vis,
                all_sound(ms@),
                (mirror_views(ms@), rows_views(ups@)) == gathered(before, vis, front, i as int),
            decreases nv - i,
        {
            gather_one(ms, &mut ups, visible[i], front);
            i = i + 1;
        }
        let ghost after = mirror_views(ms@);
        let ghost us = rows_views(ups@);
        let ghost cs = e.clients;
        let mut out: Vec<Delivery> = Vec::new();
        let nc: usize = self.clients.len();
        let ghost rest = self@;
        let mut k: usize = 0;
        while k < nc
            invariant
                k <= nc,
                nc == self.clients@.len(),
                cs.len() == nc,
                visible@ == vis,
                after == mirror_views(ms@),
                us == rows_views(ups@),
                self@ == (EngineView { clients: self@.clients, ..rest }),
                self.session == old(self).session,
                self.board == old(self).board,
                out@.len() == k,
                forall|j: int|
                    0 <= j < k ==> (#[trigger] out@[j])@ == delivered(
                        cs[j],
                        after,
                        us,
                        vis,
                        front,
                        snapshot,
                    ),
                forall|j: int| 0 <= j < k ==> (#[trigger] self.clients@[j])@ == paid(cs[j], vis),
                forall|j: int| k <= j < nc ==> (#[trigger] self.clients@[j])@ == cs[j],
            decreases nc - k,
        {
            let (need, left) = sift(&self.clients[k].needs_full, &visible);
            let id: u64 = self.clients[k].id;
            self.clients[k].needs_full = left;
            let full = whole(ms, &need, front);
            let changed = not_sent_whole(&ups, &need);
            out.push(Delivery { client: id, snapshot, whole: full, changed });
            k = k + 1;
        }
        proof {
            assert(self@.clients =~= Seq::new(cs.len(), |i: int| paid(cs[i], vis)));
            assert(delivery_views(out@) =~= Seq::new(
                cs.len(),
                |i: int| delivered(cs[i], after, us, vis, front, snapshot),
            ));
        }
        Outgoing { deliveries: out, events, recorded }
    }
}

/// Take every row that changed as told.
fn drain(ms: &mut Vec<Mirror>)
    requires
        all_sound(old(ms)@),
    ensures
        all_sound(final(ms)@),
        mirror_views(final(ms)@) == drained(mirror_views(old(ms)@)),
{
    let ghost before = mirror_views(ms@);
    let n: usize = ms.len();
    let mut i: usize = 0;
    while i < n
        invariant
            i <= n,
            n == ms@.len(),
            n == before.len(),
            all_sound(ms@),
            forall|j: int|
                0 <= j < i ==> (#[trigger] ms@[j])@ == settled(before[j]),
            forall|j: int| i <= j < n ==> (#[trigger] ms@[j])@ == before[j],
        decreases n - i,
    {
        let _ = ms[i].screen.take_dirty();
        proof {
            assert(ms@[i as int].screen.dirty@ =~= Seq::<u16>::empty());
        }
        i = i + 1;
    }
    proof {
        assert(mirror_views(ms@) =~= drained(before));
    }
}

// -- windows that are gone -----------------------------------------------------

/// A window that could still be reached.
pub open spec fn reached(gone: Seq<u64>) -> spec_fn(ClientView) -> bool {
    |c: ClientView| !gone.contains(c.id)
}

impl Engine {
    /// Windows that could not be reached are taken as gone.
    pub fn forget(&mut self, gone: &Vec<u64>)
        ensures
            final(self)@ == (EngineView {
                clients: pick(old(self)@.clients, reached(gone@), |c: ClientView| c),
                ..old(self)@
            }),
    {
        let ghost cs = self@.clients;
        let ghost p = reached(gone@);
        let ghost f = |c: ClientView| c;
        let mut all: Vec<Client> = Vec::new();
        core::mem::swap(&mut all, &mut self.clients);
        let mut out: Vec<Client> = Vec::new();
        let mut i: usize = 0;
        proof {
            assert(client_views(out@) =~= pick(cs.take(0), p, f));
        }
        while i < all.len()
            invariant
                i <= all@.len(),
                cs == client_views(all@),
                p == reached(gone@),
                f == (|c: ClientView| c),
                client_views(out@) == pick(cs.take(i as int), p, f),
            decreases all@.len() - i,
        {
            proof {
                lemma_pick_take(cs, p, f, i as int);
            }
            let c = &all[i];
            if !holds_pane(gone, c.id) {
                let ghost had = client_views(out@);
                let needs_full = c.needs_full.clone();
                proof {
                    assert(needs_full@ =~= c.needs_full@);
                }
                out.push(Client { id: c.id, cols: c.cols, rows: c.rows, needs_full });
                proof {
                    assert(client_views(out@) =~= had.push(cs[i as int]));
                }
            }
            i = i + 1;
        }
        proof {
            assert(cs.take(i as int) =~= cs);
        }
        self.clients = out;
    }
}

// -- laws --------------------------------------------------------------------

/// A pane that is sent whole is not sent again as a change.
pub proof fn law_a_whole_pane_is_sent_once(
    c: ClientView,
    ms: Seq<MirrorView>,
    ups: Seq<RowsView>,
    visible: Seq<u64>,
    front: Option<u64>,
    snapshot: bool,
    i: int,
    j: int,
)
    requires
        0 <= i < delivered(c, ms, ups, visible, front, snapshot).whole.len(),
        0 <= j < delivered(c, ms, ups, visible, front, snapshot).changed.len(),
    ensures
        delivered(c, ms, ups, visible, front, snapshot).whole[i].pane != delivered(
            c,
            ms,
            ups,
            visible,
            front,
            snapshot,
        ).changed[j].pane,
{
    let need = pick(c.needs_full, among(visible), |p: u64| p);
    let a = lemma_pick_sound(need, is_mirrored(ms), |p: u64| whole_one(ms, p, front), i);
    let b = lemma_pick_sound(ups, not_whole(need), |u: RowsView| u, j);
    assert(need.contains(need[a]));
}

/// A cursor that moved goes out though no row changed.
pub proof fn law_a_moved_cursor_is_sent(
    ms: Seq<MirrorView>,
    ups: Seq<RowsView>,
    pane: u64,
    front: Option<u64>,
)
    requires
        first_where(ms, mirror_of(pane)) < ms.len(),
        ({
            let m = ms[first_where(ms, mirror_of(pane))];
            m.sent != Some(shown_cursor(m.cursor, pane, front))
        }),
    ensures
        ({
            let m = ms[first_where(ms, mirror_of(pane))];
            let after = gathered_one(ms, ups, pane, front).1;
            &&& after.len() == ups.len() + 1
            &&& after.last().pane == pane
            &&& after.last().cursor == shown_cursor(m.cursor, pane, front)
        }),
{
}

/// What has been told is not told again: the same pane, with nothing new, adds nothing.
pub proof fn law_nothing_is_told_twice(
    ms: Seq<MirrorView>,
    ups: Seq<RowsView>,
    pane: u64,
    front: Option<u64>,
)
    ensures
        ({
            let (ms1, ups1) = gathered_one(ms, ups, pane, front);
            gathered_one(ms1, ups1, pane, front) == (ms1, ups1)
        }),
{
    let k = first_where(ms, mirror_of(pane));
    crate::seqs::lemma_first_where(ms, mirror_of(pane));
    let (ms1, ups1) = gathered_one(ms, ups, pane, front);
    if k < ms.len() {
        assert forall|j: int| 0 <= j < k implies !mirror_of(pane)(#[trigger] ms1[j]) by {
            assert(ms1[j] == ms[j]);
        }
        assert(mirror_of(pane)(ms[k]));
        assert(mirror_of(pane)(ms1[k]));
        lemma_first_where_is(ms1, mirror_of(pane), k);
    }
}

/// What is sent of a row is what is on the screen: of a pane whole, every row of it in order.
pub proof fn law_a_whole_pane_is_sent_as_it_is(
    ms: Seq<MirrorView>,
    need: Seq<u64>,
    front: Option<u64>,
    i: int,
) -> (k: int)
    requires
        0 <= i < whole_of(ms, need, front).len(),
    ensures
        0 <= k < ms.len(),
        ms[k].pane == whole_of(ms, need, front)[i].pane,
        whole_of(ms, need, front)[i].rows == all_rows(ms[k].screen.rows),
{
    let a = lemma_pick_sound(need, is_mirrored(ms), |p: u64| whole_one(ms, p, front), i);
    let k = first_where(ms, mirror_of(need[a]));
    crate::seqs::lemma_first_where(ms, mirror_of(need[a]));
    assert(mirror_of(need[a])(ms[k]));
    k
}

/// Sending out changes nothing on any screen.
pub proof fn law_sending_out_keeps_the_screens(e: EngineView, ms: Seq<MirrorView>, i: int)
    requires
        0 <= i < ms.len(),
    ensures
        sent_out(e, ms).1.len() == ms.len(),
        sent_out(e, ms).1[i].pane == ms[i].pane,
        sent_out(e, ms).1[i].screen.rows == ms[i].screen.rows,
        sent_out(e, ms).1[i].screen.live == ms[i].screen.live,
        sent_out(e, ms).1[i].screen.full_repaint == ms[i].screen.full_repaint,
{
    if e.clients.len() > 0 {
        let visible = e.session.in_front();
        lemma_gathering_keeps(ms, visible, e.session.front_pane(), visible.len() as int, i);
    }
}

proof fn lemma_gathering_keeps(
    ms: Seq<MirrorView>,
    visible: Seq<u64>,
    front: Option<u64>,
    n: int,
    i: int,
)
    requires
        0 <= i < ms.len(),
        n <= visible.len(),
    ensures
        gathered(ms, visible, front, n).0.len() == ms.len(),
        gathered(ms, visible, front, n).0[i].pane == ms[i].pane,
        gathered(ms, visible, front, n).0[i].screen.rows == ms[i].screen.rows,
        gathered(ms, visible, front, n).0[i].screen.live == ms[i].screen.live,
        gathered(ms, visible, front, n).0[i].screen.full_repaint == ms[i].screen.full_repaint,
    decreases n,
{
    if n > 0 {
        lemma_gathering_keeps(ms, visible, front, n - 1, i);
        let before = gathered(ms, visible, front, n - 1).0;
        crate::seqs::lemma_first_where(before, mirror_of(visible[n - 1]));
    }
}

/// A window is owed nothing that is in view.
pub proof fn law_nothing_in_view_is_owed(c: ClientView, visible: Seq<u64>, i: int)
    requires
        0 <= i < paid(c, visible).needs_full.len(),
    ensures
        !visible.contains(paid(c, visible).needs_full[i]),
{
    let a = lemma_pick_sound(c.needs_full, not_among(visible), |p: u64| p, i);
}

} // verus!
