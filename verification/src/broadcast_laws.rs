//! What windows are sent.

use crate::broadcast::{
    all_rows, delivered, gathered_one, is_mirrored, mirror_of, not_whole, paid, row_out, sent_out,
    shown_cursor, whole_one, within, MirrorView, RowUpdateView, RowsView, reached,
};
use crate::engine::{ClientView, EngineView};
use crate::pane::{CursorPos, RunView};
use crate::seqs::{
    lemma_first_where_is, lemma_pick_complete, lemma_pick_sound, pick, lemma_first_where,
};
use vstd::prelude::*;

verus! {

/// A cursor shows only in the pane in front, where its program shows it.
pub proof fn law_a_cursor_shows_only_in_front(c: CursorPos, pane: u64, front: Option<u64>)
    ensures
        shown_cursor(c, pane, front).x == c.x,
        shown_cursor(c, pane, front).y == c.y,
        shown_cursor(c, pane, front).visible <==> c.visible && front == Some(pane),
{
}

/// A pane in view of which nothing changed is not sent. Of one that changed, the rows that did are
/// sent as they are, with its cursor, and then nothing of it is left to be told.
pub proof fn law_what_changed_is_sent(
    ms: Seq<MirrorView>,
    ups: Seq<RowsView>,
    k: int,
    front: Option<u64>,
)
    requires
        0 <= k < ms.len(),
        forall|j: int| 0 <= j < k ==> (#[trigger] ms[j]).pane != ms[k].pane,
    ensures
        ({
            let m = ms[k];
            let c = shown_cursor(m.cursor, m.pane, front);
            let (after, out) = gathered_one(ms, ups, m.pane, front);
            let still = m.dirty.len() == 0 && m.sent == Some(c);
            &&& still ==> out == ups && after == ms
            &&& !still ==> out.len() == ups.len() + 1 && out.last().pane == m.pane
                && out.last().cursor == c && after[k].dirty.len() == 0 && after[k].sent == Some(c)
                && after[k].screen.dirty == Set::<u16>::empty()
            &&& !still ==> forall|y: u16|
                m.dirty.contains(y) && y < m.screen.rows.len() ==> #[trigger] out.last().rows.contains(
                    RowUpdateView { y, row: m.screen.rows[y as int] },
                )
            &&& after.len() == ms.len() && after[k].screen.rows == m.screen.rows && after[k].pane
                == m.pane
            &&& forall|j: int| 0 <= j < ms.len() && j != k ==> #[trigger] after[j] == ms[j]
        }),
{
    let m = ms[k];
    assert forall|j: int| 0 <= j < k implies !mirror_of(m.pane)(#[trigger] ms[j]) by {
        assert(ms[j].pane != ms[k].pane);
    }
    lemma_first_where_is(ms, mirror_of(m.pane), k);
    let p = within(m.screen.rows.len());
    let f = row_out(m.screen.rows);
    assert forall|y: u16| m.dirty.contains(y) && y < m.screen.rows.len() implies #[trigger] pick(
        m.dirty,
        p,
        f,
    ).contains(RowUpdateView { y, row: m.screen.rows[y as int] }) by {
        let i = choose|i: int| 0 <= i < m.dirty.len() && m.dirty[i] == y;
        assert(p(m.dirty[i]));
        let x = lemma_pick_complete(m.dirty, p, f, i);
        assert(pick(m.dirty, p, f)[x] == f(y));
    }
}

/// A row that is sent is one that changed.
pub proof fn law_only_what_changed_is_sent(
    ms: Seq<MirrorView>,
    ups: Seq<RowsView>,
    k: int,
    front: Option<u64>,
    i: int,
)
    requires
        0 <= k < ms.len(),
        forall|j: int| 0 <= j < k ==> (#[trigger] ms[j]).pane != ms[k].pane,
        gathered_one(ms, ups, ms[k].pane, front).1.len() == ups.len() + 1,
        0 <= i < gathered_one(ms, ups, ms[k].pane, front).1.last().rows.len(),
    ensures
        ms[k].dirty.contains(gathered_one(ms, ups, ms[k].pane, front).1.last().rows[i].y),
        gathered_one(ms, ups, ms[k].pane, front).1.last().rows[i].row
            == ms[k].screen.rows[gathered_one(ms, ups, ms[k].pane, front).1.last().rows[i].y as int],
{
    let m = ms[k];
    assert forall|j: int| 0 <= j < k implies !mirror_of(m.pane)(#[trigger] ms[j]) by {
        assert(ms[j].pane != ms[k].pane);
    }
    lemma_first_where_is(ms, mirror_of(m.pane), k);
    let p = within(m.screen.rows.len());
    let f = row_out(m.screen.rows);
    let x = lemma_pick_sound(m.dirty, p, f, i);
    assert(m.dirty[x] == pick(m.dirty, p, f)[i].y);
}

/// A whole pane is each of its rows at its place.
pub proof fn law_a_whole_pane_is_all_its_rows(rows: Seq<Seq<RunView>>, i: int)
    requires
        0 <= i < rows.len() <= 0x10000,
    ensures
        all_rows(rows).len() == rows.len(),
        all_rows(rows)[i].y == i,
        all_rows(rows)[i].row == rows[i],
{
}

/// A window is sent whole what it is owed of what is in view, is owed that no more, and is still
/// owed the rest.
pub proof fn law_what_is_owed_in_view_is_paid(c: ClientView, visible: Seq<u64>, p: u64)
    ensures
        paid(c, visible).needs_full.contains(p) <==> c.needs_full.contains(p) && !visible.contains(
            p,
        ),
        paid(c, visible).id == c.id,
        paid(c, visible).cols == c.cols,
        paid(c, visible).rows == c.rows,
{
    let q = crate::broadcast::not_among(visible);
    let f = |p: u64| p;
    let out = pick(c.needs_full, q, f);
    if out.contains(p) {
        let k = choose|k: int| 0 <= k < out.len() && out[k] == p;
        let i = lemma_pick_sound(c.needs_full, q, f, k);
        assert(c.needs_full[i] == p);
    }
    if c.needs_full.contains(p) && !visible.contains(p) {
        let i = choose|i: int| 0 <= i < c.needs_full.len() && c.needs_full[i] == p;
        assert(q(c.needs_full[i]));
        let k = lemma_pick_complete(c.needs_full, q, f, i);
        assert(out[k] == p);
    }
}

/// A pane that a window is owed and that is in view goes to it whole.
pub proof fn law_a_pane_that_is_owed_goes_whole(
    c: ClientView,
    ms: Seq<MirrorView>,
    ups: Seq<RowsView>,
    visible: Seq<u64>,
    front: Option<u64>,
    snapshot: bool,
    k: int,
)
    requires
        0 <= k < ms.len(),
        forall|j: int| 0 <= j < k ==> (#[trigger] ms[j]).pane != ms[k].pane,
        c.needs_full.contains(ms[k].pane),
        visible.contains(ms[k].pane),
    ensures
        ({
            let d = delivered(c, ms, ups, visible, front, snapshot);
            &&& d.client == c.id && d.snapshot == snapshot
            &&& d.whole.contains(
                RowsView {
                    pane: ms[k].pane,
                    rows: all_rows(ms[k].screen.rows),
                    cursor: shown_cursor(ms[k].cursor, ms[k].pane, front),
                },
            )
            &&& forall|i: int|
                0 <= i < d.changed.len() ==> (#[trigger] d.changed[i]).pane != ms[k].pane
        }),
{
    let pane = ms[k].pane;
    assert forall|j: int| 0 <= j < k implies !mirror_of(pane)(#[trigger] ms[j]) by {
        assert(ms[j].pane != ms[k].pane);
    }
    lemma_first_where_is(ms, mirror_of(pane), k);
    let q = crate::broadcast::among(visible);
    let f = |p: u64| p;
    let need = pick(c.needs_full, q, f);
    let i = choose|i: int| 0 <= i < c.needs_full.len() && c.needs_full[i] == pane;
    assert(q(c.needs_full[i]));
    let a = lemma_pick_complete(c.needs_full, q, f, i);
    assert(need[a] == pane);
    let g = |p: u64| whole_one(ms, p, front);
    assert(is_mirrored(ms)(need[a]));
    let b = lemma_pick_complete(need, is_mirrored(ms), g, a);
    let d = delivered(c, ms, ups, visible, front, snapshot);
    assert(d.whole[b] == whole_one(ms, pane, front));
    assert forall|i: int| 0 <= i < d.changed.len() implies (#[trigger] d.changed[i]).pane
        != pane by {
        let x = lemma_pick_sound(ups, not_whole(need), |u: RowsView| u, i);
        assert(need.contains(pane));
    }
}

/// A change of a pane that a window is not owed goes to it.
pub proof fn law_a_change_goes_to_every_window(
    c: ClientView,
    ms: Seq<MirrorView>,
    ups: Seq<RowsView>,
    visible: Seq<u64>,
    front: Option<u64>,
    snapshot: bool,
    u: int,
)
    requires
        0 <= u < ups.len(),
        !c.needs_full.contains(ups[u].pane),
    ensures
        delivered(c, ms, ups, visible, front, snapshot).changed.contains(ups[u]),
{
    let q = crate::broadcast::among(visible);
    let f = |p: u64| p;
    let need = pick(c.needs_full, q, f);
    if need.contains(ups[u].pane) {
        let k = choose|k: int| 0 <= k < need.len() && need[k] == ups[u].pane;
        let i = lemma_pick_sound(c.needs_full, q, f, k);
        assert(c.needs_full[i] == ups[u].pane);
    }
    let g = |u: RowsView| u;
    assert(not_whole(need)(ups[u]));
    let k = lemma_pick_complete(ups, not_whole(need), g, u);
    assert(delivered(c, ms, ups, visible, front, snapshot).changed[k] == ups[u]);
}

/// Every window gets something to read where anybody is attached, with a snapshot where the shape
/// changed, and events are told once. With nobody attached nothing goes out and nothing piles up.
pub proof fn law_every_window_is_sent_to(e: EngineView, ms: Seq<MirrorView>, i: int)
    ensures
        ({
            let (t, after, out) = sent_out(e, ms);
            &&& out.len() == e.clients.len()
            &&& 0 <= i < e.clients.len() ==> out[i].client == e.clients[i].id && out[i].snapshot
                == e.dirty_shape
            &&& t.events.len() == 0
            &&& e.clients.len() > 0 ==> !t.dirty_shape
            &&& e.clients.len() == 0 ==> t.dirty_shape == e.dirty_shape && after.len() == ms.len()
            &&& e.clients.len() == 0 && 0 <= i < ms.len() ==> after[i].dirty.len() == 0
                && after[i].screen.rows == ms[i].screen.rows
            &&& t.session == e.session && t.board == e.board && t.triggers == e.triggers
                && t.clients.len() == e.clients.len()
        }),
{
}

/// A window that could not be reached is gone, and every other stays.
pub proof fn law_a_window_that_is_gone_is_not_reached(gone: Seq<u64>, c: ClientView)
    ensures
        reached(gone)(c) <==> !gone.contains(c.id),
{
}

/// A pane that has no screen is not sent, whole or in part.
pub proof fn law_a_pane_without_a_screen_is_not_sent(
    ms: Seq<MirrorView>,
    ups: Seq<RowsView>,
    pane: u64,
    front: Option<u64>,
)
    requires
        forall|k: int| 0 <= k < ms.len() ==> (#[trigger] ms[k]).pane != pane,
    ensures
        !is_mirrored(ms)(pane),
        gathered_one(ms, ups, pane, front) == (ms, ups),
{
    lemma_first_where(ms, mirror_of(pane));
    let k = crate::seqs::first_where(ms, mirror_of(pane));
    if k < ms.len() {
        assert(mirror_of(pane)(ms[k]));
    }
}

/// A row is sent only where it is on the screen.
pub proof fn law_a_row_off_the_screen_is_not_sent(rows: nat, y: u16)
    ensures
        within(rows)(y) <==> y < rows,
{
}

} // verus!
