//! What a pane shows, and what its program is given.

use crate::pane::{
    attrs_of, cursor_of, detected, display_of, drawn, environment_of, filled_end, fitted, handed,
    is_due, is_early, pumped, row_taken, runs_of, shown, signalled, targets_of, text_of, written,
    Cell, CellFlags, Damage, DeferredView, OutboxView, PaneSignal, RunView, ScreenView, VarView,
    Wrote, rows_taken,
};
use crate::repo_laws::{is_dir_path, is_leaf, law_a_path_is_a_directory_and_a_name};
use crate::seqs::{lemma_pick_complete, lemma_pick_sound, pick};
use crate::text::{decimal, trimmed_end, words_of};
use vstd::prelude::*;

verus! {

/// Each way of drawing has its own bit.
pub proof fn law_each_way_of_drawing_has_its_bit(f: CellFlags)
    ensures
        attrs_of(f) % 2 == 1 <==> f.bold,
        (attrs_of(f) / 2) % 2 == 1 <==> f.dim,
        (attrs_of(f) / 4) % 2 == 1 <==> f.italic,
        (attrs_of(f) / 8) % 2 == 1 <==> f.underline,
        (attrs_of(f) / 16) % 2 == 1 <==> f.strikeout,
        attrs_of(f) < 32,
{
}

/// A cell shows its character, or a blank where it is hidden, with what stands over it behind; its
/// colours change places where it is inverted.
pub proof fn law_a_cell_shows_its_character(c: Cell)
    ensures
        drawn(c).text.len() == 1 + c.zerowidth@.len(),
        !c.flags.hidden ==> drawn(c).text[0] == c.ch,
        c.flags.hidden ==> drawn(c).text[0] == ' ',
        forall|i: int|
            0 <= i < c.zerowidth@.len() ==> #[trigger] c.zerowidth@[i] == drawn(c).text[i + 1],
        !c.flags.inverse ==> drawn(c).fg == c.fg && drawn(c).bg == c.bg,
        c.flags.inverse ==> drawn(c).fg == c.bg && drawn(c).bg == c.fg,
{
}

/// A row is drawn from left to right: one more cell adds its text at the end, and begins a run
/// where it is drawn otherwise than the cell before. The second half of a wide character adds
/// nothing.
pub proof fn law_a_row_is_drawn_from_left_to_right(cells: Seq<Cell>, c: Cell)
    ensures
        ({
            let before = runs_of(cells);
            let now = runs_of(cells.push(c));
            let d = drawn(c);
            let joins = before.len() > 0 && before.last().fg == d.fg && before.last().bg == d.bg
                && before.last().attrs == d.attrs;
            &&& c.flags.spacer ==> now == before
            &&& !c.flags.spacer && joins ==> now.len() == before.len() && now.last().text
                == before.last().text + d.text && now.drop_last() == before.drop_last()
            &&& !c.flags.spacer && !joins ==> now.len() == before.len() + 1 && now.last() == d
                && now.drop_last() == before
            &&& !c.flags.spacer ==> now.len() > 0 && now.last().fg == d.fg && now.last().bg == d.bg
                && now.last().attrs == d.attrs
        }),
{
    assert(cells.push(c).drop_last() =~= cells);
    assert(cells.push(c).last() == c);
    let before = runs_of(cells);
    let now = runs_of(cells.push(c));
    if !c.flags.spacer && before.len() > 0 && crate::pane::same_style(before.last(), drawn(c)) {
        assert(now.drop_last() =~= before.drop_last());
    } else if !c.flags.spacer {
        assert(now.drop_last() =~= before);
    }
}

/// A row that comes out the same is not sent again, and one that does not is; no other row is
/// touched. Only the live view is what detection reads.
pub proof fn law_only_a_changed_row_is_sent(s: ScreenView, y: int, row: Seq<RunView>)
    requires
        0 <= y < s.rows.len() < 0x10000,
        s.live.len() == s.rows.len(),
    ensures
        ({
            let t = row_taken(s, y, row);
            &&& t.rows.len() == s.rows.len() && t.rows[y] == row
            &&& forall|j: int| 0 <= j < s.rows.len() && j != y ==> #[trigger] t.rows[j] == s.rows[j]
            &&& s.rows[y] == row ==> t.dirty == s.dirty
            &&& s.rows[y] != row ==> t.dirty.contains(y as u16)
            &&& forall|k: u16| k != y ==> (#[trigger] t.dirty.contains(k) <==> s.dirty.contains(k))
            &&& s.scrolled ==> t.live == s.live
            &&& !s.scrolled ==> t.live == s.live.update(y, row)
            &&& t.full_repaint == s.full_repaint && t.scrolled == s.scrolled
        }),
{
    assert((y % 0x10000) as u16 == y as u16);
}

/// Every row is built where everything is to be repainted, the view is scrolled back, or the whole
/// screen was damaged; otherwise just the damaged ones that are on screen.
pub proof fn law_what_is_damaged_is_built(
    full: bool,
    scrolled: bool,
    damage: Damage,
    rows: int,
    y: usize,
)
    requires
        0 <= rows <= usize::MAX,
    ensures
        full || scrolled || damage is Full ==> (targets_of(full, scrolled, damage, rows).contains(y)
            <==> y < rows),
        !full && !scrolled && damage is Lines ==> (targets_of(full, scrolled, damage, rows).contains(
            y,
        ) <==> y < rows && damage->Lines_0@.contains(y)),
{
    let t = targets_of(full, scrolled, damage, rows);
    if full || scrolled || damage is Full {
        if y < rows {
            assert(t[y as int] == y);
        }
    } else {
        let ls = damage->Lines_0@;
        let p = |l: usize| l < rows;
        let f = |l: usize| l;
        if t.contains(y) {
            let k = choose|k: int| 0 <= k < t.len() && t[k] == y;
            let i = lemma_pick_sound(ls, p, f, k);
            assert(ls[i] == y);
        }
        if y < rows && ls.contains(y) {
            let i = choose|i: int| 0 <= i < ls.len() && ls[i] == y;
            let k = lemma_pick_complete(ls, p, f, i);
            assert(t[k] == y);
        }
    }
}

proof fn lemma_filled_end(ts: Seq<Seq<char>>)
    ensures
        0 <= filled_end(ts) <= ts.len(),
        filled_end(ts) > 0 ==> ts[filled_end(ts) - 1].len() > 0,
        forall|i: int| filled_end(ts) <= i < ts.len() ==> (#[trigger] ts[i]).len() == 0,
    decreases ts.len(),
{
    if ts.len() > 0 && ts.last().len() == 0 {
        lemma_filled_end(ts.drop_last());
        assert forall|i: int| filled_end(ts) <= i < ts.len() implies (#[trigger] ts[i]).len()
            == 0 by {
            if i < ts.len() - 1 {
                assert(ts.drop_last()[i].len() == 0);
            }
        }
    }
}

/// Detection reads the last rows of the live view that hold anything, as many as it asks for.
pub proof fn law_detection_reads_the_bottom(s: ScreenView, n: int, last: int)
    requires
        n > 0,
        0 <= last < s.live.len(),
        trimmed_end(text_of(s.live[last])).len() > 0,
        forall|i: int|
            last < i < s.live.len() ==> trimmed_end(text_of(#[trigger] s.live[i])).len() == 0,
    ensures
        last + 1 >= n ==> detected(s, n).len() == n,
        last + 1 < n ==> detected(s, n).len() == last + 1,
        detected(s, n).last() == trimmed_end(text_of(s.live[last])),
        forall|k: int|
            0 <= k < detected(s, n).len() ==> #[trigger] detected(s, n)[k] == trimmed_end(
                text_of(s.live[last + 1 - detected(s, n).len() + k]),
            ),
{
    let ts = shown(s.live);
    lemma_filled_end(ts);
    assert(ts[last].len() > 0);
    if filled_end(ts) > last + 1 {
        assert(ts[filled_end(ts) - 1].len() == 0);
    }
    assert(filled_end(ts) == last + 1);
}

/// A blank screen gives detection nothing.
pub proof fn law_a_blank_screen_is_not_read(s: ScreenView, n: int)
    requires
        n > 0,
        forall|i: int|
            0 <= i < s.live.len() ==> trimmed_end(text_of(#[trigger] s.live[i])).len() == 0,
    ensures
        detected(s, n).len() == 0,
{
    let ts = shown(s.live);
    lemma_filled_end(ts);
    if filled_end(ts) > 0 {
        assert(ts[filled_end(ts) - 1].len() == 0);
    }
}

/// Rows are cut off at the bottom, or filled up there with blank ones.
pub proof fn law_rows_are_fitted_at_the_bottom(rows: Seq<Seq<RunView>>, n: int, i: int)
    requires
        0 <= i < n,
    ensures
        fitted(rows, n).len() == n,
        i < rows.len() ==> fitted(rows, n)[i] == rows[i],
        i >= rows.len() ==> fitted(rows, n)[i].len() == 0,
{
}

/// The cursor is where it stands, lower by as much as the view is scrolled back, and is seen while
/// it is on screen and shown.
pub proof fn law_the_cursor_is_where_it_stands(
    line: int,
    column: int,
    offset: int,
    rows: int,
    is_shown: bool,
)
    requires
        0 <= column < 0x10000,
        0 <= line + offset < 0x10000,
    ensures
        cursor_of(line, column, offset, rows, is_shown).x == column,
        cursor_of(line, column, offset, rows, is_shown).y == line + offset,
        cursor_of(line, column, offset, rows, is_shown).visible <==> is_shown && line + offset
            < rows,
{
}

/// Above the screen it is not seen.
pub proof fn law_a_cursor_above_the_screen_is_not_seen(
    line: int,
    column: int,
    offset: int,
    rows: int,
    is_shown: bool,
)
    requires
        line + offset < 0,
    ensures
        !cursor_of(line, column, offset, rows, is_shown).visible,
        cursor_of(line, column, offset, rows, is_shown).y == 0,
{
}

/// Bytes wait behind what already waits. A program that ended gets none, and one that does not read
/// gets all of them or none, so that never more than 262144 wait.
pub proof fn law_bytes_wait_in_order(o: OutboxView, bytes: Seq<u8>)
    ensures
        o.exited ==> written(o, bytes) == o,
        !o.exited && o.outbound.len() + bytes.len() > 262_144 ==> written(o, bytes) == o,
        !o.exited && o.outbound.len() + bytes.len() <= 262_144 ==> {
            &&& written(o, bytes).outbound == o.outbound + bytes
            &&& written(o, bytes).deferred == o.deferred
            &&& written(o, bytes).pane == o.pane && !written(o, bytes).exited
        },
{
}

/// A terminal that took some bytes is offered the rest, and one that took none, or is full, is left
/// alone with nothing lost. What waits for one that is gone is dropped.
pub proof fn law_a_terminal_is_offered_the_rest(out: Seq<u8>, n: usize)
    ensures
        0 < n < out.len() ==> handed(out, Wrote::Took(n)).1 && out.take(n as int) + handed(
            out,
            Wrote::Took(n),
        ).0 == out,
        n > 0 && n >= out.len() ==> !handed(out, Wrote::Took(n)).1 && handed(
            out,
            Wrote::Took(n),
        ).0.len() == 0,
        handed(out, Wrote::Took(0)) == (out, false),
        handed(out, Wrote::Full) == (out, false),
        handed(out, Wrote::Interrupted) == (out, out.len() > 0),
        !handed(out, Wrote::Gone).1 && handed(out, Wrote::Gone).0.len() == 0,
{
    if 0 < n < out.len() {
        assert(out.take(n as int) + out.skip(n as int) =~= out);
    }
}

/// What was put off is written when its moment comes, and stays put off before that.
pub proof fn law_what_was_put_off_waits_for_its_moment(
    o: OutboxView,
    title: Seq<char>,
    at: u64,
    bytes: Seq<u8>,
    now: u64,
)
    requires
        !o.exited,
        o.outbound.len() + bytes.len() <= 262_144,
        o.deferred == seq![DeferredView { at, bytes }],
    ensures
        at > now ==> pumped(o, title, Seq::empty(), now) == (o, title),
        at <= now ==> pumped(o, title, Seq::empty(), now).0.outbound == o.outbound + bytes,
        at <= now ==> pumped(o, title, Seq::empty(), now).0.deferred.len() == 0,
{
    reveal_with_fuel(crate::pane::all_written, 2);
    reveal_with_fuel(pick, 2);
    assert(o.deferred.drop_last() =~= Seq::<DeferredView>::empty());
    assert(o.deferred.last() == DeferredView { at, bytes });
    let due = pick(o.deferred, is_due(now), |d: DeferredView| d.bytes);
    let early = pick(o.deferred, is_early(now), |d: DeferredView| d);
    if at > now {
        assert(due.len() == 0);
        assert(early =~= o.deferred);
    } else {
        assert(due =~= seq![bytes]);
        assert(early.len() == 0);
    }
}

/// What the emulator answers is written behind what waits, and the title is the last one set.
pub proof fn law_an_answer_is_written_and_a_title_is_set(
    o: OutboxView,
    title: Seq<char>,
    sigs: Seq<PaneSignal>,
    sig: PaneSignal,
)
    ensures
        ({
            let before = signalled(o, title, sigs, sigs.len() as int);
            let now = signalled(o, title, sigs.push(sig), sigs.len() as int + 1);
            &&& sig matches PaneSignal::Title(t) ==> now == (before.0, t@)
            &&& sig is Write && !before.0.exited && before.0.outbound.len()
                + sig->Write_0@.len() <= 262_144 ==> now.1 == before.1 && now.0.outbound
                == before.0.outbound + sig->Write_0@
            &&& !(sig is Title) && !(sig is Write) ==> now == before
        }),
{
    lemma_signalled_prefix(o, title, sigs, sig, sigs.len() as int);
}

proof fn lemma_signalled_prefix(
    o: OutboxView,
    title: Seq<char>,
    sigs: Seq<PaneSignal>,
    sig: PaneSignal,
    n: int,
)
    requires
        0 <= n <= sigs.len(),
    ensures
        signalled(o, title, sigs.push(sig), n) == signalled(o, title, sigs, n),
    decreases n,
{
    if n > 0 {
        lemma_signalled_prefix(o, title, sigs, sig, n - 1);
        assert(sigs.push(sig)[n - 1] == sigs[n - 1]);
    }
}

/// A pane goes by its name, then by its title, then by its program, and is a shell otherwise.
pub proof fn law_what_a_pane_is_called(
    name: Seq<char>,
    title: Option<Seq<char>>,
    cmd: Seq<char>,
    dir: Seq<char>,
)
    ensures
        display_of(Some(name), title, cmd) == name,
        title is Some && title->Some_0.len() > 0 ==> display_of(None, title, cmd) == title->Some_0,
        title is None || title->Some_0.len() == 0 ==> {
            &&& words_of(cmd).len() == 0 ==> display_of(None, title, cmd) == "shell"@
            &&& words_of(cmd).len() > 0 && is_leaf(name) && is_dir_path(dir) && words_of(cmd)[0]
                == dir + seq!['/'] + name ==> display_of(None, title, cmd) == name
        },
{
    if is_leaf(name) && is_dir_path(dir) {
        law_a_path_is_a_directory_and_a_name(dir, name);
    }
}

/// What a program is told: its terminal, how to reach the daemon, and who it is. The user's own
/// variables come last.
pub proof fn law_a_program_is_told_who_it_is(
    socket: Seq<char>,
    pane: u64,
    tab: u64,
    space: u64,
    own: Seq<VarView>,
    i: int,
)
    ensures
        ({
            let env = environment_of(socket, pane, tab, space, own);
            &&& env.len() == 8 + own.len()
            &&& env.contains(VarView { name: "TERM"@, value: "xterm-256color"@ })
            &&& env.contains(VarView { name: "COLORTERM"@, value: "truecolor"@ })
            &&& env.contains(VarView { name: "HORDE_SOCKET"@, value: socket })
            &&& env.contains(VarView { name: "HORDE_PANE"@, value: decimal(pane as nat) })
            &&& env.contains(VarView { name: "HORDE_TAB"@, value: decimal(tab as nat) })
            &&& env.contains(VarView { name: "HORDE_SPACE"@, value: decimal(space as nat) })
            &&& env.contains(VarView { name: "PAGER"@, value: "cat"@ })
            &&& env.contains(VarView { name: "HORDE_DOCS"@, value: "horde docs orchestration"@ })
            &&& 0 <= i < own.len() ==> env[8 + i] == own[i]
        }),
{
    let env = environment_of(socket, pane, tab, space, own);
    assert(env[0] == VarView { name: "TERM"@, value: "xterm-256color"@ });
    assert(env[1] == VarView { name: "COLORTERM"@, value: "truecolor"@ });
    assert(env[2] == VarView { name: "HORDE_SOCKET"@, value: socket });
    assert(env[3] == VarView { name: "HORDE_PANE"@, value: decimal(pane as nat) });
    assert(env[4] == VarView { name: "HORDE_TAB"@, value: decimal(tab as nat) });
    assert(env[5] == VarView { name: "HORDE_SPACE"@, value: decimal(space as nat) });
    assert(env[6] == VarView { name: "PAGER"@, value: "cat"@ });
    assert(env[7] == VarView { name: "HORDE_DOCS"@, value: "horde docs orchestration"@ });
}

/// Rows that were built are taken one after the other.
pub proof fn law_rows_are_taken_one_after_the_other(
    s: ScreenView,
    built: Seq<(int, Seq<RunView>)>,
    y: int,
    row: Seq<RunView>,
)
    ensures
        rows_taken(s, Seq::empty()) == s,
        rows_taken(s, built.push((y, row))) == row_taken(rows_taken(s, built), y, row),
{
    assert(built.push((y, row)).drop_last() =~= built);
}

} // verus!
