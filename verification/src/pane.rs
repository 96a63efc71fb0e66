//! A pane's screen and its input, as the rest of the daemon sees them.
//!
//! The screen is a mirror of the visible grid, rebuilt row by row from the cells the emulator
//! holds. The input is bytes that have been accepted for a program but that its terminal has
//! not taken yet. The emulator and the terminal themselves belong to whoever drives the pane.

use crate::paths::{file_name, name_in};
use crate::seqs::{lemma_pick_sound, lemma_pick_take, pick};
use crate::text::{
    decimal, number, opt_str, owned, quote, quoted, same, texts, trim_end, trimmed_end, words,
    words_of,
};
use vstd::prelude::*;
use vstd::string::*;

verus! {

/// Most unwritten input to hold for one pane: a wedged program should fail its writes, not
/// consume memory.
pub const MAX_OUTBOUND: usize = 262_144;

/// The longest line a terminal in canonical mode is given, a little under what it can hold.
pub const MAX_LINE: usize = 900;

/// Bits of [`Run::attrs`].
pub const BOLD: u8 = 1;

pub const DIM: u8 = 2;

pub const ITALIC: u8 = 4;

pub const UNDERLINE: u8 = 8;

pub const STRIKEOUT: u8 = 16;

/// Things the emulator wants acted on.
#[derive(Debug)]
pub enum PaneSignal {
    /// The emulator's reply to a device query, which must reach the program.
    Write(Vec<u8>),
    Title(String),
    Bell,
    ClipboardStore,
    Wakeup,
}

/// A colour.
#[derive(Debug, Clone, Copy, PartialEq, Eq, Structural)]
pub struct Rgb {
    pub r: u8,
    pub g: u8,
    pub b: u8,
}

/// How a cell is drawn.
#[derive(Debug, Clone, Copy, PartialEq, Eq, Structural)]
pub struct CellFlags {
    pub bold: bool,
    pub dim: bool,
    pub italic: bool,
    pub underline: bool,
    pub strikeout: bool,
    pub inverse: bool,
    pub hidden: bool,
    /// The second half of a wide character, which holds no content of its own.
    pub spacer: bool,
}

/// One cell of the emulator's grid, with its colours resolved.
#[derive(Debug, Clone, PartialEq, Eq)]
pub struct Cell {
    pub ch: char,
    /// What is drawn over the character without taking room.
    pub zerowidth: Vec<char>,
    pub fg: Rgb,
    pub bg: Rgb,
    pub flags: CellFlags,
}

/// Text in one style.
#[derive(Debug, Clone, PartialEq, Eq)]
pub struct Run {
    pub text: String,
    pub fg: Rgb,
    pub bg: Rgb,
    pub attrs: u8,
}

/// The same, as text.
pub struct RunView {
    pub text: Seq<char>,
    pub fg: Rgb,
    pub bg: Rgb,
    pub attrs: u8,
}

impl View for Run {
    type V = RunView;

    open spec fn view(&self) -> RunView {
        RunView { text: self.text@, fg: self.fg, bg: self.bg, attrs: self.attrs }
    }
}

/// One row of a screen.
#[derive(Debug, Clone, PartialEq, Eq)]
pub struct Row {
    pub runs: Vec<Run>,
}

impl View for Row {
    type V = Seq<RunView>;

    open spec fn view(&self) -> Seq<RunView> {
        Seq::new(self.runs@.len(), |i: int| self.runs@[i]@)
    }
}

/// The bits for the way a cell is drawn.
pub open spec fn attrs_of(f: CellFlags) -> u8 {
    let bold: u8 = if f.bold { BOLD } else { 0 };
    let dim: u8 = if f.dim { DIM } else { 0 };
    let italic: u8 = if f.italic { ITALIC } else { 0 };
    let underline: u8 = if f.underline { UNDERLINE } else { 0 };
    let strikeout: u8 = if f.strikeout { STRIKEOUT } else { 0 };
    (bold + dim + italic + underline + strikeout) as u8
}

/// The bits for the way a cell is drawn.
fn attrs_for(f: CellFlags) -> (r: u8)
    ensures
        r == attrs_of(f),
{
    let mut a: u8 = 0;
    if f.bold {
        a = a + BOLD;
    }
    if f.dim {
        a = a + DIM;
    }
    if f.italic {
        a = a + ITALIC;
    }
    if f.underline {
        a = a + UNDERLINE;
    }
    if f.strikeout {
        a = a + STRIKEOUT;
    }
    a
}

/// What a cell puts on screen: its text, and its style with an inversion carried out.
pub open spec fn drawn(c: Cell) -> RunView {
    RunView {
        text: seq![
            if c.flags.hidden {
                ' '
            } else {
                c.ch
            },
        ] + c.zerowidth@,
        fg: if c.flags.inverse {
            c.bg
        } else {
            c.fg
        },
        bg: if c.flags.inverse {
            c.fg
        } else {
            c.bg
        },
        attrs: attrs_of(c.flags),
    }
}

/// Whether two runs are drawn the same way.
pub open spec fn same_style(a: RunView, b: RunView) -> bool {
    a.fg == b.fg && a.bg == b.bg && a.attrs == b.attrs
}

/// The runs of some cells: neighbours in one style share a run.
pub open spec fn runs_of(cells: Seq<Cell>) -> Seq<RunView>
    decreases cells.len(),
{
    if cells.len() == 0 {
        Seq::empty()
    } else {
        let before = runs_of(cells.drop_last());
        let c = cells.last();
        if c.flags.spacer {
            before
        } else if before.len() > 0 && same_style(before.last(), drawn(c)) {
            before.update(
                before.len() - 1,
                RunView { text: before.last().text + drawn(c).text, ..before.last() },
            )
        } else {
            before.push(drawn(c))
        }
    }
}

/// One row of cells, run-length encoded by style.
pub fn build_row(cells: &Vec<Cell>) -> (r: Row)
    ensures
        r@ == runs_of(cells@),
{
    let mut row = Row { runs: Vec::new() };
    let mut x: usize = 0;
    proof {
        assert(row@ =~= runs_of(cells@.take(0)));
    }
    while x < cells.len()
        invariant
            x <= cells@.len(),
            row@ == runs_of(cells@.take(x as int)),
        decreases cells@.len() - x,
    {
        let cell = &cells[x];
        let ghost before = row@;
        proof {
            assert(cells@.take(x as int + 1).drop_last() =~= cells@.take(x as int));
            assert(cells@.take(x as int + 1).last() == *cell);
            assert(row.runs@.len() == before.len());
        }
        if !cell.flags.spacer {
            let a: u8 = attrs_for(cell.flags);
            let (fg, bg) = if cell.flags.inverse {
                (cell.bg, cell.fg)
            } else {
                (cell.fg, cell.bg)
            };
            let ch: char = if cell.flags.hidden {
                ' '
            } else {
                cell.ch
            };
            let n: usize = row.runs.len();
            let joins = n > 0 && row.runs[n - 1].fg == fg && row.runs[n - 1].bg == bg
                && row.runs[n - 1].attrs == a;
            let mut text = if joins {
                row.runs[n - 1].text.clone()
            } else {
                String::new()
            };
            let ghost start = text@;
            text.push(ch);
            let mut k: usize = 0;
            proof {
                assert(cell.zerowidth@.take(0) =~= Seq::<char>::empty());
                assert(text@ =~= start + (seq![ch] + cell.zerowidth@.take(0)));
            }
            while k < cell.zerowidth.len()
                invariant
                    k <= cell.zerowidth@.len(),
                    text@ == start + (seq![ch] + cell.zerowidth@.take(k as int)),
                decreases cell.zerowidth@.len() - k,
            {
                text.push(cell.zerowidth[k]);
                proof {
                    assert(text@ =~= start + (seq![ch] + cell.zerowidth@.take(k as int + 1)));
                }
                k = k + 1;
            }
            proof {
                assert(cell.zerowidth@.take(k as int) =~= cell.zerowidth@);
                assert(text@ == start + drawn(*cell).text);
            }
            let run = Run { text, fg, bg, attrs: a };
            if joins {
                row.runs.set(n - 1, run);
                proof {
                    assert(row@ =~= before.update(n as int - 1, run@));
                }
            } else {
                row.runs.push(run);
                proof {
                    assert(start + drawn(*cell).text =~= drawn(*cell).text);
                    assert(row@ =~= before.push(run@));
                }
            }
        }
        x = x + 1;
    }
    proof {
        assert(cells@.take(cells@.len() as int) =~= cells@);
    }
    row
}

/// The text of some runs, one after the other.
pub open spec fn text_of(runs: Seq<RunView>) -> Seq<char>
    decreases runs.len(),
{
    if runs.len() == 0 {
        Seq::empty()
    } else {
        text_of(runs.drop_last()) + runs.last().text
    }
}

/// The text of some cells, one after the other.
pub open spec fn cell_text(cells: Seq<Cell>) -> Seq<char>
    decreases cells.len(),
{
    if cells.len() == 0 {
        Seq::empty()
    } else if cells.last().flags.spacer {
        cell_text(cells.drop_last())
    } else {
        cell_text(cells.drop_last()) + drawn(cells.last()).text
    }
}

/// Encoding a row loses no text and invents none, and no two neighbouring runs could have
/// been one.
pub proof fn law_encoding_keeps_the_text(cells: Seq<Cell>)
    ensures
        text_of(runs_of(cells)) == cell_text(cells),
        forall|i: int|
            0 <= i < runs_of(cells).len() - 1 ==> !same_style(
                #[trigger] runs_of(cells)[i],
                runs_of(cells)[i + 1],
            ),
        forall|i: int| 0 <= i < runs_of(cells).len() ==> (#[trigger] runs_of(cells)[i]).text.len() > 0,
    decreases cells.len(),
{
    if cells.len() > 0 {
        let less = cells.drop_last();
        law_encoding_keeps_the_text(less);
        let before = runs_of(less);
        let now = runs_of(cells);
        let c = cells.last();
        if c.flags.spacer {
        } else if before.len() > 0 && same_style(before.last(), drawn(c)) {
            let n = before.len() - 1;
            assert(now.drop_last() =~= before.drop_last());
            assert(now.last().text == before.last().text + drawn(c).text);
            assert(text_of(now) =~= text_of(before) + drawn(c).text);
            assert forall|i: int| 0 <= i < now.len() - 1 implies !same_style(
                #[trigger] now[i],
                now[i + 1],
            ) by {
                assert(!same_style(before[i], before[i + 1]));
                assert(now[i] == before[i]);
                if i + 1 < n {
                    assert(now[i + 1] == before[i + 1]);
                }
            }
            assert forall|i: int| 0 <= i < now.len() implies (#[trigger] now[i]).text.len() > 0 by {
                assert(before[i].text.len() > 0);
            }
        } else {
            assert(now.drop_last() =~= before);
            assert forall|i: int| 0 <= i < now.len() - 1 implies !same_style(
                #[trigger] now[i],
                now[i + 1],
            ) by {
                assert(now[i] == before[i]);
                if i + 1 < before.len() {
                    assert(!same_style(before[i], before[i + 1]));
                    assert(now[i + 1] == before[i + 1]);
                }
            }
            assert forall|i: int| 0 <= i < now.len() implies (#[trigger] now[i]).text.len() > 0 by {
                if i < before.len() {
                    assert(now[i] == before[i]);
                }
            }
        }
    }
}

/// Whether two rows are the same.
fn same_row(a: &Row, b: &Row) -> (r: bool)
    ensures
        r == (a@ == b@),
{
    if a.runs.len() != b.runs.len() {
        proof {
            assert(a@.len() != b@.len());
        }
        return false;
    }
    let mut i: usize = 0;
    while i < a.runs.len()
        invariant
            i <= a.runs@.len(),
            a.runs@.len() == b.runs@.len(),
            forall|j: int| 0 <= j < i ==> #[trigger] a@[j] == b@[j],
        decreases a.runs@.len() - i,
    {
        let x = &a.runs[i];
        let y = &b.runs[i];
        if !(x.fg == y.fg && x.bg == y.bg && x.attrs == y.attrs && same(
            x.text.as_str(),
            y.text.as_str(),
        )) {
            proof {
                assert(a@[i as int] != b@[i as int]);
            }
            return false;
        }
        i = i + 1;
    }
    proof {
        assert(a@ =~= b@);
    }
    true
}

/// A copy of a row.
pub fn copy_row(a: &Row) -> (r: Row)
    ensures
        r@ == a@,
{
    let mut runs: Vec<Run> = Vec::new();
    let mut i: usize = 0;
    while i < a.runs.len()
        invariant
            i <= a.runs@.len(),
            runs@.len() == i,
            forall|j: int| 0 <= j < i ==> (#[trigger] runs@[j])@ == a@[j],
        decreases a.runs@.len() - i,
    {
        let x = &a.runs[i];
        runs.push(Run { text: x.text.clone(), fg: x.fg, bg: x.bg, attrs: x.attrs });
        i = i + 1;
    }
    let r = Row { runs };
    proof {
        assert(r@ =~= a@);
    }
    r
}

// -- the mirror --------------------------------------------------------------

/// Rows, as text.
pub open spec fn row_views(rows: Seq<Row>) -> Seq<Seq<RunView>> {
    Seq::new(rows.len(), |i: int| rows[i]@)
}

/// The visible grid as of the last refresh, and which of its rows clients have not seen.
pub struct Screen {
    pub rows: Vec<Row>,
    /// The rows of the live view, which are the visible ones unless that is scrolled back.
    pub live: Vec<Row>,
    /// Whether the last refresh was of a view that is scrolled back.
    pub scrolled: bool,
    /// In order, each once.
    pub dirty: Vec<u16>,
    /// Whether every row is to be built again.
    pub full_repaint: bool,
}

/// A screen, as values.
pub struct ScreenView {
    pub rows: Seq<Seq<RunView>>,
    pub live: Seq<Seq<RunView>>,
    pub scrolled: bool,
    pub dirty: Set<u16>,
    pub full_repaint: bool,
}

impl View for Screen {
    type V = ScreenView;

    open spec fn view(&self) -> ScreenView {
        ScreenView {
            rows: row_views(self.rows@),
            live: row_views(self.live@),
            scrolled: self.scrolled,
            dirty: self.dirty@.to_set(),
            full_repaint: self.full_repaint,
        }
    }
}

/// In order, with nothing twice.
pub open spec fn ascending(s: Seq<u16>) -> bool {
    forall|i: int, j: int| 0 <= i < j < s.len() ==> #[trigger] s[i] < #[trigger] s[j]
}

/// Put a number in its place, unless it is there.
fn insert_row(v: &mut Vec<u16>, y: u16)
    requires
        ascending(old(v)@),
    ensures
        ascending(final(v)@),
        final(v)@.to_set() == old(v)@.to_set().insert(y),
{
    let ghost had = v@;
    let mut k: usize = 0;
    while k < v.len() && v[k] < y
        invariant
            k <= v@.len(),
            v@ == had,
            forall|j: int| 0 <= j < k ==> #[trigger] had[j] < y,
        decreases v@.len() - k,
    {
        k = k + 1;
    }
    if k < v.len() && v[k] == y {
        proof {
            assert(had[k as int] == y);
            assert(had.to_set().contains(y));
            assert(had.to_set().insert(y) =~= had.to_set());
        }
        return;
    }
    v.insert(k, y);
    proof {
        had.insert_ensures(k as int, y);
        let now = v@;
        assert forall|a: int, b: int| 0 <= a < b < now.len() implies #[trigger] now[a]
            < #[trigger] now[b] by {
            if b < k {
                assert(now[a] == had[a] && now[b] == had[b]);
            } else if b == k {
                assert(now[a] == had[a]);
            } else if a < k {
                assert(now[a] == had[a] && now[b] == had[b - 1]);
            } else if a == k {
                assert(now[b] == had[b - 1]);
                if b - 1 > k {
                    assert(had[k as int] < had[b - 1]);
                }
            } else {
                assert(now[a] == had[a - 1] && now[b] == had[b - 1]);
            }
        }
        assert forall|x: u16| now.to_set().contains(x) <==> had.to_set().insert(y).contains(x) by {
            if had.to_set().insert(y).contains(x) {
                if x == y {
                    assert(now[k as int] == x);
                } else {
                    let j = choose|j: int| 0 <= j < had.len() && had[j] == x;
                    if j < k {
                        assert(now[j] == x);
                    } else {
                        assert(now[j + 1] == x);
                    }
                }
            }
            if now.to_set().contains(x) && x != y {
                let j = choose|j: int| 0 <= j < now.len() && now[j] == x;
                if j < k {
                    assert(had[j] == x);
                } else {
                    assert(had[j - 1] == x);
                }
            }
        }
        assert(now.to_set() =~= had.to_set().insert(y));
    }
}

/// What the emulator says has changed.
#[derive(Debug, Clone, PartialEq, Eq)]
pub enum Damage {
    Full,
    /// These lines of the live view.
    Lines(Vec<usize>),
}

/// The numbers below `n`.
pub open spec fn upto(n: int) -> Seq<usize> {
    Seq::new(n as nat, |i: int| i as usize)
}

/// The rows to build again: all of them after a full repaint or a scroll, and otherwise the
/// damaged ones that are on screen.
pub open spec fn targets_of(full: bool, scrolled: bool, damage: Damage, rows: int) -> Seq<usize> {
    match damage {
        Damage::Full => upto(rows),
        Damage::Lines(ls) => if full || scrolled {
            upto(rows)
        } else {
            pick(ls@, |l: usize| l < rows, |l: usize| l)
        },
    }
}

/// A screen with one row replaced by what was built, and marked where that changed it. A row of
/// a view that is not scrolled back is a row of the live view too.
pub open spec fn row_taken(s: ScreenView, y: int, row: Seq<RunView>) -> ScreenView {
    let seen = ScreenView {
        live: if s.scrolled {
            s.live
        } else {
            s.live.update(y, row)
        },
        ..s
    };
    if s.rows[y] == row {
        seen
    } else {
        ScreenView {
            rows: s.rows.update(y, row),
            dirty: s.dirty.insert((y % 0x10000) as u16),
            ..seen
        }
    }
}

/// Blank rows.
pub open spec fn blank(n: int) -> Seq<Seq<RunView>> {
    Seq::new(n as nat, |i: int| Seq::empty())
}

/// Some rows made as many as there should be: cut off, or filled up with blank ones.
pub open spec fn fitted(rows: Seq<Seq<RunView>>, n: int) -> Seq<Seq<RunView>> {
    Seq::new(
        n as nat,
        |i: int|
            if i < rows.len() {
                rows[i]
            } else {
                Seq::empty()
            },
    )
}

/// The rows to build again, of the visible view and of the live one.
#[derive(Debug, Clone, PartialEq, Eq)]
pub struct Plan {
    pub view: Vec<usize>,
    /// While the view is scrolled back, and otherwise none: the two are the same then.
    pub live: Vec<usize>,
}

/// Blank rows.
fn blank_rows(rows: u16) -> (r: Vec<Row>)
    ensures
        row_views(r@) == blank(rows as int),
        r@.len() == rows,
{
    let mut out: Vec<Row> = Vec::new();
    fit_rows(&mut out, rows);
    proof {
        assert(row_views(out@) =~= blank(rows as int));
    }
    out
}

/// Make some rows as many as there should be.
fn fit_rows(v: &mut Vec<Row>, rows: u16)
    ensures
        row_views(final(v)@) == fitted(row_views(old(v)@), rows as int),
        final(v)@.len() == rows,
{
    let n: usize = rows as usize;
    let ghost before = row_views(v@);
    if v.len() > n {
        v.truncate(n);
    }
    while v.len() < n
        invariant
            v@.len() <= n,
            forall|j: int|
                0 <= j < v@.len() ==> (#[trigger] v@[j])@ == (if j < before.len() {
                    before[j]
                } else {
                    Seq::empty()
                }),
            v@.len() < n ==> v@.len() >= before.len(),
        decreases n - v@.len(),
    {
        let row = Row { runs: Vec::new() };
        proof {
            assert(row@ =~= Seq::<RunView>::empty());
        }
        v.push(row);
    }
    proof {
        assert(row_views(v@) =~= fitted(before, rows as int));
    }
}

/// All rows, or the damaged ones that are on screen.
fn targets(all: bool, damage: &Damage, rows: u16) -> (r: Vec<usize>)
    ensures
        r@ == targets_of(all, false, *damage, rows as int),
        r@ == targets_of(false, all, *damage, rows as int),
        forall|i: int| 0 <= i < r@.len() ==> #[trigger] r@[i] < rows,
{
    let n: usize = rows as usize;
    let mut out: Vec<usize> = Vec::new();
    let all = match damage {
        Damage::Full => true,
        Damage::Lines(ls) => all,
    };
    if all {
        let mut i: usize = 0;
        while i < n
            invariant
                i <= n,
                out@ == upto(i as int),
            decreases n - i,
        {
            out.push(i);
            i = i + 1;
            proof {
                assert(out@ =~= upto(i as int));
            }
        }
        return out;
    }
    if let Damage::Lines(ls) = damage {
        let ghost p = |l: usize| l < rows as int;
        let ghost f = |l: usize| l;
        let mut i: usize = 0;
        proof {
            assert(out@ =~= pick(ls@.take(0), p, f));
        }
        while i < ls.len()
            invariant
                i <= ls@.len(),
                n == rows,
                p == (|l: usize| l < rows as int),
                f == (|l: usize| l),
                out@ == pick(ls@.take(i as int), p, f),
                forall|j: int| 0 <= j < out@.len() ==> #[trigger] out@[j] < rows,
            decreases ls@.len() - i,
        {
            proof {
                lemma_pick_take(ls@, p, f, i as int);
            }
            if ls[i] < n {
                out.push(ls[i]);
            }
            i = i + 1;
        }
        proof {
            assert(ls@.take(i as int) =~= ls@);
        }
    }
    out
}

/// The text of rows, trailing blanks trimmed.
fn text_rows(rows: &Vec<Row>) -> (r: Vec<String>)
    ensures
        texts(r@) == shown(row_views(rows@)),
{
    let mut out: Vec<String> = Vec::new();
    let mut i: usize = 0;
    while i < rows.len()
        invariant
            i <= rows@.len(),
            out@.len() == i,
            forall|j: int|
                0 <= j < i ==> (#[trigger] out@[j])@ == trimmed_end(text_of(rows@[j]@)),
        decreases rows@.len() - i,
    {
        let row = &rows[i];
        let mut s = String::new();
        let mut k: usize = 0;
        proof {
            assert(row@.take(0) =~= Seq::<RunView>::empty());
        }
        while k < row.runs.len()
            invariant
                k <= row.runs@.len(),
                s@ == text_of(row@.take(k as int)),
            decreases row.runs@.len() - k,
        {
            s.append(row.runs[k].text.as_str());
            proof {
                assert(row@.take(k as int + 1).drop_last() =~= row@.take(k as int));
                assert(row@.take(k as int + 1).last() == row@[k as int]);
            }
            k = k + 1;
        }
        proof {
            assert(row@.take(k as int) =~= row@);
        }
        out.push(trim_end(s.as_str()));
        i = i + 1;
    }
    proof {
        assert(texts(out@) =~= shown(row_views(rows@)));
    }
    out
}

impl Screen {
    /// What is dirty is in order, and the live view has as many rows as the visible one.
    pub open spec fn wf(&self) -> bool {
        ascending(self.dirty@) && self.live@.len() == self.rows@.len()
    }

    /// A blank screen, all of it to be built.
    pub fn new(rows: u16) -> (r: Screen)
        ensures
            r.wf(),
            r@ == (ScreenView {
                rows: blank(rows as int),
                live: blank(rows as int),
                scrolled: false,
                dirty: Set::empty(),
                full_repaint: true,
            }),
    {
        let s = Screen {
            rows: blank_rows(rows),
            live: blank_rows(rows),
            scrolled: false,
            dirty: Vec::new(),
            full_repaint: true,
        };
        proof {
            assert(s@.dirty =~= Set::<u16>::empty());
        }
        s
    }

    /// Another size: the screen is blank until it is built again. Which rows were dirty stays.
    pub fn resize(&mut self, rows: u16)
        requires
            old(self).wf(),
        ensures
            final(self).wf(),
            final(self)@ == (ScreenView {
                rows: blank(rows as int),
                live: blank(rows as int),
                full_repaint: true,
                ..old(self)@
            }),
    {
        self.rows = blank_rows(rows);
        self.live = blank_rows(rows);
        self.full_repaint = true;
    }

    /// The rows to build again from the emulator, which has `rows` of them. Asking is what
    /// uses up a full repaint.
    ///
    /// While the view is scrolled back, every row of the live view is asked for apart, as that is
    /// what detection reads: damage that is out of sight is not told of.
    pub fn plan_refresh(&mut self, rows: u16, damage: &Damage, scrolled: bool) -> (r: Plan)
        requires
            old(self).wf(),
        ensures
            final(self).wf(),
            final(self)@ == (ScreenView {
                rows: fitted(old(self)@.rows, rows as int),
                live: fitted(old(self)@.live, rows as int),
                scrolled,
                full_repaint: false,
                ..old(self)@
            }),
            r.view@ == targets_of(
                old(self)@.full_repaint || old(self)@.rows.len() != rows,
                scrolled,
                *damage,
                rows as int,
            ),
            r.live@ == (if scrolled {
                upto(rows as int)
            } else {
                Seq::<usize>::empty()
            }),
            forall|i: int| 0 <= i < r.view@.len() ==> #[trigger] r.view@[i] < rows,
            forall|i: int| 0 <= i < r.live@.len() ==> #[trigger] r.live@[i] < rows,
    {
        let full = self.full_repaint || self.rows.len() != rows as usize;
        fit_rows(&mut self.rows, rows);
        fit_rows(&mut self.live, rows);
        self.scrolled = scrolled;
        self.full_repaint = false;
        let view = targets(full || scrolled, damage, rows);
        let live: Vec<usize> = if scrolled {
            targets(true, damage, rows)
        } else {
            Vec::new()
        };
        proof {
            if !scrolled {
                assert(live@ =~= Seq::<usize>::empty());
            }
        }
        Plan { view, live }
    }

    /// A row was built again. Gives whether that changed anything.
    pub fn take_row(&mut self, y: usize, row: Row) -> (r: bool)
        requires
            old(self).wf(),
            y < old(self).rows@.len(),
        ensures
            final(self).wf(),
            r == (old(self)@.rows[y as int] != row@),
            final(self)@ == row_taken(old(self)@, y as int, row@),
    {
        let ghost before = self@;
        if !self.scrolled {
            self.live.set(y, copy_row(&row));
        }
        proof {
            assert(self@.rows =~= before.rows);
            assert(self@.live =~= (if before.scrolled {
                before.live
            } else {
                before.live.update(y as int, row@)
            }));
        }
        if same_row(&self.rows[y], &row) {
            return false;
        }
        self.rows.set(y, row);
        let n: u16 = (y % 0x10000) as u16;
        insert_row(&mut self.dirty, n);
        proof {
            assert(self@.rows =~= before.rows.update(y as int, row@));
        }
        true
    }

    /// A row of the live view was built again, while the visible one is scrolled back.
    pub fn take_live(&mut self, y: usize, row: Row)
        requires
            old(self).wf(),
            y < old(self).live@.len(),
        ensures
            final(self).wf(),
            final(self)@ == (ScreenView {
                live: old(self)@.live.update(y as int, row@),
                ..old(self)@
            }),
    {
        let ghost before = self@;
        self.live.set(y, row);
        proof {
            assert(self@.live =~= before.live.update(y as int, row@));
        }
    }

    /// Rows changed since the last call, in order, which are then taken as seen.
    pub fn take_dirty(&mut self) -> (r: Vec<u16>)
        requires
            old(self).wf(),
        ensures
            final(self).wf(),
            ascending(r@),
            r@.to_set() == old(self)@.dirty,
            r@ == old(self).dirty@,
            final(self).dirty@.len() == 0,
            final(self).rows@ == old(self).rows@,
            final(self)@ == (ScreenView { dirty: Set::empty(), ..old(self)@ }),
    {
        let mut out: Vec<u16> = Vec::new();
        core::mem::swap(&mut self.dirty, &mut out);
        proof {
            assert(self@.dirty =~= Set::<u16>::empty());
        }
        out
    }

    /// Have every row built and sent again.
    pub fn request_full_repaint(&mut self, rows: u16)
        requires
            old(self).wf(),
        ensures
            final(self).wf(),
            final(self)@ == (ScreenView {
                full_repaint: true,
                dirty: final(self)@.dirty,
                ..old(self)@
            }),
            forall|y: u16| #[trigger]
                final(self)@.dirty.contains(y) <==> (old(self)@.dirty.contains(y) || y < rows),
    {
        self.full_repaint = true;
        let mut y: u16 = 0;
        while y < rows
            invariant
                y <= rows,
                self.wf(),
                self@ == (ScreenView {
                    full_repaint: true,
                    dirty: self@.dirty,
                    ..old(self)@
                }),
                forall|x: u16| #[trigger]
                    self@.dirty.contains(x) <==> (old(self)@.dirty.contains(x) || x < y),
            decreases rows - y,
        {
            let ghost was = self@;
            insert_row(&mut self.dirty, y);
            proof {
                assert(self@.dirty == was.dirty.insert(y));
                assert forall|x: u16| #[trigger]
                    self@.dirty.contains(x) <==> (old(self)@.dirty.contains(x) || x < y + 1) by {
                    assert(was.dirty.contains(x) <==> (old(self)@.dirty.contains(x) || x < y));
                }
            }
            y = y + 1;
        }
    }

    /// One row.
    pub fn row(&self, y: u16) -> (r: Option<&Row>)
        ensures
            match r {
                Some(row) => (y as int) < self.rows@.len() && *row == self.rows@[y as int],
                None => y as int >= self.rows@.len(),
            },
    {
        if (y as usize) < self.rows.len() {
            Some(&self.rows[y as usize])
        } else {
            None
        }
    }

    /// Visible text, one string per row, trailing blanks trimmed.
    pub fn visible_text(&self) -> (r: Vec<String>)
        ensures
            texts(r@) == shown(self@.rows),
    {
        text_rows(&self.rows)
    }

    /// The last `n` rows of the live view, up to the last one that is not blank.
    ///
    /// Detection reads from here rather than the scrolled view, so scrolling back never changes
    /// what an agent is taken to be doing.
    pub fn detection_snapshot(&self, n: usize) -> (r: Vec<String>)
        ensures
            texts(r@) == detected(self@, n as int),
    {
        let all = text_rows(&self.live);
        let ghost ts = texts(all@);
        let mut end: usize = all.len();
        proof {
            assert(ts.take(ts.len() as int) =~= ts);
        }
        while end > 0 && all[end - 1].as_str().is_empty()
            invariant
                end <= all@.len(),
                ts == texts(all@),
                filled_end(ts) == filled_end(ts.take(end as int)),
            decreases end,
        {
            proof {
                assert(ts.take(end as int).last() == all@[end - 1]@);
                assert(ts.take(end as int).drop_last() =~= ts.take(end - 1));
            }
            end = end - 1;
        }
        proof {
            if end > 0 {
                assert(ts.take(end as int).last() == all@[end - 1]@);
            }
            assert(filled_end(ts) == end);
        }
        let start: usize = end.saturating_sub(n);
        let mut out: Vec<String> = Vec::new();
        let mut i: usize = start;
        while i < end
            invariant
                start <= i <= end <= all@.len(),
                out@.len() == i - start,
                forall|j: int| 0 <= j < out@.len() ==> (#[trigger] out@[j])@ == all@[start + j]@,
            decreases end - i,
        {
            out.push(all[i].clone());
            i = i + 1;
        }
        proof {
            assert(texts(out@) =~= ts.subrange(start as int, end as int));
        }
        out
    }
}

/// What detection reads off a screen: the bottom of the live view.
pub open spec fn detected(s: ScreenView, n: int) -> Seq<Seq<char>> {
    tail_shown(shown(s.live), n)
}

/// A screen after some rows were built again.
pub open spec fn rows_taken(s: ScreenView, built: Seq<(int, Seq<RunView>)>) -> ScreenView
    decreases built.len(),
{
    if built.len() == 0 {
        s
    } else {
        row_taken(rows_taken(s, built.drop_last()), built.last().0, built.last().1)
    }
}

/// Scrolling back never changes what detection reads: however a screen that is scrolled back has
/// its visible rows built again, the live view stays as it was.
pub proof fn law_scrolling_back_is_not_detected(
    s: ScreenView,
    rows: u16,
    built: Seq<(int, Seq<RunView>)>,
    n: int,
)
    requires
        s.live.len() == rows,
        s.rows.len() == rows,
    ensures
        ({
            let planned = ScreenView {
                rows: fitted(s.rows, rows as int),
                live: fitted(s.live, rows as int),
                scrolled: true,
                full_repaint: false,
                ..s
            };
            detected(rows_taken(planned, built), n) == detected(s, n)
        }),
{
    let planned = ScreenView {
        rows: fitted(s.rows, rows as int),
        live: fitted(s.live, rows as int),
        scrolled: true,
        full_repaint: false,
        ..s
    };
    assert(planned.live =~= s.live);
    lemma_live_kept(planned, built);
}

proof fn lemma_live_kept(s: ScreenView, built: Seq<(int, Seq<RunView>)>)
    requires
        s.scrolled,
    ensures
        rows_taken(s, built).scrolled,
        rows_taken(s, built).live == s.live,
    decreases built.len(),
{
    if built.len() > 0 {
        lemma_live_kept(s, built.drop_last());
    }
}

/// The text of rows, trailing blanks trimmed.
pub open spec fn shown(rows: Seq<Seq<RunView>>) -> Seq<Seq<char>> {
    Seq::new(rows.len(), |i: int| trimmed_end(text_of(rows[i])))
}

/// Just past the last text that is not empty.
pub open spec fn filled_end(ts: Seq<Seq<char>>) -> int
    decreases ts.len(),
{
    if ts.len() == 0 {
        0
    } else if ts.last().len() > 0 {
        ts.len() as int
    } else {
        filled_end(ts.drop_last())
    }
}

/// The last `n` texts up to the last one that is not empty.
pub open spec fn tail_shown(ts: Seq<Seq<char>>, n: int) -> Seq<Seq<char>> {
    let end = filled_end(ts);
    ts.subrange(
        if end < n {
            0
        } else {
            end - n
        },
        end,
    )
}

// -- the cursor --------------------------------------------------------------

/// Where the cursor is drawn.
#[derive(Debug, Clone, Copy, PartialEq, Eq, Structural)]
pub struct CursorPos {
    pub x: u16,
    pub y: u16,
    pub visible: bool,
}

/// Where the cursor of a grid is drawn: `offset` rows lower than it stands while scrolled
/// back, and not at all where that is off the screen or the program has hidden it.
pub open spec fn cursor_of(line: int, column: int, offset: int, rows: int, shown: bool) -> CursorPos {
    let y = line + offset;
    CursorPos {
        x: (column % 0x10000) as u16,
        y: if y < 0 {
            0
        } else {
            (y % 0x10000) as u16
        },
        visible: shown && 0 <= y < rows,
    }
}

/// Where the cursor of a grid is drawn.
pub fn cursor(line: i32, column: usize, offset: i32, rows: u16, shown: bool) -> (r: CursorPos)
    ensures
        r == cursor_of(line as int, column as int, offset as int, rows as int, shown),
{
    let y: i64 = line as i64 + offset as i64;
    CursorPos {
        x: (column % 0x10000) as u16,
        y: if y < 0 {
            0
        } else {
            (y as u64 % 0x10000) as u16
        },
        visible: shown && y >= 0 && y < rows as i64,
    }
}

// -- input -------------------------------------------------------------------

/// Bytes to write once their moment comes.
#[derive(Debug, Clone, PartialEq, Eq)]
pub struct Deferred {
    /// Unix millis.
    pub at: u64,
    pub bytes: Vec<u8>,
}

/// The same, as values.
pub struct DeferredView {
    pub at: u64,
    pub bytes: Seq<u8>,
}

impl View for Deferred {
    type V = DeferredView;

    open spec fn view(&self) -> DeferredView {
        DeferredView { at: self.at, bytes: self.bytes@ }
    }
}

/// Bytes accepted for a pane but not yet taken by its terminal.
pub struct Outbox {
    pub pane: u64,
    pub exited: bool,
    pub outbound: Vec<u8>,
    /// Enter has to arrive as its own read: a chunk of text and a carriage return arriving
    /// together are taken for a paste. So it is written a beat later.
    pub deferred: Vec<Deferred>,
}

/// The same, as values.
pub struct OutboxView {
    pub pane: u64,
    pub exited: bool,
    pub outbound: Seq<u8>,
    pub deferred: Seq<DeferredView>,
}

impl View for Outbox {
    type V = OutboxView;

    open spec fn view(&self) -> OutboxView {
        OutboxView {
            pane: self.pane,
            exited: self.exited,
            outbound: self.outbound@,
            deferred: Seq::new(self.deferred@.len(), |i: int| self.deferred@[i]@),
        }
    }
}

/// What became of handing bytes to a terminal.
#[derive(Debug, Clone, Copy, PartialEq, Eq, Structural)]
pub enum Wrote {
    /// It took this many.
    Took(usize),
    /// Nothing happened, for no reason of its own.
    Interrupted,
    /// It is full.
    Full,
    /// It is gone.
    Gone,
}

/// What is left to hand over, and whether to go on handing it over now.
pub open spec fn handed(out: Seq<u8>, w: Wrote) -> (Seq<u8>, bool) {
    match w {
        Wrote::Took(n) => if n == 0 {
            (out, false)
        } else if n >= out.len() {
            (Seq::empty(), false)
        } else {
            (out.skip(n as int), true)
        },
        Wrote::Interrupted => (out, out.len() > 0),
        Wrote::Full => (out, false),
        Wrote::Gone => (Seq::empty(), false),
    }
}

/// Writes whose moment has come.
pub open spec fn is_due(now: u64) -> spec_fn(DeferredView) -> bool {
    |d: DeferredView| d.at <= now
}

/// Writes whose moment has not come.
pub open spec fn is_early(now: u64) -> spec_fn(DeferredView) -> bool {
    |d: DeferredView| d.at > now
}

/// The message for a program that does not read.
pub open spec fn stuck_text(pane: u64) -> Seq<char> {
    "pane "@ + decimal(pane as nat) + " is not reading its input"@
}

/// What is waiting once bytes have been written: a program that has ended, or has stopped
/// reading, gets none of them.
pub open spec fn written(o: OutboxView, bytes: Seq<u8>) -> OutboxView {
    if o.exited || o.outbound.len() + bytes.len() > MAX_OUTBOUND {
        o
    } else {
        OutboxView { outbound: o.outbound + bytes, ..o }
    }
}

/// What is waiting, and the title, after the first `n` things the emulator wanted.
pub open spec fn signalled(o: OutboxView, title: Seq<char>, sigs: Seq<PaneSignal>, n: int) -> (
    OutboxView,
    Seq<char>,
)
    decreases n,
{
    if n <= 0 {
        (o, title)
    } else {
        let (b, t) = signalled(o, title, sigs, n - 1);
        match sigs[n - 1] {
            PaneSignal::Write(bytes) => (written(b, bytes@), t),
            PaneSignal::Title(new) => (b, new@),
            _ => (b, t),
        }
    }
}

/// What is waiting after the first `n` of these were written.
pub open spec fn all_written(o: OutboxView, chunks: Seq<Seq<u8>>, n: int) -> OutboxView
    decreases n,
{
    if n <= 0 {
        o
    } else {
        written(all_written(o, chunks, n - 1), chunks[n - 1])
    }
}

/// What is waiting, and the title, after what the emulator wanted was done and what was due was
/// written, in that order.
pub open spec fn pumped(o: OutboxView, title: Seq<char>, sigs: Seq<PaneSignal>, now: u64) -> (
    OutboxView,
    Seq<char>,
) {
    let (b, t) = signalled(o, title, sigs, sigs.len() as int);
    let due = pick(b.deferred, is_due(now), |d: DeferredView| d.bytes);
    let left = OutboxView {
        deferred: pick(b.deferred, is_early(now), |d: DeferredView| d),
        ..b
    };
    (all_written(left, due, due.len() as int), t)
}

impl Outbox {
    /// Nothing to write.
    pub fn new(pane: u64) -> (r: Outbox)
        ensures
            r@ == (OutboxView {
                pane,
                exited: false,
                outbound: Seq::empty(),
                deferred: Seq::empty(),
            }),
    {
        let o = Outbox { pane, exited: false, outbound: Vec::new(), deferred: Vec::new() };
        proof {
            assert(o@.deferred =~= Seq::<DeferredView>::empty());
        }
        o
    }

    /// Accept bytes for the pane. A program that has ended is written nothing, and one that
    /// has stopped reading is refused once too much is waiting.
    pub fn write(&mut self, bytes: &[u8]) -> (r: Result<(), String>)
        ensures
            ({
                let b = old(self)@;
                if b.exited {
                    r is Ok && final(self)@ == b
                } else if b.outbound.len() + bytes@.len() > MAX_OUTBOUND {
                    r is Err && r->Err_0@ == stuck_text(b.pane) && final(self)@ == b
                } else {
                    r is Ok && final(self)@ == (OutboxView {
                        outbound: b.outbound + bytes@,
                        ..b
                    })
                }
            }),
    {
        if self.exited {
            return Ok(());
        }
        let held: usize = self.outbound.len();
        if held > MAX_OUTBOUND || bytes.len() > MAX_OUTBOUND - held {
            let mut m = owned("pane ");
            m.append(number(self.pane).as_str());
            m.append(" is not reading its input");
            return Err(m);
        }
        let mut i: usize = 0;
        let ghost start = self.outbound@;
        proof {
            assert(start + bytes@.take(0) =~= start);
        }
        while i < bytes.len()
            invariant
                i <= bytes@.len(),
                self.outbound@ == start + bytes@.take(i as int),
                self.pane == old(self).pane,
                self.exited == old(self).exited,
                self.deferred == old(self).deferred,
            decreases bytes@.len() - i,
        {
            self.outbound.push(bytes[i]);
            proof {
                assert(self.outbound@ =~= start + bytes@.take(i as int + 1));
            }
            i = i + 1;
        }
        proof {
            assert(bytes@.take(i as int) =~= bytes@);
        }
        Ok(())
    }

    /// Take what the terminal did with what was waiting. Gives whether to go on now.
    pub fn wrote(&mut self, w: Wrote) -> (r: bool)
        ensures
            final(self)@ == (OutboxView {
                outbound: handed(old(self)@.outbound, w).0,
                ..old(self)@
            }),
            r == handed(old(self)@.outbound, w).1,
    {
        match w {
            Wrote::Took(n) => {
                if n == 0 {
                    return false;
                }
                let len: usize = self.outbound.len();
                if n >= len {
                    self.outbound = Vec::new();
                    return false;
                }
                let rest = self.outbound.split_off(n);
                self.outbound = rest;
                proof {
                    assert(self.outbound@ =~= old(self)@.outbound.skip(n as int));
                }
                true
            },
            Wrote::Interrupted => self.outbound.len() > 0,
            Wrote::Full => false,
            Wrote::Gone => {
                self.outbound = Vec::new();
                false
            },
        }
    }

    /// Queue bytes to be written at a later moment.
    pub fn write_later(&mut self, bytes: Vec<u8>, at: u64)
        ensures
            final(self)@ == (OutboxView {
                deferred: old(self)@.deferred.push(DeferredView { at, bytes: bytes@ }),
                ..old(self)@
            }),
    {
        let ghost before = self@;
        self.deferred.push(Deferred { at, bytes });
        proof {
            assert(self@.deferred =~= before.deferred.push(DeferredView { at, bytes: bytes@ }));
        }
    }

    /// The queued bytes whose moment has come, in order. The rest stay queued.
    pub fn take_due(&mut self, now: u64) -> (r: Vec<Vec<u8>>)
        ensures
            Seq::new(r@.len(), |i: int| r@[i]@) == pick(
                old(self)@.deferred,
                is_due(now),
                |d: DeferredView| d.bytes,
            ),
            final(self)@ == (OutboxView {
                deferred: pick(
                    old(self)@.deferred,
                    is_early(now),
                    |d: DeferredView| d,
                ),
                ..old(self)@
            }),
    {
        let ghost all = self@.deferred;
        let ghost fb = |d: DeferredView| d.bytes;
        let ghost fd = |d: DeferredView| d;
        let mut queue: Vec<Deferred> = Vec::new();
        core::mem::swap(&mut self.deferred, &mut queue);
        let mut due: Vec<Vec<u8>> = Vec::new();
        let mut i: usize = 0;
        proof {
            assert(Seq::new(due@.len(), |i: int| due@[i]@) =~= pick(
                all.take(0),
                is_due(now),
                fb,
            ));
            assert(self@.deferred =~= pick(all.take(0), is_early(now), fd));
        }
        while i < queue.len()
            invariant
                i <= queue@.len(),
                all == Seq::new(queue@.len(), |i: int| queue@[i]@),
                fb == (|d: DeferredView| d.bytes),
                fd == (|d: DeferredView| d),
                self.pane == old(self).pane,
                self.exited == old(self).exited,
                self.outbound == old(self).outbound,
                Seq::new(due@.len(), |i: int| due@[i]@) == pick(
                    all.take(i as int),
                    is_due(now),
                    fb,
                ),
                self@.deferred == pick(all.take(i as int), is_early(now), fd),
            decreases queue@.len() - i,
        {
            proof {
                lemma_pick_take(all, is_due(now), fb, i as int);
                lemma_pick_take(all, is_early(now), fd, i as int);
                assert(all[i as int] == queue@[i as int]@);
            }
            let at: u64 = queue[i].at;
            let bytes: Vec<u8> = queue[i].bytes.clone();
            proof {
                assert(bytes@ =~= queue@[i as int].bytes@);
            }
            if at <= now {
                let ghost had = Seq::new(due@.len(), |i: int| due@[i]@);
                due.push(bytes);
                proof {
                    assert(Seq::new(due@.len(), |i: int| due@[i]@) =~= had.push(bytes@));
                }
            } else {
                let ghost had = self@.deferred;
                self.deferred.push(Deferred { at, bytes });
                proof {
                    assert(self@.deferred =~= had.push(DeferredView { at, bytes: bytes@ }));
                }
            }
            i = i + 1;
        }
        proof {
            assert(all.take(i as int) =~= all);
        }
        due
    }

    /// Do what the emulator wanted, and write what has become due.
    pub fn pump(&mut self, title: &mut String, signals: &Vec<PaneSignal>, now: u64)
        ensures
            (final(self)@, final(title)@) == pumped(old(self)@, old(title)@, signals@, now),
    {
        let mut i: usize = 0;
        while i < signals.len()
            invariant
                i <= signals@.len(),
                (self@, title@) == signalled(old(self)@, old(title)@, signals@, i as int),
            decreases signals@.len() - i,
        {
            match &signals[i] {
                PaneSignal::Write(bytes) => {
                    let _ = self.write(bytes.as_slice());
                },
                PaneSignal::Title(new) => {
                    *title = new.clone();
                },
                PaneSignal::Bell | PaneSignal::ClipboardStore | PaneSignal::Wakeup => {},
            }
            i = i + 1;
        }
        let due = self.take_due(now);
        let ghost left = self@;
        let ghost chunks = Seq::new(due@.len(), |i: int| due@[i]@);
        let mut k: usize = 0;
        while k < due.len()
            invariant
                k <= due@.len(),
                chunks == Seq::new(due@.len(), |i: int| due@[i]@),
                self@ == all_written(left, chunks, k as int),
            decreases due@.len() - k,
        {
            let _ = self.write(due[k].as_slice());
            k = k + 1;
        }
    }

    /// Whether anything is still on its way into the pane: what is about to type into it must
    /// wait, or its text would land inside the previous message.
    pub fn has_deferred(&self) -> (r: bool)
        ensures
            r == (self@.deferred.len() > 0 || self@.outbound.len() > 0),
    {
        self.deferred.len() > 0 || self.outbound.len() > 0
    }
}

/// Nothing is lost and nothing reordered on the way to a terminal: what has been taken and
/// what is left make up what there was.
pub proof fn law_nothing_is_lost_on_the_way_out(out: Seq<u8>, n: usize)
    requires
        n <= out.len(),
    ensures
        out.take(n as int) + handed(out, Wrote::Took(n)).0 == out,
{
    assert(out.take(n as int) + out.skip(n as int) =~= out);
    if n == 0 {
        assert(out.take(0) + out =~= out);
    }
    if n == out.len() {
        assert(out.take(n as int) + Seq::<u8>::empty() =~= out);
    }
}

/// What is waiting never grows past its limit, whatever is written.
pub proof fn law_what_waits_is_bounded(o: OutboxView, bytes: Seq<u8>)
    requires
        o.outbound.len() <= MAX_OUTBOUND,
    ensures
        written(o, bytes).outbound.len() <= MAX_OUTBOUND,
{
}

/// What was put off is written once: a second look at the same moment writes nothing more.
pub proof fn law_what_was_put_off_is_written_once(o: OutboxView, now: u64)
    ensures
        ({
            let left = pick(o.deferred, is_early(now), |d: DeferredView| d);
            pick(left, is_due(now), |d: DeferredView| d.bytes).len() == 0
        }),
{
    let left = pick(o.deferred, is_early(now), |d: DeferredView| d);
    let again = pick(left, is_due(now), |d: DeferredView| d.bytes);
    if again.len() > 0 {
        let a = lemma_pick_sound(left, is_due(now), |d: DeferredView| d.bytes, 0);
        let b = lemma_pick_sound(o.deferred, is_early(now), |d: DeferredView| d, a);
        assert(is_early(now)(o.deferred[b]));
        assert(is_due(now)(left[a]));
    }
}

/// Longest text a pane can accept in one line without its terminal discarding the tail:
/// unlimited unless the terminal is in canonical mode.
pub fn max_input_line(canonical: Option<bool>) -> (r: Option<usize>)
    ensures
        r == (if canonical == Some(true) {
            Some(MAX_LINE)
        } else {
            None
        }),
{
    match canonical {
        Some(c) => if c {
            Some(MAX_LINE)
        } else {
            None
        },
        None => None,
    }
}

// -- names and commands ------------------------------------------------------

/// What a pane is called: what it was named, or what its program calls itself, or the program.
pub open spec fn display_of(
    name: Option<Seq<char>>,
    title: Option<Seq<char>>,
    cmd: Seq<char>,
) -> Seq<char> {
    match name {
        Some(n) => n,
        None => match title {
            Some(t) if t.len() > 0 => t,
            _ => {
                let ws = words_of(cmd);
                if ws.len() > 0 && file_name(ws[0]) is Some {
                    file_name(ws[0])->Some_0
                } else {
                    "shell"@
                }
            },
        },
    }
}

/// Best-effort display name: explicit rename, then the program's own title, then the command.
pub fn display_name(name: Option<&str>, title: Option<&str>, cmd: &str) -> (r: String)
    ensures
        r@ == display_of(opt_str(name), opt_str(title), cmd@),
{
    if let Some(n) = name {
        return owned(n);
    }
    if let Some(t) = title {
        if !t.is_empty() {
            return owned(t);
        }
    }
    let ws = words(cmd);
    proof {
        assert(texts(ws@).len() == ws@.len());
        if ws@.len() > 0 {
            assert(texts(ws@)[0] == ws@[0]@);
        }
    }
    if ws.len() > 0 {
        if let Some(f) = name_in(ws[0].as_str()) {
            return f;
        }
    }
    owned("shell")
}

/// The program and arguments of a command: its words, or the default shell for none.
///
/// Quoting is deliberately not handled: anything needing quotes can be written as
/// `sh -c '...'`.
pub fn build_command(cmd: &str, default_shell: &str) -> (r: Vec<String>)
    ensures
        texts(r@) == (if words_of(cmd@).len() == 0 {
            seq![default_shell@]
        } else {
            words_of(cmd@)
        }),
        r@.len() > 0,
{
    let ws = words(cmd);
    proof {
        assert(texts(ws@).len() == ws@.len());
    }
    if ws.len() == 0 {
        let v = vec![owned(default_shell)];
        proof {
            assert(texts(v@) =~= seq![default_shell@]);
        }
        v
    } else {
        ws
    }
}

/// The shell to open a pane with when nothing else says: `$SHELL` where it names anything, and
/// otherwise the one shell the system is sure to have.
pub fn default_shell(from_environment: Option<&str>, macos: bool) -> (r: String)
    ensures
        r@ == (match from_environment {
            Some(s) if s@.len() > 0 => s@,
            _ => if macos {
                "/bin/zsh"@
            } else {
                "/bin/sh"@
            },
        }),
{
    if let Some(s) = from_environment {
        if !s.is_empty() {
            return owned(s);
        }
    }
    if macos {
        owned("/bin/zsh")
    } else {
        owned("/bin/sh")
    }
}

/// Why a command could not be started, naming the program and the likely cause.
pub fn spawn_failure(cmd: &str) -> (r: String)
    ensures
        r@ == "could not start "@ + quoted(
            if words_of(cmd@).len() > 0 {
                words_of(cmd@)[0]
            } else {
                cmd@
            },
        ) + " — is it installed and on PATH?"@,
{
    let ws = words(cmd);
    proof {
        assert(texts(ws@).len() == ws@.len());
        if ws@.len() > 0 {
            assert(texts(ws@)[0] == ws@[0]@);
        }
    }
    let mut m = owned("could not start ");
    if ws.len() > 0 {
        m.append(quote(ws[0].as_str()).as_str());
    } else {
        m.append(quote(cmd).as_str());
    }
    m.append(" — is it installed and on PATH?");
    m
}

/// One variable of an environment.
pub struct VarView {
    pub name: Seq<char>,
    pub value: Seq<char>,
}

/// One variable of an environment.
#[derive(Debug, Clone, PartialEq, Eq)]
pub struct Var {
    pub name: String,
    pub value: String,
}

impl View for Var {
    type V = VarView;

    open spec fn view(&self) -> VarView {
        VarView { name: self.name@, value: self.value@ }
    }
}

/// Variables, as text.
pub open spec fn var_views(v: Seq<Var>) -> Seq<VarView> {
    Seq::new(v.len(), |i: int| v[i]@)
}

/// The variables a pane's program is given, in order: who it is and how to reach the daemon,
/// and then the user's own, which may override anything before them.
pub open spec fn environment_of(
    socket: Seq<char>,
    pane: u64,
    tab: u64,
    space: u64,
    own: Seq<VarView>,
) -> Seq<VarView> {
    seq![
        VarView { name: "TERM"@, value: "xterm-256color"@ },
        VarView { name: "COLORTERM"@, value: "truecolor"@ },
        VarView { name: "HORDE_SOCKET"@, value: socket },
        VarView { name: "HORDE_PANE"@, value: decimal(pane as nat) },
        VarView { name: "HORDE_TAB"@, value: decimal(tab as nat) },
        VarView { name: "HORDE_SPACE"@, value: decimal(space as nat) },
        VarView { name: "PAGER"@, value: "cat"@ },
        VarView { name: "HORDE_DOCS"@, value: "horde docs orchestration"@ },
    ] + own
}

/// The variables a pane's program is given.
pub fn environment(socket: &str, pane: u64, tab: u64, space: u64, own: &Vec<Var>) -> (r: Vec<Var>)
    ensures
        var_views(r@) == environment_of(socket@, pane, tab, space, var_views(own@)),
{
    let mut out: Vec<Var> = vec![
        Var { name: owned("TERM"), value: owned("xterm-256color") },
        Var { name: owned("COLORTERM"), value: owned("truecolor") },
        Var { name: owned("HORDE_SOCKET"), value: owned(socket) },
        Var { name: owned("HORDE_PANE"), value: number(pane) },
        Var { name: owned("HORDE_TAB"), value: number(tab) },
        Var { name: owned("HORDE_SPACE"), value: number(space) },
        Var { name: owned("PAGER"), value: owned("cat") },
        Var { name: owned("HORDE_DOCS"), value: owned("horde docs orchestration") },
    ];
    let ghost start = var_views(out@);
    let mut i: usize = 0;
    proof {
        assert(start =~= environment_of(socket@, pane, tab, space, Seq::empty()));
        assert(start + var_views(own@).take(0) =~= start);
    }
    while i < own.len()
        invariant
            i <= own@.len(),
            var_views(out@) == start + var_views(own@).take(i as int),
        decreases own@.len() - i,
    {
        let ghost had = var_views(out@);
        let v = Var { name: own[i].name.clone(), value: own[i].value.clone() };
        out.push(v);
        proof {
            assert(var_views(out@) =~= had.push(v@));
            assert(var_views(out@) =~= start + var_views(own@).take(i as int + 1));
        }
        i = i + 1;
    }
    proof {
        assert(var_views(own@).take(i as int) =~= var_views(own@));
        assert(var_views(out@) =~= environment_of(socket@, pane, tab, space, var_views(own@)));
    }
    out
}

} // verus!
