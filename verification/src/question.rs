//! Lifting a pending question off a blocked agent's screen.
//!
//! Detection already knows *that* an agent is waiting on you. This works out *what it asked*.
//! Every agent that asks a question draws it the same way, as a line ending in `?` above a
//! numbered list, so one generic parser covers them all. What it will not do is guess: nothing
//! matched means no question.

use crate::proto::{Choice, ChoiceView, Question, QuestionView};
use crate::text::{
    class, contains, ends, ends_with, first_chars, is_digit, lowercase, occurs, owned, skip_while,
    split_once, split_once_any, take_chars, texts, to_lower, trim, trim_by, trim_in, trim_start,
    trim_start_in, trimmed, trimmed_start,
};
use vstd::prelude::*;
use vstd::string::*;

verus! {

/// How far up the screen to look. The prompt is the newest thing on it; anything older is
/// the turn that led to the prompt.
pub const LOOK_BACK: usize = 30;

/// Longest question text kept.
pub const MAX_TEXT: usize = 160;

/// Longest label kept.
pub const MAX_LABEL: usize = 60;

/// Most options offered: the answer is a digit, and no agent asks that many.
pub const MAX_OPTIONS: usize = 9;

/// How many rows above the options, or up from the bottom, can hold the question.
pub const REACH: usize = 8;

/// Box-drawing and decoration that frames a prompt without being part of it.
pub const FRAME: &'static str = "│┃║▌▐|╭╮╰╯─━═";

/// What marks the selected option.
pub const MARKS: &'static str = "❯>›»*";

/// A line without what frames it.
pub open spec fn undecorated(line: Seq<char>) -> Seq<char> {
    trim_by(trimmed(line), class(FRAME@, true))
}

/// Box-drawing, decoration and whitespace stripped from both ends.
pub fn undecorate(line: &str) -> (r: String)
    ensures
        r@ == undecorated(line@),
{
    let t = trim(line);
    trim_in(t.as_str(), FRAME, true)
}

/// The numbered choice a line holds, if it is one.
pub open spec fn option_in(line: Seq<char>) -> Option<ChoiceView> {
    let s = trimmed_start(skip_while(undecorated(line), class(MARKS@, false)));
    match split_once(s, ".)"@) {
        Some((num, rest)) => {
            let key = trimmed(num);
            let label = trimmed(rest);
            if key.len() == 1 && is_digit(key[0]) && label.len() > 0 {
                Some(ChoiceView { key, label: first_chars(label, MAX_LABEL as int) })
            } else {
                None
            }
        },
        None => None,
    }
}

/// A numbered choice: `❯ 1. Yes`, `2) No`, `  3. Yes, and don't ask again`.
pub fn as_option(line: &str) -> (r: Option<Choice>)
    ensures
        match r {
            Some(c) => option_in(line@) == Some(c@),
            None => option_in(line@) is None,
        },
{
    let s = undecorate(line);
    // The selection marker is not part of the label.
    let s = trim_start_in(s.as_str(), MARKS, false);
    let s = trim_start(s.as_str());
    match split_once_any(s.as_str(), ".)") {
        Some((num, rest)) => {
            let key = trim(num.as_str());
            let label = trim(rest.as_str());
            if key.as_str().unicode_len() != 1 {
                return None;
            }
            let c = key.as_str().get_char(0);
            if !('0' <= c && c <= '9') || label.as_str().is_empty() {
                return None;
            }
            Some(Choice { key, label: take_chars(label.as_str(), MAX_LABEL) })
        },
        None => None,
    }
}

/// Whether text that has been lowered reads as a question.
pub open spec fn asking(low: Seq<char>) -> bool {
    ||| ends(low, "?"@)
    ||| occurs(low, "do you want"@)
    ||| occurs(low, "would you like"@)
    ||| occurs(low, "allow"@)
    ||| occurs(low, "proceed"@)
}

/// Whether text that has been lowered reads as a question.
pub fn asks_lowered(low: &str) -> (r: bool)
    ensures
        r == asking(low@),
{
    ends_with(low, "?") || contains(low, "do you want") || contains(low, "would you like")
        || contains(low, "allow") || contains(low, "proceed")
}

/// Whether a line reads as the question the options answer.
pub open spec fn asks_spec(line: Seq<char>) -> bool {
    asking(lowercase(undecorated(line)))
}

/// Does this line read as the question the options answer?
pub fn asks(line: &str) -> (r: bool)
    ensures
        r == asks_spec(line@),
{
    let s = undecorate(line);
    let l = to_lower(s.as_str());
    asks_lowered(l.as_str())
}

/// The lowest of the last `n` rows that `p` accepts.
pub open spec fn nearest(
    rows: Seq<Seq<char>>,
    n: nat,
    p: spec_fn(Seq<char>) -> bool,
) -> Option<Seq<char>>
    decreases n,
{
    if n == 0 || rows.len() == 0 {
        None
    } else if p(rows.last()) {
        Some(rows.last())
    } else {
        nearest(rows.drop_last(), (n - 1) as nat, p)
    }
}

/// A row with something in it.
pub open spec fn filled() -> spec_fn(Seq<char>) -> bool {
    |row: Seq<char>| undecorated(row).len() > 0
}

/// A row with a question in it.
pub open spec fn asked() -> spec_fn(Seq<char>) -> bool {
    |row: Seq<char>| undecorated(row).len() > 0 && asks_spec(undecorated(row))
}

/// The text of a question row.
pub open spec fn question_text(row: Seq<char>) -> Seq<char> {
    first_chars(undecorated(row), MAX_TEXT as int)
}

/// The nearest row that asks something, or failing that the nearest with anything in it.
pub open spec fn text_above(before: Seq<Seq<char>>) -> Option<Seq<char>> {
    match nearest(before, REACH as nat, asked()) {
        Some(row) => Some(question_text(row)),
        None => match nearest(before, REACH as nat, filled()) {
            Some(row) => Some(question_text(row)),
            None => None,
        },
    }
}

/// The nearest line above the options that reads like a question.
///
/// Walks up rather than taking the immediately preceding line, because prompts put a blank
/// line and sometimes the command being approved between the two. A line that asks nothing is
/// still better than a set of options with nothing above them.
pub fn question_above(before: &[String]) -> (r: Option<String>)
    ensures
        match r {
            Some(t) => text_above(texts(before@)) == Some(t@),
            None => text_above(texts(before@)) is None,
        },
{
    let mut fallback: Option<String> = None;
    let mut i: usize = before.len();
    let mut n: usize = REACH;
    let ghost all = texts(before@);
    proof {
        assert(all.take(i as int) =~= all);
    }
    while i > 0 && n > 0
        invariant
            i <= before@.len(),
            n <= REACH,
            all == texts(before@),
            nearest(all, REACH as nat, asked()) == nearest(all.take(i as int), n as nat, asked()),
            match fallback {
                None => nearest(all, REACH as nat, filled()) == nearest(
                    all.take(i as int),
                    n as nat,
                    filled(),
                ),
                Some(t) => nearest(all, REACH as nat, filled()) matches Some(row) && t@
                    == question_text(row),
            },
        decreases n,
    {
        i = i - 1;
        n = n - 1;
        proof {
            assert(all.take(i as int + 1).last() == before@[i as int]@);
            assert(all.take(i as int + 1).drop_last() =~= all.take(i as int));
        }
        let s = undecorate(before[i].as_str());
        if !s.as_str().is_empty() {
            if asks(s.as_str()) {
                return Some(take_chars(s.as_str(), MAX_TEXT));
            }
            if fallback.is_none() {
                fallback = Some(take_chars(s.as_str(), MAX_TEXT));
            }
        }
    }
    fallback
}

/// Whether text that has been lowered holds a yes-or-no marker.
pub open spec fn yes_no_marked(low: Seq<char>) -> bool {
    ||| occurs(low, "(y/n)"@)
    ||| occurs(low, "[y/n]"@)
    ||| occurs(low, "(y)es"@)
    ||| occurs(low, "y/n?"@)
}

/// Whether text that has been lowered holds a yes-or-no marker.
pub fn has_yes_no_mark(low: &str) -> (r: bool)
    ensures
        r == yes_no_marked(low@),
{
    contains(low, "(y/n)") || contains(low, "[y/n]") || contains(low, "(y)es") || contains(
        low,
        "y/n?",
    )
}

/// A row with a yes-or-no marker.
pub open spec fn yes_no_row() -> spec_fn(Seq<char>) -> bool {
    |row: Seq<char>|
        undecorated(row).len() > 0 && yes_no_marked(lowercase(undecorated(row)))
}

/// The two answers to a yes-or-no prompt.
pub open spec fn yes_no_options() -> Seq<ChoiceView> {
    seq![
        ChoiceView { key: "y"@, label: "yes"@ },
        ChoiceView { key: "n"@, label: "no"@ },
    ]
}

/// The yes-or-no prompt near the bottom of the rows.
pub open spec fn yes_no_in(rows: Seq<Seq<char>>) -> Option<QuestionView> {
    match nearest(rows, REACH as nat, yes_no_row()) {
        Some(row) => Some(
            QuestionView { text: question_text(row), options: yes_no_options() },
        ),
        None => None,
    }
}

/// `(y/n)`, `[y/N]`, `(y)es/(n)o`: one keypress, no list.
pub fn yes_no(tail: &[String]) -> (r: Option<Question>)
    ensures
        match r {
            Some(q) => yes_no_in(texts(tail@)) == Some(q@),
            None => yes_no_in(texts(tail@)) is None,
        },
{
    let mut i: usize = tail.len();
    let mut n: usize = REACH;
    let ghost all = texts(tail@);
    proof {
        assert(all.take(i as int) =~= all);
    }
    while i > 0 && n > 0
        invariant
            i <= tail@.len(),
            n <= REACH,
            all == texts(tail@),
            nearest(all, REACH as nat, yes_no_row()) == nearest(
                all.take(i as int),
                n as nat,
                yes_no_row(),
            ),
        decreases n,
    {
        i = i - 1;
        n = n - 1;
        proof {
            assert(all.take(i as int + 1).last() == tail@[i as int]@);
            assert(all.take(i as int + 1).drop_last() =~= all.take(i as int));
        }
        let s = undecorate(tail[i].as_str());
        let low = to_lower(s.as_str());
        if !s.as_str().is_empty() && has_yes_no_mark(low.as_str()) {
            let text = take_chars(s.as_str(), MAX_TEXT);
            let yes = Choice { key: owned("y"), label: owned("yes") };
            let no = Choice { key: owned("n"), label: owned("no") };
            let q = Question { text, options: vec![yes, no] };
            proof {
                assert(q@.options =~= yes_no_options());
            }
            return Some(q);
        }
    }
    None
}

/// The rows of a screen that have anything in them, undecorated.
pub open spec fn rows_of(lines: Seq<Seq<char>>) -> Seq<Seq<char>>
    decreases lines.len(),
{
    if lines.len() == 0 {
        Seq::empty()
    } else {
        let row = undecorated(lines.last());
        if row.len() > 0 {
            rows_of(lines.drop_last()).push(row)
        } else {
            rows_of(lines.drop_last())
        }
    }
}

/// Whether a row is a numbered option.
pub open spec fn is_option(row: Seq<char>) -> bool {
    option_in(row) is Some
}

/// Where the run of options that ends before `end` begins.
pub open spec fn run_start(rows: Seq<Seq<char>>, end: int) -> int
    decreases end,
{
    if 0 < end <= rows.len() && is_option(rows[end - 1]) {
        run_start(rows, end - 1)
    } else {
        end
    }
}

/// Just past the last option, or 0 where there is none.
pub open spec fn options_end(rows: Seq<Seq<char>>) -> int
    decreases rows.len(),
{
    if rows.len() == 0 {
        0
    } else if is_option(rows.last()) {
        rows.len() as int
    } else {
        options_end(rows.drop_last())
    }
}

/// The question that the rows ask: the last run of numbered options with the question above
/// it, or a yes-or-no prompt where there are no options at all.
pub open spec fn question_in(rows: Seq<Seq<char>>) -> Option<QuestionView> {
    let end = options_end(rows);
    let start = run_start(rows, end);
    if end == 0 {
        yes_no_in(rows)
    } else if end - start < 2 {
        None
    } else {
        match text_above(rows.take(start)) {
            Some(text) => Some(
                QuestionView {
                    text,
                    options: Seq::new(
                        (if end - start <= MAX_OPTIONS {
                            end - start
                        } else {
                            MAX_OPTIONS as int
                        }) as nat,
                        |i: int| option_in(rows[start + i])->Some_0,
                    ),
                },
            ),
            None => None,
        }
    }
}

/// The newest lines of a screen.
pub open spec fn tail_of(lines: Seq<Seq<char>>) -> Seq<Seq<char>> {
    if lines.len() <= LOOK_BACK {
        lines
    } else {
        lines.skip(lines.len() - LOOK_BACK)
    }
}

/// The last option is where the last run ends, and the run is all options.
proof fn lemma_options_end(rows: Seq<Seq<char>>, k: int)
    requires
        0 <= k <= rows.len(),
        k > 0 ==> is_option(rows[k - 1]),
        forall|i: int| k <= i < rows.len() ==> !is_option(#[trigger] rows[i]),
    ensures
        options_end(rows) == k,
    decreases rows.len(),
{
    if k < rows.len() {
        let t = rows.drop_last();
        assert(!is_option(rows[rows.len() - 1]));
        assert forall|i: int| k <= i < t.len() implies !is_option(#[trigger] t[i]) by {
            assert(t[i] == rows[i]);
        }
        lemma_options_end(t, k);
    }
}

proof fn lemma_run_start(rows: Seq<Seq<char>>, start: int, end: int)
    requires
        0 <= start <= end <= rows.len(),
        forall|i: int| start <= i < end ==> is_option(#[trigger] rows[i]),
        start > 0 ==> !is_option(rows[start - 1]),
    ensures
        run_start(rows, end) == start,
    decreases end - start,
{
    if start < end {
        assert(is_option(rows[end - 1]));
        lemma_run_start(rows, start, end - 1);
    }
}

/// The question a blocked agent is waiting on, if one can be read off the screen.
///
/// `lines` is the detection snapshot: newest at the end. A prompt box wider than its pane
/// leaves fragments of border between its rows, so rows with nothing left in them are dropped
/// before the options are looked for.
pub fn extract(lines: &[String]) -> (r: Option<Question>)
    ensures
        match r {
            Some(q) => question_in(rows_of(tail_of(texts(lines@)))) == Some(q@),
            None => question_in(rows_of(tail_of(texts(lines@)))) is None,
        },
{
    let from: usize = if lines.len() <= LOOK_BACK {
        0
    } else {
        lines.len() - LOOK_BACK
    };
    let ghost tail = tail_of(texts(lines@));
    let mut rows: Vec<String> = Vec::new();
    let mut i: usize = from;
    proof {
        assert(texts(rows@) =~= rows_of(tail.take(0)));
    }
    while i < lines.len()
        invariant
            from <= i <= lines@.len(),
            tail == tail_of(texts(lines@)),
            from == (if lines@.len() <= LOOK_BACK { 0 } else { lines@.len() - LOOK_BACK }),
            texts(rows@) == rows_of(tail.take(i - from)),
        decreases lines@.len() - i,
    {
        let row = undecorate(lines[i].as_str());
        proof {
            let k = i - from;
            assert(tail[k] == lines@[i as int]@);
            assert(tail.take(k + 1).drop_last() =~= tail.take(k));
            assert(tail.take(k + 1).last() == tail[k]);
        }
        if !row.as_str().is_empty() {
            let ghost before = rows@;
            rows.push(row);
            proof {
                assert(texts(rows@) =~= texts(before).push(row@));
            }
        }
        i = i + 1;
    }
    proof {
        assert(tail.take(tail.len() as int) =~= tail);
    }
    let ghost rs = texts(rows@);

    // The last run of numbered options: a transcript can hold every prompt of the session, and
    // only the bottom one is still being asked.
    let mut end: usize = rows.len();
    while end > 0 && as_option(rows[end - 1].as_str()).is_none()
        invariant
            end <= rows@.len(),
            rs == texts(rows@),
            forall|j: int| end <= j < rs.len() ==> !is_option(#[trigger] rs[j]),
        decreases end,
    {
        end = end - 1;
    }
    proof {
        lemma_options_end(rs, end as int);
    }
    if end == 0 {
        // A plain yes/no prompt is the other shape agents ask in, and it has no list to find.
        return yes_no(rows.as_slice());
    }
    let mut start: usize = end;
    let mut found: Vec<Choice> = Vec::new();
    while start > 0
        invariant_except_break
            forall|j: int| start <= j < end ==> is_option(#[trigger] rs[j]),
        invariant
            start <= end <= rows@.len(),
            rs == texts(rows@),
        ensures
            forall|j: int| start <= j < end ==> is_option(#[trigger] rs[j]),
            start > 0 ==> !is_option(rs[start - 1]),
        decreases start,
    {
        if as_option(rows[start - 1].as_str()).is_none() {
            break;
        }
        start = start - 1;
    }
    proof {
        lemma_run_start(rs, start as int, end as int);
    }
    // One option is a list of length one, which is a menu nobody is choosing from.
    if end - start < 2 {
        return None;
    }
    let kept: usize = if end - start <= MAX_OPTIONS {
        end - start
    } else {
        MAX_OPTIONS
    };
    let mut k: usize = 0;
    while k < kept
        invariant
            k <= kept <= end - start,
            start <= end <= rows@.len(),
            rs == texts(rows@),
            forall|j: int| start <= j < end ==> is_option(#[trigger] rs[j]),
            found@.len() == k,
            forall|j: int|
                0 <= j < k ==> (#[trigger] found@[j])@ == option_in(rs[start + j])->Some_0,
        decreases kept - k,
    {
        proof {
            assert(is_option(rs[start + k]));
        }
        if let Some(c) = as_option(rows[start + k].as_str()) {
            found.push(c);
        }
        k = k + 1;
    }
    let (above, _rest) = rows.as_slice().split_at(start);
    proof {
        assert(texts(above@) =~= rs.take(start as int));
    }
    match question_above(above) {
        Some(text) => {
            let q = Question { text, options: found };
            proof {
                assert(q@.options =~= (question_in(rs)->Some_0).options);
            }
            Some(q)
        },
        None => None,
    }
}

// -- laws --------------------------------------------------------------------

proof fn lemma_run_is_options(rows: Seq<Seq<char>>, end: int)
    requires
        0 <= end <= rows.len(),
    ensures
        0 <= run_start(rows, end) <= end,
        forall|i: int| run_start(rows, end) <= i < end ==> is_option(#[trigger] rows[i]),
        run_start(rows, end) > 0 ==> !is_option(rows[run_start(rows, end) - 1]),
    decreases end,
{
    if 0 < end && is_option(rows[end - 1]) {
        lemma_run_is_options(rows, end - 1);
    }
}

proof fn lemma_options_end_bounds(rows: Seq<Seq<char>>)
    ensures
        0 <= options_end(rows) <= rows.len(),
        options_end(rows) > 0 ==> is_option(rows[options_end(rows) - 1]),
        forall|i: int| options_end(rows) <= i < rows.len() ==> !is_option(#[trigger] rows[i]),
    decreases rows.len(),
{
    if rows.len() > 0 && !is_option(rows.last()) {
        let t = rows.drop_last();
        lemma_options_end_bounds(t);
        assert forall|i: int| options_end(rows) <= i < rows.len() implies !is_option(
            #[trigger] rows[i],
        ) by {
            if i < t.len() {
                assert(t[i] == rows[i]);
            }
        }
    }
}

/// What is nearest is accepted.
proof fn lemma_nearest_accepted(rows: Seq<Seq<char>>, n: nat, p: spec_fn(Seq<char>) -> bool)
    ensures
        nearest(rows, n, p) matches Some(row) ==> p(row),
    decreases n,
{
    if n > 0 && rows.len() > 0 && !p(rows.last()) {
        lemma_nearest_accepted(rows.drop_last(), (n - 1) as nat, p);
    }
}

/// Every question found can be answered with one key: it offers between two options and
/// nine, each under a key of one character, it says something, and neither its text nor a label
/// is longer than what is shown.
pub proof fn law_question_is_answerable(rows: Seq<Seq<char>>)
    requires
        question_in(rows) is Some,
    ensures
        ({
            let q = question_in(rows)->Some_0;
            &&& 2 <= q.options.len() <= MAX_OPTIONS
            &&& 1 <= q.text.len() <= MAX_TEXT
            &&& forall|i: int|
                0 <= i < q.options.len() ==> (#[trigger] q.options[i]).key.len() == 1 && 1
                    <= q.options[i].label.len() <= MAX_LABEL
        }),
{
    reveal_strlit("y");
    reveal_strlit("n");
    reveal_strlit("yes");
    reveal_strlit("no");
    let end = options_end(rows);
    lemma_options_end_bounds(rows);
    lemma_run_is_options(rows, end);
    let start = run_start(rows, end);
    let q = question_in(rows)->Some_0;
    lemma_nearest_accepted(rows, REACH as nat, yes_no_row());
    lemma_nearest_accepted(rows.take(start), REACH as nat, asked());
    lemma_nearest_accepted(rows.take(start), REACH as nat, filled());
    if end > 0 {
        assert forall|i: int| 0 <= i < q.options.len() implies (#[trigger] q.options[i]).key.len()
            == 1 && 1 <= q.options[i].label.len() <= MAX_LABEL by {
            assert(is_option(rows[start + i]));
        }
    }
}

proof fn lemma_nearest_local(
    older: Seq<Seq<char>>,
    newer: Seq<Seq<char>>,
    n: nat,
    p: spec_fn(Seq<char>) -> bool,
)
    requires
        n <= newer.len(),
    ensures
        nearest(older + newer, n, p) == nearest(newer, n, p),
    decreases n,
{
    if n > 0 {
        assert((older + newer).last() == newer.last());
        assert((older + newer).drop_last() =~= older + newer.drop_last());
        lemma_nearest_local(older, newer.drop_last(), (n - 1) as nat, p);
    }
}

/// The newest prompt wins: once the last menu and the rows it can take its question from are
/// on screen, nothing older above them changes what is read.
pub proof fn law_newest_prompt_wins(older: Seq<Seq<char>>, newer: Seq<Seq<char>>)
    requires
        options_end(newer) > 0,
        run_start(newer, options_end(newer)) >= REACH,
    ensures
        question_in(older + newer) == question_in(newer),
{
    let all = older + newer;
    let n = older.len() as int;
    let end = options_end(newer);
    let start = run_start(newer, end);
    lemma_options_end_bounds(newer);
    lemma_run_is_options(newer, end);
    assert forall|i: int| n + end <= i < all.len() implies !is_option(#[trigger] all[i]) by {
        assert(all[i] == newer[i - n]);
    }
    assert(all[n + end - 1] == newer[end - 1]);
    lemma_options_end(all, n + end);
    assert forall|i: int| n + start <= i < n + end implies is_option(#[trigger] all[i]) by {
        assert(all[i] == newer[i - n]);
    }
    assert(all[n + start - 1] == newer[start - 1]);
    lemma_run_start(all, n + start, n + end);
    assert(all.take(n + start) =~= older + newer.take(start));
    lemma_nearest_local(older, newer.take(start), REACH as nat, asked());
    lemma_nearest_local(older, newer.take(start), REACH as nat, filled());
    if question_in(newer) is Some {
        assert((question_in(all)->Some_0).options =~= (question_in(newer)->Some_0).options);
    }
}

/// A single numbered line is not a menu: rows with exactly one option ask nothing.
pub proof fn law_one_option_is_no_menu(rows: Seq<Seq<char>>, k: int)
    requires
        0 <= k < rows.len(),
        forall|i: int| 0 <= i < rows.len() ==> (is_option(#[trigger] rows[i]) <==> i == k),
    ensures
        question_in(rows) is None,
{
    assert(is_option(rows[k]));
    lemma_options_end(rows, k + 1);
    if k > 0 {
        assert(!is_option(rows[k - 1]));
    }
    lemma_run_start(rows, k, k + 1);
}

} // verus!
