//! What is read off a blocked agent's screen, row by row.

use crate::proto::ChoiceView;
use crate::question::{
    asked, filled, is_option, nearest, option_in, options_end, question_in, rows_of, run_start,
    tail_of, text_above, undecorated, yes_no_row, FRAME, MARKS,
};
use crate::text::{
    class, ends, is_digit, is_space, lemma_drop_while, lemma_first_of_is, lemma_skip_while,
    lowercase, occurs, trimmed, trimmed_start, white,
};
use vstd::prelude::*;

verus! {

// -- the question ------------------------------------------------------------

/// Whether a row reads as a question: it ends in a question mark, or says what agents say when
/// they ask.
pub open spec fn reads_as_question(row: Seq<char>) -> bool {
    let low = lowercase(undecorated(undecorated(row)));
    &&& undecorated(row).len() > 0
    &&& ends(low, "?"@) || occurs(low, "do you want"@) || occurs(low, "would you like"@) || occurs(
        low,
        "allow"@,
    ) || occurs(low, "proceed"@)
}

/// The first hundred and sixty characters of what a row says.
pub open spec fn said_in(row: Seq<char>) -> Seq<char> {
    let s = undecorated(row);
    if s.len() <= 160 {
        s
    } else {
        s.take(160)
    }
}

proof fn lemma_nearest_at(
    rows: Seq<Seq<char>>,
    n: nat,
    p: spec_fn(Seq<char>) -> bool,
    k: int,
)
    requires
        0 <= k < rows.len(),
        rows.len() - n <= k,
        p(rows[k]),
        forall|j: int| k < j < rows.len() ==> !p(#[trigger] rows[j]),
    ensures
        nearest(rows, n, p) == Some(rows[k]),
    decreases n,
{
    if k < rows.len() - 1 {
        let t = rows.drop_last();
        assert(!p(rows[rows.len() - 1]));
        assert forall|j: int| k < j < t.len() implies !p(#[trigger] t[j]) by {
            assert(t[j] == rows[j]);
        }
        assert(t[k] == rows[k]);
        lemma_nearest_at(t, (n - 1) as nat, p, k);
    }
}

proof fn lemma_nearest_none(rows: Seq<Seq<char>>, n: nat, p: spec_fn(Seq<char>) -> bool)
    requires
        forall|j: int| rows.len() - n <= j < rows.len() && 0 <= j ==> !p(#[trigger] rows[j]),
    ensures
        nearest(rows, n, p) is None,
    decreases n,
{
    if n > 0 && rows.len() > 0 {
        let t = rows.drop_last();
        assert(!p(rows[rows.len() - 1]));
        assert forall|j: int| t.len() - (n - 1) <= j < t.len() && 0 <= j implies !p(
            #[trigger] t[j],
        ) by {
            assert(t[j] == rows[j]);
        }
        lemma_nearest_none(t, (n - 1) as nat, p);
    }
}

/// Where a row within eight above the options asks, the text is that of the lowest such row,
/// whatever rows that ask nothing stand between it and the options.
pub proof fn law_the_lowest_row_that_asks_is_the_question(before: Seq<Seq<char>>, k: int)
    requires
        0 <= k < before.len(),
        before.len() - 8 <= k,
        reads_as_question(before[k]),
        forall|j: int| k < j < before.len() ==> !reads_as_question(#[trigger] before[j]),
    ensures
        text_above(before) == Some(said_in(before[k])),
{
    let p = asked();
    assert(p(before[k]));
    assert forall|j: int| k < j < before.len() implies !p(#[trigger] before[j]) by {
        assert(!reads_as_question(before[j]));
    }
    lemma_nearest_at(before, 8, p, k);
}

/// A row that ends in a question mark is one that asks, and so is one with the words that agents
/// ask with.
pub proof fn law_a_question_mark_asks(row: Seq<char>)
    requires
        undecorated(row).len() > 0,
    ensures
        ({
            let low = lowercase(undecorated(undecorated(row)));
            &&& low.len() > 0 && low.last() == '?' ==> reads_as_question(row)
            &&& reads_as_question(row) ==> asked()(row)
            &&& asked()(row) ==> reads_as_question(row)
        }),
{
    reveal_strlit("?");
    let low = lowercase(undecorated(undecorated(row)));
    if low.len() > 0 && low.last() == '?' {
        assert(low.subrange(low.len() - 1, low.len() as int) =~= "?"@);
    }
}

/// Only where none of the eight asks is the text that of the nearest row with anything in it.
pub proof fn law_a_row_that_asks_nothing_is_second_best(before: Seq<Seq<char>>, k: int)
    requires
        0 <= k < before.len(),
        before.len() - 8 <= k,
        forall|j: int|
            before.len() - 8 <= j < before.len() && 0 <= j ==> !reads_as_question(
                #[trigger] before[j],
            ),
        undecorated(before[k]).len() > 0,
        forall|j: int| k < j < before.len() ==> undecorated(#[trigger] before[j]).len() == 0,
    ensures
        text_above(before) == Some(said_in(before[k])),
{
    let p = asked();
    assert forall|j: int| before.len() - 8 <= j < before.len() && 0 <= j implies !p(
        #[trigger] before[j],
    ) by {
        assert(!reads_as_question(before[j]));
    }
    lemma_nearest_none(before, 8, p);
    let q = filled();
    assert(q(before[k]));
    assert forall|j: int| k < j < before.len() implies !q(#[trigger] before[j]) by {
        assert(undecorated(before[j]).len() == 0);
    }
    lemma_nearest_at(before, 8, q, k);
}

/// Whatever text is found stands in one of the eight rows, and asks if any of them does.
pub proof fn law_the_text_is_one_of_eight_rows(before: Seq<Seq<char>>)
    ensures
        text_above(before) matches Some(t) ==> exists|k: int|
            0 <= k < before.len() && before.len() - 8 <= k && t == said_in(#[trigger] before[k])
                && ((exists|j: int|
                0 <= j < before.len() && before.len() - 8 <= j && reads_as_question(
                    #[trigger] before[j],
                )) ==> reads_as_question(before[k])),
{
    if text_above(before) is Some {
        if exists|j: int|
            0 <= j < before.len() && before.len() - 8 <= j && reads_as_question(
                #[trigger] before[j],
            ) {
            let j = choose|j: int|
                0 <= j < before.len() && before.len() - 8 <= j && reads_as_question(
                    #[trigger] before[j],
                );
            let k = lemma_lowest(before, j);
            law_the_lowest_row_that_asks_is_the_question(before, k);
        } else {
            let p = asked();
            assert forall|j: int| before.len() - 8 <= j < before.len() && 0 <= j implies !p(
                #[trigger] before[j],
            ) by {
                assert(!reads_as_question(before[j]));
            }
            lemma_nearest_none(before, 8, p);
            let k = lemma_nearest_where(before, 8, filled());
            assert(said_in(before[k]) == text_above(before)->Some_0);
        }
    }
}

proof fn lemma_lowest(rows: Seq<Seq<char>>, j: int) -> (k: int)
    requires
        0 <= j < rows.len(),
        reads_as_question(rows[j]),
    ensures
        j <= k < rows.len(),
        reads_as_question(rows[k]),
        forall|i: int| k < i < rows.len() ==> !reads_as_question(#[trigger] rows[i]),
    decreases rows.len() - j,
{
    if exists|i: int| j < i < rows.len() && reads_as_question(#[trigger] rows[i]) {
        let i = choose|i: int| j < i < rows.len() && reads_as_question(#[trigger] rows[i]);
        lemma_lowest(rows, i)
    } else {
        j
    }
}

proof fn lemma_nearest_where(
    rows: Seq<Seq<char>>,
    n: nat,
    p: spec_fn(Seq<char>) -> bool,
) -> (k: int)
    requires
        nearest(rows, n, p) is Some,
    ensures
        0 <= k < rows.len(),
        rows.len() - n <= k,
        nearest(rows, n, p) == Some(rows[k]),
        p(rows[k]),
    decreases n,
{
    if p(rows.last()) {
        rows.len() - 1
    } else {
        let k = lemma_nearest_where(rows.drop_last(), (n - 1) as nat, p);
        assert(rows.drop_last()[k] == rows[k]);
        k
    }
}

// -- the options -------------------------------------------------------------

proof fn lemma_menu(rows: Seq<Seq<char>>, start: int, end: int)
    requires
        0 <= start < end <= rows.len(),
        forall|i: int| start <= i < end ==> is_option(#[trigger] rows[i]),
        start > 0 ==> !is_option(rows[start - 1]),
        forall|i: int| end <= i < rows.len() ==> !is_option(#[trigger] rows[i]),
    ensures
        options_end(rows) == end,
        run_start(rows, end) == start,
{
    assert(is_option(rows[end - 1]));
    lemma_menu_end(rows, end);
    lemma_menu_start(rows, start, end);
}

proof fn lemma_menu_end(rows: Seq<Seq<char>>, k: int)
    requires
        0 < k <= rows.len(),
        is_option(rows[k - 1]),
        forall|i: int| k <= i < rows.len() ==> !is_option(#[trigger] rows[i]),
    ensures
        options_end(rows) == k,
    decreases rows.len(),
{
    if k < rows.len() {
        let t = rows.drop_last();
        assert(!is_option(rows[rows.len() - 1]));
        assert forall|i: int| k <= i < t.len() implies !is_option(#[trigger] t[i]) by {
            assert(t[i] == rows[i]);
        }
        lemma_menu_end(t, k);
    }
}

proof fn lemma_menu_start(rows: Seq<Seq<char>>, start: int, end: int)
    requires
        0 <= start <= end <= rows.len(),
        forall|i: int| start <= i < end ==> is_option(#[trigger] rows[i]),
        start > 0 ==> !is_option(rows[start - 1]),
    ensures
        run_start(rows, end) == start,
    decreases end - start,
{
    if start < end {
        assert(is_option(rows[end - 1]));
        lemma_menu_start(rows, start, end - 1);
    }
}

/// A question has the options of the lowest run of them, in their order, nine at most; and the text
/// of the lowest row above them that asks.
pub proof fn law_a_menu_is_its_rows(rows: Seq<Seq<char>>, start: int, end: int, k: int)
    requires
        0 <= k < start,
        start + 2 <= end <= rows.len(),
        start - 8 <= k,
        forall|i: int| start <= i < end ==> is_option(#[trigger] rows[i]),
        !is_option(rows[start - 1]),
        forall|i: int| end <= i < rows.len() ==> !is_option(#[trigger] rows[i]),
        reads_as_question(rows[k]),
        forall|j: int| k < j < start ==> !reads_as_question(#[trigger] rows[j]),
    ensures
        ({
            let q = question_in(rows)->Some_0;
            &&& question_in(rows) is Some
            &&& q.text == said_in(rows[k])
            &&& end - start <= 9 ==> q.options.len() == end - start
            &&& end - start > 9 ==> q.options.len() == 9
            &&& forall|i: int|
                0 <= i < q.options.len() ==> option_in(rows[start + i]) == Some(
                    #[trigger] q.options[i],
                )
        }),
{
    lemma_menu(rows, start, end);
    let above = rows.take(start);
    assert(above[k] == rows[k]);
    assert forall|j: int| k < j < above.len() implies !reads_as_question(#[trigger] above[j]) by {
        assert(above[j] == rows[j]);
    }
    law_the_lowest_row_that_asks_is_the_question(above, k);
    let q = question_in(rows)->Some_0;
    assert forall|i: int| 0 <= i < q.options.len() implies option_in(rows[start + i]) == Some(
        #[trigger] q.options[i],
    ) by {
        assert(is_option(rows[start + i]));
    }
}

/// Options with nothing above them ask nothing.
pub proof fn law_options_alone_ask_nothing(rows: Seq<Seq<char>>, end: int)
    requires
        0 < end <= rows.len(),
        forall|i: int| 0 <= i < end ==> is_option(#[trigger] rows[i]),
        forall|i: int| end <= i < rows.len() ==> !is_option(#[trigger] rows[i]),
    ensures
        question_in(rows) is None,
{
    lemma_menu(rows, 0, end);
    assert(rows.take(0) =~= Seq::<Seq<char>>::empty());
}

/// A character that frames nothing and is no space.
pub open spec fn is_inner(c: char) -> bool {
    !is_space(c) && !FRAME@.contains(c)
}

proof fn lemma_undecorated(s: Seq<char>)
    requires
        s.len() > 0,
        is_inner(s[0]),
        is_inner(s.last()),
    ensures
        undecorated(s) == s,
{
    lemma_skip_while(s, white(), 0);
    assert(s.subrange(0, s.len() as int) =~= s);
    lemma_drop_while(s, white(), s.len() as int);
    let p = class(FRAME@, true);
    lemma_skip_while(s, p, 0);
    lemma_drop_while(s, p, s.len() as int);
}

proof fn lemma_trimmed(s: Seq<char>)
    requires
        s.len() > 0,
        !is_space(s[0]),
        !is_space(s.last()),
    ensures
        trimmed(s) == s,
        trimmed_start(s) == s,
{
    lemma_skip_while(s, white(), 0);
    assert(s.subrange(0, s.len() as int) =~= s);
    lemma_drop_while(s, white(), s.len() as int);
}

proof fn lemma_behind_a_space(s: Seq<char>)
    requires
        s.len() > 0,
        !is_space(s[0]),
        !is_space(s.last()),
    ensures
        trimmed(seq![' '] + s) == s,
{
    let t = seq![' '] + s;
    lemma_skip_while(t, white(), 1);
    assert(t.subrange(1, t.len() as int) =~= s);
    lemma_drop_while(s, white(), s.len() as int);
    assert(s.subrange(0, s.len() as int) =~= s);
}

/// What frames a prompt and what marks a choice.
proof fn lemma_digit_is_inner(d: char)
    requires
        is_digit(d),
    ensures
        is_inner(d),
        !MARKS@.contains(d),
        d != '.' && d != ')',
{
    reveal_strlit("│┃║▌▐|╭╮╰╯─━═");
    reveal_strlit("❯>›»*");
    let f = FRAME@;
    if f.contains(d) {
        let i = choose|i: int| 0 <= i < f.len() && f[i] == d;
        assert(f[0] == '│' && f[1] == '┃' && f[2] == '║' && f[3] == '▌' && f[4] == '▐' && f[5]
            == '|' && f[6] == '╭' && f[7] == '╮' && f[8] == '╰' && f[9] == '╯' && f[10] == '─'
            && f[11] == '━' && f[12] == '═');
    }
    let m = MARKS@;
    if m.contains(d) {
        let i = choose|i: int| 0 <= i < m.len() && m[i] == d;
        assert(m[0] == '❯' && m[1] == '>' && m[2] == '›' && m[3] == '»' && m[4] == '*');
    }
}

/// A digit, a dot or a bracket, and a label make an option: the digit is its key, and the label is
/// kept as far as sixty characters.
pub proof fn law_a_number_and_a_label_make_an_option(d: char, sep: char, label: Seq<char>)
    requires
        is_digit(d),
        sep == '.' || sep == ')',
        label.len() > 0,
        is_inner(label[0]),
        is_inner(label.last()),
    ensures
        option_in(seq![d, sep, ' '] + label) == Some(
            ChoiceView {
                key: seq![d],
                label: if label.len() <= 60 {
                    label
                } else {
                    label.take(60)
                },
            },
        ),
{
    reveal_strlit(".)");
    let s = seq![d, sep, ' '] + label;
    lemma_digit_is_inner(d);
    assert(s[0] == d && s.last() == label.last());
    lemma_undecorated(s);
    let p = class(MARKS@, false);
    lemma_skip_while(s, p, 0);
    assert(s.subrange(0, s.len() as int) =~= s);
    lemma_trimmed(s);
    let set = ".)"@;
    assert(set[0] == '.' && set[1] == ')');
    assert(set.len() == 2);
    assert(set.contains(sep)) by {
        if sep == '.' {
            assert(set[0] == sep);
        } else {
            assert(set[1] == sep);
        }
    }
    assert forall|i: int| 0 <= i < 1 implies !set.contains(#[trigger] s[i]) by {
        if set.contains(s[i]) {
            let k = choose|k: int| 0 <= k < set.len() && set[k] == s[i];
        }
    }
    assert(s[1] == sep);
    lemma_first_of_is(s, set, 1);
    assert(s.take(1) =~= seq![d]);
    assert(s.skip(2) =~= seq![' '] + label);
    lemma_trimmed(seq![d]);
    lemma_behind_a_space(label);
}

/// The mark of the selected option makes no difference to it.
pub proof fn law_the_mark_is_not_part_of_the_option(d: char, sep: char, label: Seq<char>)
    requires
        is_digit(d),
        sep == '.' || sep == ')',
        label.len() > 0,
        is_inner(label[0]),
        is_inner(label.last()),
    ensures
        option_in(seq!['❯', ' '] + (seq![d, sep, ' '] + label)) == option_in(
            seq![d, sep, ' '] + label,
        ),
{
    let s = seq![d, sep, ' '] + label;
    let t = seq!['❯', ' '] + s;
    lemma_digit_is_inner(d);
    assert(s[0] == d && s.last() == label.last());
    assert(t[0] == '❯' && t.last() == label.last());
    assert(is_inner('❯')) by {
        reveal_strlit("│┃║▌▐|╭╮╰╯─━═");
        let f = FRAME@;
        if f.contains('❯') {
            let i = choose|i: int| 0 <= i < f.len() && f[i] == '❯';
            assert(f[0] == '│' && f[1] == '┃' && f[2] == '║' && f[3] == '▌' && f[4] == '▐'
                && f[5] == '|' && f[6] == '╭' && f[7] == '╮' && f[8] == '╰' && f[9] == '╯'
                && f[10] == '─' && f[11] == '━' && f[12] == '═');
        }
    }
    lemma_undecorated(t);
    lemma_undecorated(s);
    let p = class(MARKS@, false);
    assert(MARKS@.contains('❯') && !MARKS@.contains(' ')) by {
        reveal_strlit("❯>›»*");
        let m = MARKS@;
        assert(m[0] == '❯');
        if m.contains(' ') {
            let i = choose|i: int| 0 <= i < m.len() && m[i] == ' ';
            assert(m[1] == '>' && m[2] == '›' && m[3] == '»' && m[4] == '*');
        }
    }
    assert(t[1] == ' ');
    lemma_skip_while(t, p, 1);
    let u = t.subrange(1, t.len() as int);
    assert(u =~= seq![' '] + s);
    lemma_skip_while(u, white(), 1);
    assert(u.subrange(1, u.len() as int) =~= s);
    lemma_skip_while(s, p, 0);
    assert(s.subrange(0, s.len() as int) =~= s);
    lemma_trimmed(s);
}

/// An option has one digit for a key.
pub proof fn law_an_option_has_a_digit_for_a_key(line: Seq<char>)
    ensures
        option_in(line) matches Some(c) ==> c.key.len() == 1 && '0' <= c.key[0] && c.key[0] <= '9'
            && 1 <= c.label.len() <= 60,
{
}

// -- yes or no ---------------------------------------------------------------

/// Where there are no options, the lowest row of eight with a yes-or-no mark is a question with two
/// answers, `y` and `n`.
pub proof fn law_a_yes_or_no_prompt_has_two_answers(rows: Seq<Seq<char>>, k: int)
    requires
        0 <= k < rows.len(),
        rows.len() - 8 <= k,
        forall|i: int| 0 <= i < rows.len() ==> !is_option(#[trigger] rows[i]),
        undecorated(rows[k]).len() > 0,
        ({
            let low = lowercase(undecorated(rows[k]));
            occurs(low, "(y/n)"@) || occurs(low, "[y/n]"@) || occurs(low, "(y)es"@) || occurs(
                low,
                "y/n?"@,
            )
        }),
        forall|j: int| k < j < rows.len() ==> !yes_no_row()(#[trigger] rows[j]),
    ensures
        ({
            let q = question_in(rows)->Some_0;
            &&& question_in(rows) is Some
            &&& q.text == said_in(rows[k])
            &&& q.options.len() == 2
            &&& q.options[0].key == "y"@ && q.options[0].label == "yes"@
            &&& q.options[1].key == "n"@ && q.options[1].label == "no"@
        }),
{
    lemma_no_options(rows);
    assert(yes_no_row()(rows[k]));
    lemma_nearest_at(rows, 8, yes_no_row(), k);
}

proof fn lemma_no_options(rows: Seq<Seq<char>>)
    requires
        forall|i: int| 0 <= i < rows.len() ==> !is_option(#[trigger] rows[i]),
    ensures
        options_end(rows) == 0,
    decreases rows.len(),
{
    if rows.len() > 0 {
        let t = rows.drop_last();
        assert(!is_option(rows[rows.len() - 1]));
        assert forall|i: int| 0 <= i < t.len() implies !is_option(#[trigger] t[i]) by {
            assert(t[i] == rows[i]);
        }
        lemma_no_options(t);
    }
}

/// What is no option and has no mark is no question.
pub proof fn law_plain_rows_ask_nothing(rows: Seq<Seq<char>>)
    requires
        forall|i: int| 0 <= i < rows.len() ==> !is_option(#[trigger] rows[i]),
        forall|i: int|
            0 <= i < rows.len() ==> !occurs(lowercase(undecorated(#[trigger] rows[i])), "(y/n)"@)
                && !occurs(lowercase(undecorated(rows[i])), "[y/n]"@) && !occurs(
                lowercase(undecorated(rows[i])),
                "(y)es"@,
            ) && !occurs(lowercase(undecorated(rows[i])), "y/n?"@),
    ensures
        question_in(rows) is None,
{
    lemma_no_options(rows);
    assert forall|j: int| rows.len() - 8 <= j < rows.len() && 0 <= j implies !yes_no_row()(
        #[trigger] rows[j],
    ) by {}
    lemma_nearest_none(rows, 8, yes_no_row());
}

// -- the screen --------------------------------------------------------------

/// Of a screen only the last thirty lines count.
pub proof fn law_only_the_last_thirty_lines_count(older: Seq<Seq<char>>, newer: Seq<Seq<char>>)
    requires
        newer.len() == 30,
    ensures
        tail_of(older + newer) == newer,
        forall|lines: Seq<Seq<char>>| lines.len() <= 30 ==> #[trigger] tail_of(lines) == lines,
{
    let all = older + newer;
    assert(all.skip(all.len() - 30) =~= newer);
}

/// Its rows are what is left of each line without its frame, those with nothing left out, from top
/// to bottom.
pub proof fn law_rows_are_lines_without_frames(lines: Seq<Seq<char>>, line: Seq<char>)
    ensures
        undecorated(line).len() > 0 ==> rows_of(lines.push(line)) == rows_of(lines).push(
            undecorated(line),
        ),
        undecorated(line).len() == 0 ==> rows_of(lines.push(line)) == rows_of(lines),
        rows_of(Seq::empty()).len() == 0,
{
    assert(lines.push(line).drop_last() =~= lines);
}

} // verus!
