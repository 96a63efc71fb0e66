//! What becomes of text: trimmed, split, joined, replaced and counted.

use crate::text::{
    ascii_lower, begins, chars_before, decimal, digit, ends, first_chars, is_digit, is_space,
    joined, law_decimal_reads_back, lemma_drop_while_at, lemma_first_of_is, lemma_skip_while_at,
    lines_of, number_in, number_within, occurs, occurs_at, pieces, replaced_all, split_once,
    squashed, text_before, trimmed, trimmed_end, trimmed_start, two_places, value_of, white, width,
    without_cr, word_end, words_from, words_of, is_ascii_letter,
};
use vstd::prelude::*;

verus! {

/// What is a blank: the space, what moves the cursor, and no letter, digit or mark.
pub proof fn law_what_is_a_blank(c: char)
    ensures
        is_space(' ') && is_space('\t') && is_space('\n') && is_space('\r'),
        '!' <= c && c <= '~' ==> !is_space(c),
{
}

/// A text is its blanks before, itself trimmed, and its blanks behind; what is left neither begins
/// nor ends in one.
pub proof fn law_only_blanks_are_trimmed(s: Seq<char>) -> (at: (int, int))
    ensures
        0 <= at.0 <= at.1 <= s.len(),
        trimmed(s) == s.subrange(at.0, at.1),
        forall|i: int| 0 <= i < at.0 ==> is_space(#[trigger] s[i]),
        forall|i: int| at.1 <= i < s.len() ==> is_space(#[trigger] s[i]),
        trimmed(s).len() > 0 ==> !is_space(trimmed(s)[0]) && !is_space(trimmed(s).last()),
{
    let a = lemma_skip_while_at(s, white());
    let t = s.subrange(a, s.len() as int);
    let b = lemma_drop_while_at(t, white());
    assert(t.subrange(0, b) =~= s.subrange(a, a + b));
    assert forall|i: int| 0 <= i < a implies is_space(#[trigger] s[i]) by {
        assert(white()(s[i]));
    }
    assert forall|i: int| a + b <= i < s.len() implies is_space(#[trigger] s[i]) by {
        assert(t[i - a] == s[i]);
        assert(white()(t[i - a]));
    }
    if b > 0 {
        assert(t[b - 1] == s[a + b - 1]);
        assert(!white()(t[b - 1]));
        assert(s[a] == trimmed(s)[0]);
        assert(!white()(s[a]));
    }
    (a, a + b)
}

/// Trimming one end leaves the other.
pub proof fn law_trimming_one_end_leaves_the_other(s: Seq<char>, c: char)
    ensures
        is_space(c) ==> trimmed_start(seq![c] + s) == trimmed_start(s),
        is_space(c) ==> trimmed_end(s.push(c)) == trimmed_end(s),
        !is_space(c) ==> trimmed_start(seq![c] + s) == seq![c] + s,
        !is_space(c) ==> trimmed_end(s.push(c)) == s.push(c),
{
    let t = seq![c] + s;
    assert(t.drop_first() =~= s);
    assert(t[0] == c);
    assert(s.push(c).drop_last() =~= s);
    assert(white()(c) == is_space(c));
}

/// A text that was put together of two begins with the one and ends with the other, and holds what
/// was put in the middle; what begins so is what it begins with and the rest.
pub proof fn law_a_text_begins_and_ends_with_its_parts(a: Seq<char>, p: Seq<char>, b: Seq<char>)
    ensures
        begins(a + b, a),
        ends(a + b, b),
        occurs(a + p + b, p),
        begins(b, a) ==> b == a + b.skip(a.len() as int),
        ends(a, b) ==> a == a.take(a.len() - b.len()) + b,
{
    assert((a + b).subrange(0, a.len() as int) =~= a);
    assert((a + b).subrange(a.len() as int, (a + b).len() as int) =~= b);
    let s = a + p + b;
    assert(s.subrange(a.len() as int, a.len() as int + p.len() as int) =~= p);
    assert(occurs_at(s, p, a.len() as int));
    if begins(b, a) {
        assert(a + b.skip(a.len() as int) =~= b);
    }
    if ends(a, b) {
        assert(a.take(a.len() - b.len()) + b =~= a);
    }
}

/// What occurs in a text stands there between two parts of it.
pub proof fn law_what_occurs_stands_there(s: Seq<char>, p: Seq<char>, i: int)
    requires
        occurs_at(s, p, i),
    ensures
        s == s.take(i) + p + s.skip(i + p.len()),
{
    assert(s.take(i) + p + s.skip(i + p.len()) =~= s);
}

/// The first characters of a text are at most so many.
pub proof fn law_the_first_characters(s: Seq<char>, n: int)
    requires
        n >= 0,
    ensures
        first_chars(s, n).len() <= n,
        s.len() <= n ==> first_chars(s, n) == s,
        s.len() > n ==> first_chars(s, n).len() == n,
        begins(s, first_chars(s, n)),
{
    assert(s.subrange(0, first_chars(s, n).len() as int) =~= first_chars(s, n));
}

/// A text is split at the first mark: what is before it, and what is behind.
pub proof fn law_a_text_is_split_at_the_first_mark(
    a: Seq<char>,
    c: char,
    b: Seq<char>,
    set: Seq<char>,
)
    requires
        set.contains(c),
        forall|i: int| 0 <= i < a.len() ==> !set.contains(#[trigger] a[i]),
    ensures
        split_once(a + seq![c] + b, set) == Some((a, b)),
        split_once(a, set) is None,
        pieces(a + seq![c] + b, set) == seq![a] + pieces(b, set),
        pieces(a, set) == seq![a],
{
    let s = a + seq![c] + b;
    let k = a.len() as int;
    assert(s[k] == c);
    assert forall|i: int| 0 <= i < k implies !set.contains(#[trigger] s[i]) by {
        assert(s[i] == a[i]);
    }
    lemma_first_of_is(s, set, k);
    lemma_first_of_is(a, set, k);
    assert(s.take(k) =~= a);
    assert(s.skip(k + 1) =~= b);
}

/// The first line of a text is what stands before its end, without a carriage return; the others
/// are the lines of the rest. What is left without an end is a line, where there is anything.
pub proof fn law_a_text_is_its_lines(a: Seq<char>, b: Seq<char>)
    requires
        forall|i: int| 0 <= i < a.len() ==> #[trigger] a[i] != '\n',
    ensures
        lines_of(a + seq!['\n'] + b) == seq![without_cr(a)] + lines_of(b),
        a.len() > 0 ==> lines_of(a) == seq![a],
        lines_of(Seq::empty()).len() == 0,
        a.len() > 0 && a.last() == '\r' ==> without_cr(a) == a.drop_last(),
        a.len() == 0 || a.last() != '\r' ==> without_cr(a) == a,
{
    let set = seq!['\n'];
    assert(set[0] == '\n');
    assert forall|i: int| 0 <= i < a.len() implies !set.contains(#[trigger] a[i]) by {
        assert(a[i] != '\n');
    }
    assert(set.contains('\n'));
    law_a_text_is_split_at_the_first_mark(a, '\n', b, set);
    let e = Seq::<char>::empty();
    assert forall|i: int| 0 <= i < e.len() implies !set.contains(#[trigger] e[i]) by {}
    law_a_text_is_split_at_the_first_mark(e, '\n', b, set);
    let s = a + seq!['\n'] + b;
    let rest = pieces(b, set);
    lemma_pieces_len(b, set);
    assert(pieces(s, set) =~= seq![a] + rest);
    assert(pieces(s, set).last() == rest.last());
    assert(lines_of(s) =~= seq![without_cr(a)] + lines_of(b));
    if a.len() > 0 {
        assert(lines_of(a) =~= seq![a]);
    }
}

proof fn lemma_pieces_len(s: Seq<char>, set: Seq<char>)
    ensures
        pieces(s, set).len() > 0,
{
}

/// Parts are joined in order, with the same between each two and nothing at the ends.
pub proof fn law_parts_are_joined_in_order(
    parts: Seq<Seq<char>>,
    sep: Seq<char>,
    x: Seq<char>,
)
    ensures
        joined(Seq::empty(), sep).len() == 0,
        joined(seq![x], sep) == x,
        parts.len() > 0 ==> joined(parts.push(x), sep) == joined(parts, sep) + sep + x,
{
    assert(parts.push(x).drop_last() =~= parts);
}

proof fn lemma_word_end(s: Seq<char>, i: int, k: int)
    requires
        0 <= i <= k <= s.len(),
        forall|j: int| i <= j < k ==> !is_space(#[trigger] s[j]),
        k < s.len() ==> is_space(s[k]),
    ensures
        word_end(s, i) == k,
    decreases k - i,
{
    if i < k {
        assert(!is_space(s[i]));
        lemma_word_end(s, i + 1, k);
    }
}

proof fn lemma_words_shift(a: Seq<char>, b: Seq<char>, i: int)
    requires
        0 <= i <= b.len(),
    ensures
        words_from(a + b, a.len() + i) == words_from(b, i),
    decreases b.len() - i,
{
    let s = a + b;
    if i < b.len() {
        assert(s[a.len() + i] == b[i]);
        if is_space(b[i]) {
            lemma_words_shift(a, b, i + 1);
        } else {
            lemma_word_end_at(b, i);
            let k = word_end(b, i);
            assert forall|j: int| a.len() + i <= j < a.len() + k implies !is_space(
                #[trigger] s[j],
            ) by {
                assert(s[j] == b[j - a.len()]);
            }
            if k < b.len() {
                assert(s[a.len() + k] == b[k]);
            }
            lemma_word_end(s, a.len() + i, a.len() + k);
            assert(s.subrange(a.len() + i, a.len() + k) =~= b.subrange(i, k));
            lemma_words_shift(a, b, k);
        }
    }
}

proof fn lemma_word_end_at(s: Seq<char>, i: int)
    requires
        0 <= i <= s.len(),
    ensures
        i <= word_end(s, i) <= s.len(),
        forall|j: int| i <= j < word_end(s, i) ==> !is_space(#[trigger] s[j]),
        word_end(s, i) < s.len() ==> is_space(s[word_end(s, i)]),
        i < s.len() && !is_space(s[i]) ==> word_end(s, i) > i,
    decreases s.len() - i,
{
    if i < s.len() && !is_space(s[i]) {
        lemma_word_end_at(s, i + 1);
    }
}

/// A word, a blank and the rest are that word and the words of the rest; a blank before changes
/// nothing.
pub proof fn law_a_text_is_its_words(w: Seq<char>, c: char, rest: Seq<char>)
    requires
        is_space(c),
        w.len() > 0,
        forall|i: int| 0 <= i < w.len() ==> !is_space(#[trigger] w[i]),
    ensures
        words_of(w + seq![c] + rest) == seq![w] + words_of(rest),
        words_of(seq![c] + rest) == words_of(rest),
        words_of(w) == seq![w],
        words_of(Seq::empty()).len() == 0,
{
    let s = w + seq![c] + rest;
    let k = w.len() as int;
    assert forall|j: int| 0 <= j < k implies !is_space(#[trigger] s[j]) by {
        assert(s[j] == w[j]);
    }
    assert(s[k] == c);
    lemma_word_end(s, 0, k);
    lemma_word_end(w, 0, k);
    assert(s.subrange(0, k) =~= w);
    assert(w.subrange(0, k) =~= w);
    let head = w + seq![c];
    assert(s =~= head + rest);
    lemma_words_shift(head, rest, 0);
    assert(words_from(s, k) == words_from(s, k + 1));
    assert(words_of(s) =~= seq![w] + words_of(rest));
    lemma_words_shift(seq![c], rest, 0);
    assert((seq![c] + rest)[0] == c);
    assert(words_from(w, k).len() == 0);
    assert(words_of(w) =~= seq![w]);
}

/// A text without its blanks is the same whatever blanks stand in it.
pub proof fn law_blanks_are_squashed(s: Seq<char>, c: char)
    ensures
        is_space(c) ==> squashed(s.push(c)) == squashed(s),
        !is_space(c) ==> squashed(s.push(c)) == squashed(s).push(c),
        squashed(Seq::empty()).len() == 0,
{
    assert(s.push(c).drop_last() =~= s);
}

/// What is to be replaced is, wherever it stands, from the left; everything else stays.
pub proof fn law_what_is_replaced_is_replaced_everywhere(
    p: Seq<char>,
    by: Seq<char>,
    s: Seq<char>,
    c: char,
)
    requires
        p.len() > 0,
    ensures
        replaced_all(p + s, p, by) == by + replaced_all(s, p, by),
        !begins(seq![c] + s, p) ==> replaced_all(seq![c] + s, p, by) == seq![c] + replaced_all(
            s,
            p,
            by,
        ),
        replaced_all(Seq::empty(), p, by).len() == 0,
{
    let t = p + s;
    assert(t.subrange(0, p.len() as int) =~= p);
    assert(t.skip(p.len() as int) =~= s);
    let u = seq![c] + s;
    assert(u.skip(1) =~= s);
    assert(u[0] == c);
}

/// Digits stand for their numbers, in their order, each place ten times the next.
pub proof fn law_digits_stand_for_numbers(n: nat, d: nat)
    requires
        d < 10,
    ensures
        digit(0) == '0',
        digit(9) == '9',
        is_digit(digit(d as int)),
        decimal(d) == seq![digit(d as int)],
        n > 0 ==> decimal(n * 10 + d) == decimal(n).push(digit(d as int)),
        value_of(seq!['7']) == 7,
        n < 10 ==> two_places(n) == seq!['0', digit(n as int)],
        n >= 10 ==> two_places(n) == decimal(n),
{
    if n > 0 {
        assert((n * 10 + d) / 10 == n);
        assert((n * 10 + d) % 10 == d);
    }
    let s = seq!['7'];
    assert(s.drop_last() =~= Seq::<char>::empty());
    assert(value_of(s.drop_last()) == 0);
    assert(s.last() == '7');
    if n < 10 {
        assert(two_places(n) =~= seq!['0', digit(n as int)]);
    }
}

/// A number reads as what it is written as, with a plus or without, where it is not too large.
pub proof fn law_a_number_reads_as_it_is_written(n: nat, max: nat)
    ensures
        number_in(decimal(n)) == Some(n),
        number_in(seq!['+'] + decimal(n)) == Some(n),
        n <= max ==> number_within(decimal(n), max) == Some(n),
        n > max ==> number_within(decimal(n), max) is None,
{
    law_decimal_reads_back(n);
    let s = decimal(n);
    assert(is_digit(s[0]));
    let t = seq!['+'] + s;
    assert(t[0] == '+');
    assert(t.skip(1) =~= s);
}

/// Nothing else reads as a number.
pub proof fn law_only_digits_are_a_number(s: Seq<char>, i: int)
    requires
        s.len() == 0 || (0 <= i < s.len() && !is_digit(s[i]) && !(i == 0 && s[0] == '+')),
    ensures
        number_in(s) is None,
{
    if s.len() > 0 {
        if s[0] == '+' {
            assert(s.skip(1)[i - 1] == s[i]);
        }
    }
}

/// Letters are lowered one by one, and nothing else is.
pub proof fn law_letters_are_lowered(s: Seq<char>, i: int)
    requires
        0 <= i < s.len(),
    ensures
        ascii_lower(s).len() == s.len(),
        s[i] == 'A' ==> ascii_lower(s)[i] == 'a',
        s[i] == 'M' ==> ascii_lower(s)[i] == 'm',
        s[i] == 'Z' ==> ascii_lower(s)[i] == 'z',
        !('A' <= s[i] && s[i] <= 'Z') ==> ascii_lower(s)[i] == s[i],
        'A' <= s[i] && s[i] <= 'Z' ==> ascii_lower(s)[i] as int == s[i] as int + 32,
{
}

/// One text comes before another where it is the beginning of it, or is less where they first
/// differ.
pub proof fn law_which_text_comes_first(a: Seq<char>, x: Seq<char>, y: Seq<char>)
    ensures
        x.len() > 0 ==> text_before(a, a + x),
        !text_before(a, a),
        x.len() > 0 && y.len() > 0 && x[0] < y[0] ==> text_before(a + x, a + y) && !text_before(
            a + y,
            a + x,
        ),
    decreases a.len(),
{
    if a.len() > 0 {
        let t = a.drop_first();
        law_which_text_comes_first(t, x, y);
        assert((a + x).drop_first() =~= t + x);
        assert((a + y).drop_first() =~= t + y);
        assert((a + x)[0] == a[0]);
        assert((a + y)[0] == a[0]);
    } else {
        assert(a + x =~= x);
        assert(a + y =~= y);
    }
}

/// A character takes one to four bytes.
pub proof fn law_a_character_takes_one_to_four_bytes(c: char)
    ensures
        c as u32 <= 0x7f ==> width(c) == 1,
        0x80 <= c as u32 <= 0x7ff ==> width(c) == 2,
        0x800 <= c as u32 <= 0xffff ==> width(c) == 3,
        0x1_0000 <= c as u32 ==> width(c) == 4,
{
}

/// As many characters begin before a byte as begin before the bytes of the rest, and one.
pub proof fn law_characters_before_a_byte(c: char, s: Seq<char>, b: int)
    ensures
        b > 0 ==> chars_before(seq![c] + s, b) == 1 + chars_before(s, b - width(c)),
        b <= 0 ==> chars_before(seq![c] + s, b) == 0,
{
    assert((seq![c] + s).drop_first() =~= s);
}

/// What is a letter.
pub proof fn law_what_is_a_letter(c: char)
    ensures
        'a' <= c && c <= 'z' ==> is_ascii_letter(c),
        'A' <= c && c <= 'Z' ==> is_ascii_letter(c),
        is_ascii_letter(c) ==> !is_digit(c) && !is_space(c) && c != '-' && c != '_' && c != '.',
{
}

} // verus!
