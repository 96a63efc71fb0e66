//! Text, as sequences of characters.
//!
//! Everything this library decides about a line of text is stated over `Seq<char>`. The spec
//! functions here say what trimming, splitting and searching mean; the executable functions
//! beside them compute exactly that.

use crate::seqs::{first_where, lemma_first_where, lemma_first_where_is};
use vstd::prelude::*;
use vstd::string::*;

verus! {

/// `String::push` of std: the character is added at the end.
pub assume_specification[ String::push ](s: &mut String, c: char)
    ensures
        final(s)@ == old(s)@.push(c),
;

/// What `str::to_lowercase` of std returns for the given text.
pub uninterp spec fn lowercase(s: Seq<char>) -> Seq<char>;

/// `str::to_lowercase` of std. The mapping is Unicode's and is only named here; on text that is
/// all ASCII it is the familiar one, letter by letter.
#[verifier::external_body]
pub(crate) fn to_lower(s: &str) -> (r: String)
    ensures
        r@ == lowercase(s@),
        is_ascii_chars(s@) ==> r@ == ascii_lower(s@),
{
    s.to_lowercase()
}

/// Whether every character is below U+0080.
pub open spec fn is_ascii_chars(s: Seq<char>) -> bool {
    forall|i: int| 0 <= i < s.len() ==> (#[trigger] s[i] as u32) < 128
}

/// One ASCII letter, lowered.
pub open spec fn ascii_lower_char(c: char) -> char {
    if 'A' <= c && c <= 'Z' {
        ((c as u8) + 32) as u8 as char
    } else {
        c
    }
}

/// ASCII letters lowered, everything else as it is.
pub open spec fn ascii_lower(s: Seq<char>) -> Seq<char> {
    Seq::new(s.len(), |i: int| ascii_lower_char(s[i]))
}

/// Unicode's `White_Space` property.
pub open spec fn is_space(c: char) -> bool {
    let n = c as u32;
    ||| 0x9 <= n <= 0xd
    ||| n == 0x20
    ||| n == 0x85
    ||| n == 0xa0
    ||| n == 0x1680
    ||| 0x2000 <= n <= 0x200a
    ||| n == 0x2028
    ||| n == 0x2029
    ||| n == 0x202f
    ||| n == 0x205f
    ||| n == 0x3000
}

/// Whether a character is whitespace.
pub fn is_space_char(c: char) -> (r: bool)
    ensures
        r == is_space(c),
{
    let n: u32 = c as u32;
    (0x9 <= n && n <= 0xd) || n == 0x20 || n == 0x85 || n == 0xa0 || n == 0x1680
        || (0x2000 <= n && n <= 0x200a) || n == 0x2028 || n == 0x2029 || n == 0x202f
        || n == 0x205f || n == 0x3000
}

/// Whether a character is an ASCII digit.
pub open spec fn is_digit(c: char) -> bool {
    '0' <= c && c <= '9'
}

/// The texts of a list of strings.
pub open spec fn texts(v: Seq<String>) -> Seq<Seq<char>> {
    Seq::new(v.len(), |i: int| v[i]@)
}

/// The text of an optional string.
pub open spec fn opt_text(o: Option<String>) -> Option<Seq<char>> {
    match o {
        Some(s) => Some(s@),
        None => None,
    }
}

/// The text of an optional borrowed string.
pub open spec fn opt_str(o: Option<&str>) -> Option<Seq<char>> {
    match o {
        Some(s) => Some(s@),
        None => None,
    }
}

/// The characters of a string, as a vector.
pub fn chars_of(s: &str) -> (r: Vec<char>)
    ensures
        r@ == s@,
{
    let mut out: Vec<char> = Vec::new();
    for c in it: s.chars()
        invariant
            it.seq() == s@,
            out@ == s@.take(it.index()),
    {
        proof {
            s@.lemma_take_succ_push(it.index());
        }
        out.push(c);
    }
    proof {
        assert(s@.take(s@.len() as int) =~= s@);
    }
    out
}

/// A string made of part of a vector of characters.
pub fn string_of(cs: &Vec<char>, from: usize, to: usize) -> (r: String)
    requires
        from <= to <= cs@.len(),
    ensures
        r@ == cs@.subrange(from as int, to as int),
{
    let mut out = String::new();
    let mut i: usize = from;
    while i < to
        invariant
            from <= i <= to <= cs@.len(),
            out@ == cs@.subrange(from as int, i as int),
        decreases to - i,
    {
        out.push(cs[i]);
        i = i + 1;
        proof {
            assert(cs@.subrange(from as int, i as int) =~= cs@.subrange(
                from as int,
                i as int - 1,
            ).push(cs@[i as int - 1]));
        }
    }
    out
}

/// A string of its own from a borrowed one.
pub fn owned(s: &str) -> (r: String)
    ensures
        r@ == s@,
{
    s.to_owned()
}

/// Whether two texts are the same.
pub fn same(a: &str, b: &str) -> (r: bool)
    ensures
        r == (a@ == b@),
{
    let x = a.to_owned();
    let y = b.to_owned();
    x == y
}

/// Whether two optional texts are the same.
pub fn same_opt(a: Option<&str>, b: Option<&str>) -> (r: bool)
    ensures
        r == (opt_str(a) == opt_str(b)),
{
    match (a, b) {
        (Some(x), Some(y)) => same(x, y),
        (None, None) => true,
        _ => false,
    }
}

/// A borrowed view of an optional string.
pub fn as_opt(o: &Option<String>) -> (r: Option<&str>)
    ensures
        opt_str(r) == opt_text(*o),
{
    match o {
        Some(s) => Some(s.as_str()),
        None => None,
    }
}

/// An owned copy of an optional text.
pub fn own_opt(o: Option<&str>) -> (r: Option<String>)
    ensures
        opt_text(r) == opt_str(o),
{
    match o {
        Some(s) => Some(s.to_owned()),
        None => None,
    }
}

/// A copy of a list of strings.
pub fn copy_texts(v: &Vec<String>) -> (r: Vec<String>)
    ensures
        r@ == v@,
{
    let mut out: Vec<String> = Vec::new();
    let mut i: usize = 0;
    while i < v.len()
        invariant
            i <= v@.len(),
            out@ == v@.take(i as int),
        decreases v@.len() - i,
    {
        out.push(v[i].clone());
        proof {
            v@.lemma_take_succ_push(i as int);
        }
        i = i + 1;
    }
    proof {
        assert(v@.take(v@.len() as int) =~= v@);
    }
    out
}

// -- trimming ----------------------------------------------------------------

/// The characters of `set`, and whitespace too where `spaces` says so.
pub open spec fn class(set: Seq<char>, spaces: bool) -> spec_fn(char) -> bool {
    |c: char| set.contains(c) || (spaces && is_space(c))
}

/// Whitespace alone.
pub open spec fn white() -> spec_fn(char) -> bool {
    class(Seq::empty(), true)
}

/// What is left once the leading characters that `p` accepts are gone.
pub open spec fn skip_while(s: Seq<char>, p: spec_fn(char) -> bool) -> Seq<char>
    decreases s.len(),
{
    if s.len() > 0 && p(s[0]) {
        skip_while(s.drop_first(), p)
    } else {
        s
    }
}

/// What is left once the trailing characters that `p` accepts are gone.
pub open spec fn drop_while(s: Seq<char>, p: spec_fn(char) -> bool) -> Seq<char>
    decreases s.len(),
{
    if s.len() > 0 && p(s.last()) {
        drop_while(s.drop_last(), p)
    } else {
        s
    }
}

/// Both ends trimmed.
pub open spec fn trim_by(s: Seq<char>, p: spec_fn(char) -> bool) -> Seq<char> {
    drop_while(skip_while(s, p), p)
}

/// Whitespace trimmed from both ends.
pub open spec fn trimmed(s: Seq<char>) -> Seq<char> {
    trim_by(s, white())
}

/// Leading whitespace trimmed.
pub open spec fn trimmed_start(s: Seq<char>) -> Seq<char> {
    skip_while(s, white())
}

/// Trailing whitespace trimmed.
pub open spec fn trimmed_end(s: Seq<char>) -> Seq<char> {
    drop_while(s, white())
}

/// Skipping stops at the first character that is not accepted.
pub proof fn lemma_skip_while(s: Seq<char>, p: spec_fn(char) -> bool, k: int)
    requires
        0 <= k <= s.len(),
        forall|i: int| 0 <= i < k ==> p(#[trigger] s[i]),
        k < s.len() ==> !p(s[k]),
    ensures
        skip_while(s, p) == s.subrange(k, s.len() as int),
    decreases k,
{
    if k == 0 {
        assert(s.subrange(0, s.len() as int) =~= s);
    } else {
        let t = s.drop_first();
        assert forall|i: int| 0 <= i < k - 1 implies p(#[trigger] t[i]) by {
            assert(t[i] == s[i + 1]);
        }
        if k < s.len() {
            assert(t[k - 1] == s[k]);
        }
        lemma_skip_while(t, p, k - 1);
        assert(t.subrange(k - 1, t.len() as int) =~= s.subrange(k, s.len() as int));
        assert(p(s[0]));
    }
}

/// Dropping stops at the last character that is not accepted.
pub proof fn lemma_drop_while(s: Seq<char>, p: spec_fn(char) -> bool, k: int)
    requires
        0 <= k <= s.len(),
        forall|i: int| k <= i < s.len() ==> p(#[trigger] s[i]),
        k > 0 ==> !p(s[k - 1]),
    ensures
        drop_while(s, p) == s.subrange(0, k),
    decreases s.len() - k,
{
    if k == s.len() {
        assert(s.subrange(0, k) =~= s);
    } else {
        let t = s.drop_last();
        assert forall|i: int| k <= i < t.len() implies p(#[trigger] t[i]) by {
            assert(t[i] == s[i]);
        }
        if k > 0 {
            assert(t[k - 1] == s[k - 1]);
        }
        lemma_drop_while(t, p, k);
        assert(t.subrange(0, k) =~= s.subrange(0, k));
        assert(p(s[s.len() - 1]));
    }
}

/// Where in `s` the skipping stops.
pub proof fn lemma_skip_while_at(s: Seq<char>, p: spec_fn(char) -> bool) -> (k: int)
    ensures
        0 <= k <= s.len(),
        forall|i: int| 0 <= i < k ==> p(#[trigger] s[i]),
        k < s.len() ==> !p(s[k]),
        skip_while(s, p) == s.subrange(k, s.len() as int),
    decreases s.len(),
{
    if s.len() > 0 && p(s[0]) {
        let t = s.drop_first();
        let j = lemma_skip_while_at(t, p);
        assert forall|i: int| 0 <= i < j + 1 implies p(#[trigger] s[i]) by {
            if i > 0 {
                assert(t[i - 1] == s[i]);
            }
        }
        if j + 1 < s.len() {
            assert(t[j] == s[j + 1]);
        }
        lemma_skip_while(s, p, j + 1);
        j + 1
    } else {
        lemma_skip_while(s, p, 0);
        0
    }
}

/// Where in `s` the dropping stops.
pub proof fn lemma_drop_while_at(s: Seq<char>, p: spec_fn(char) -> bool) -> (k: int)
    ensures
        0 <= k <= s.len(),
        forall|i: int| k <= i < s.len() ==> p(#[trigger] s[i]),
        k > 0 ==> !p(s[k - 1]),
        drop_while(s, p) == s.subrange(0, k),
    decreases s.len(),
{
    if s.len() > 0 && p(s.last()) {
        let t = s.drop_last();
        let j = lemma_drop_while_at(t, p);
        assert forall|i: int| j <= i < s.len() implies p(#[trigger] s[i]) by {
            if i < t.len() {
                assert(t[i] == s[i]);
            }
        }
        if j > 0 {
            assert(t[j - 1] == s[j - 1]);
        }
        lemma_drop_while(s, p, j);
        j
    } else {
        lemma_drop_while(s, p, s.len() as int);
        s.len() as int
    }
}

/// Whether a character is in `set`, or is whitespace where `spaces` asks for that.
fn in_class(c: char, set: &Vec<char>, spaces: bool) -> (r: bool)
    ensures
        r == class(set@, spaces)(c),
{
    if spaces && is_space_char(c) {
        return true;
    }
    let mut i: usize = 0;
    while i < set.len()
        invariant
            i <= set@.len(),
            forall|j: int| 0 <= j < i ==> set@[j] != c,
        decreases set@.len() - i,
    {
        if set[i] == c {
            return true;
        }
        i = i + 1;
    }
    false
}

/// Leading characters of `set` (and whitespace, where `spaces`) trimmed.
pub fn trim_start_in(s: &str, set: &str, spaces: bool) -> (r: String)
    ensures
        r@ == skip_while(s@, class(set@, spaces)),
{
    let cs = chars_of(s);
    let st = chars_of(set);
    let mut k: usize = 0;
    while k < cs.len() && in_class(cs[k], &st, spaces)
        invariant
            cs@ == s@,
            st@ == set@,
            k <= cs@.len(),
            forall|i: int| 0 <= i < k ==> class(set@, spaces)(#[trigger] cs@[i]),
        decreases cs@.len() - k,
    {
        k = k + 1;
    }
    proof {
        lemma_skip_while(s@, class(set@, spaces), k as int);
    }
    string_of(&cs, k, cs.len())
}

/// Trailing characters of `set` (and whitespace, where `spaces`) trimmed.
pub fn trim_end_in(s: &str, set: &str, spaces: bool) -> (r: String)
    ensures
        r@ == drop_while(s@, class(set@, spaces)),
{
    let cs = chars_of(s);
    let st = chars_of(set);
    let mut k: usize = cs.len();
    while k > 0 && in_class(cs[k - 1], &st, spaces)
        invariant
            cs@ == s@,
            st@ == set@,
            k <= cs@.len(),
            forall|i: int| k <= i < cs@.len() ==> class(set@, spaces)(#[trigger] cs@[i]),
        decreases k,
    {
        k = k - 1;
    }
    proof {
        lemma_drop_while(s@, class(set@, spaces), k as int);
    }
    string_of(&cs, 0, k)
}

/// Both ends trimmed of the characters of `set` (and of whitespace, where `spaces`).
pub fn trim_in(s: &str, set: &str, spaces: bool) -> (r: String)
    ensures
        r@ == trim_by(s@, class(set@, spaces)),
{
    let t = trim_start_in(s, set, spaces);
    trim_end_in(t.as_str(), set, spaces)
}

/// Both ends trimmed of whitespace.
pub fn trim(s: &str) -> (r: String)
    ensures
        r@ == trimmed(s@),
{
    proof {
        reveal_strlit("");
        assert(""@ =~= Seq::<char>::empty());
    }
    trim_in(s, "", true)
}

/// The start trimmed of whitespace.
pub fn trim_start(s: &str) -> (r: String)
    ensures
        r@ == trimmed_start(s@),
{
    proof {
        reveal_strlit("");
        assert(""@ =~= Seq::<char>::empty());
    }
    trim_start_in(s, "", true)
}

/// The end trimmed of whitespace.
pub fn trim_end(s: &str) -> (r: String)
    ensures
        r@ == trimmed_end(s@),
{
    proof {
        reveal_strlit("");
        assert(""@ =~= Seq::<char>::empty());
    }
    trim_end_in(s, "", true)
}

// -- searching ---------------------------------------------------------------

/// Whether `p` stands in `s` at position `i`.
pub open spec fn occurs_at(s: Seq<char>, p: Seq<char>, i: int) -> bool {
    0 <= i && i + p.len() <= s.len() && s.subrange(i, i + p.len()) == p
}

/// Whether `p` stands anywhere in `s`.
pub open spec fn occurs(s: Seq<char>, p: Seq<char>) -> bool {
    exists|i: int| occurs_at(s, p, i)
}

/// Whether `s` begins with `p`.
pub open spec fn begins(s: Seq<char>, p: Seq<char>) -> bool {
    p.len() <= s.len() && s.subrange(0, p.len() as int) == p
}

/// Whether `s` ends with `p`.
pub open spec fn ends(s: Seq<char>, p: Seq<char>) -> bool {
    p.len() <= s.len() && s.subrange(s.len() - p.len(), s.len() as int) == p
}

/// Whether `p` stands in `s` at `at`.
pub fn matches_at(s: &Vec<char>, p: &Vec<char>, at: usize) -> (r: bool)
    ensures
        r == occurs_at(s@, p@, at as int),
{
    if p.len() > s.len() || at > s.len() - p.len() {
        return false;
    }
    let n: usize = s.len();
    let mut j: usize = 0;
    while j < p.len()
        invariant
            j <= p@.len(),
            n == s@.len(),
            at + p@.len() <= n,
            s@.subrange(at as int, at + j) == p@.take(j as int),
        decreases p@.len() - j,
    {
        if s[at + j] != p[j] {
            proof {
                if s@.subrange(at as int, at + p@.len()) == p@ {
                    assert(s@.subrange(at as int, at + p@.len())[j as int] == p@[j as int]);
                }
            }
            return false;
        }
        proof {
            p@.lemma_take_succ_push(j as int);
            assert(s@.subrange(at as int, at + j + 1) =~= s@.subrange(at as int, at + j).push(
                s@[at + j],
            ));
        }
        j = j + 1;
    }
    proof {
        assert(p@.take(p@.len() as int) =~= p@);
    }
    true
}

/// The first place at or after `from` where `p` stands in `s`.
pub fn find_from(s: &Vec<char>, p: &Vec<char>, from: usize) -> (r: Option<usize>)
    ensures
        match r {
            Some(i) => from <= i && occurs_at(s@, p@, i as int) && forall|j: int|
                from <= j < i ==> !occurs_at(s@, p@, j),
            None => forall|j: int| from <= j ==> !occurs_at(s@, p@, j),
        },
{
    if p.len() > s.len() {
        return None;
    }
    let last: usize = s.len() - p.len();
    let mut i: usize = from;
    while i <= last
        invariant
            from <= i,
            last == s@.len() - p@.len(),
            last < usize::MAX || p@.len() == 0,
            forall|j: int| from <= j < i ==> !occurs_at(s@, p@, j),
        decreases last + 1 - i,
    {
        if matches_at(s, p, i) {
            return Some(i);
        }
        if i == last {
            return None;
        }
        i = i + 1;
    }
    None
}

/// Whether `p` stands anywhere in `s`.
pub fn contains(s: &str, p: &str) -> (r: bool)
    ensures
        r == occurs(s@, p@),
{
    let a = chars_of(s);
    let b = chars_of(p);
    find_from(&a, &b, 0).is_some()
}

/// Whether `s` begins with `p`.
pub fn starts_with(s: &str, p: &str) -> (r: bool)
    ensures
        r == begins(s@, p@),
{
    let a = chars_of(s);
    let b = chars_of(p);
    matches_at(&a, &b, 0)
}

/// Whether `s` ends with `p`.
pub fn ends_with(s: &str, p: &str) -> (r: bool)
    ensures
        r == ends(s@, p@),
{
    let a = chars_of(s);
    let b = chars_of(p);
    if b.len() > a.len() {
        return false;
    }
    matches_at(&a, &b, a.len() - b.len())
}

/// What follows `p`, where `s` begins with it.
pub fn strip_prefix(s: &str, p: &str) -> (r: Option<String>)
    ensures
        r.is_some() == begins(s@, p@),
        r matches Some(t) ==> t@ == s@.skip(p@.len() as int),
{
    let a = chars_of(s);
    let b = chars_of(p);
    if matches_at(&a, &b, 0) {
        Some(string_of(&a, b.len(), a.len()))
    } else {
        None
    }
}

/// What precedes `p`, where `s` ends with it.
pub fn strip_suffix(s: &str, p: &str) -> (r: Option<String>)
    ensures
        r.is_some() == ends(s@, p@),
        r matches Some(t) ==> t@ == s@.take(s@.len() - p@.len()),
{
    if ends_with(s, p) {
        let a = chars_of(s);
        let b = chars_of(p);
        Some(string_of(&a, 0, a.len() - b.len()))
    } else {
        None
    }
}

/// The first `n` characters, or all of them where there are fewer.
pub open spec fn first_chars(s: Seq<char>, n: int) -> Seq<char> {
    if s.len() <= n {
        s
    } else {
        s.take(n)
    }
}

/// The first `n` characters, or all of them where there are fewer.
pub fn take_chars(s: &str, n: usize) -> (r: String)
    ensures
        r@ == first_chars(s@, n as int),
{
    let a = chars_of(s);
    proof {
        assert(s@.subrange(0, s@.len() as int) =~= s@);
    }
    if a.len() <= n {
        string_of(&a, 0, a.len())
    } else {
        string_of(&a, 0, n)
    }
}

// -- splitting and joining ---------------------------------------------------

/// The first position in `s` of a character of `set`, or the length of `s`.
pub open spec fn first_of(s: Seq<char>, set: Seq<char>) -> int
    decreases s.len(),
{
    if s.len() == 0 || set.contains(s[0]) {
        0
    } else {
        1 + first_of(s.drop_first(), set)
    }
}

/// `first_of` is the position before which no character of `set` stands.
pub proof fn lemma_first_of(s: Seq<char>, set: Seq<char>)
    ensures
        0 <= first_of(s, set) <= s.len(),
        forall|i: int| 0 <= i < first_of(s, set) ==> !set.contains(#[trigger] s[i]),
        first_of(s, set) < s.len() ==> set.contains(s[first_of(s, set)]),
    decreases s.len(),
{
    if s.len() != 0 && !set.contains(s[0]) {
        let t = s.drop_first();
        lemma_first_of(t, set);
        assert forall|i: int| 0 <= i < first_of(s, set) implies !set.contains(#[trigger] s[i]) by {
            if i > 0 {
                assert(t[i - 1] == s[i]);
            }
        }
    }
}

/// A position with nothing of `set` before it, and something of `set` at it, is the first.
pub proof fn lemma_first_of_is(s: Seq<char>, set: Seq<char>, k: int)
    requires
        0 <= k <= s.len(),
        forall|i: int| 0 <= i < k ==> !set.contains(#[trigger] s[i]),
        k < s.len() ==> set.contains(s[k]),
    ensures
        first_of(s, set) == k,
{
    lemma_first_of(s, set);
    let f = first_of(s, set);
    if f < k {
        assert(set.contains(s[f]));
    }
    if k < f {
        assert(!set.contains(s[k]));
    }
}

/// The first position at or after `from` of a character of `set`, or the length.
pub fn find_any(cs: &Vec<char>, set: &Vec<char>, from: usize) -> (r: usize)
    requires
        from <= cs@.len(),
    ensures
        from <= r <= cs@.len(),
        r == from + first_of(cs@.skip(from as int), set@),
{
    let mut k: usize = from;
    while k < cs.len() && !in_class(cs[k], set, false)
        invariant
            from <= k <= cs@.len(),
            forall|i: int| from <= i < k ==> !set@.contains(#[trigger] cs@[i]),
        decreases cs@.len() - k,
    {
        k = k + 1;
    }
    proof {
        let t = cs@.skip(from as int);
        assert forall|i: int| 0 <= i < k - from implies !set@.contains(#[trigger] t[i]) by {
            assert(t[i] == cs@[i + from]);
        }
        lemma_first_of_is(t, set@, k - from);
    }
    k
}

/// What stands before and after the first character of `set` in `s`, if there is one.
pub open spec fn split_once(s: Seq<char>, set: Seq<char>) -> Option<(Seq<char>, Seq<char>)> {
    let k = first_of(s, set);
    if k < s.len() {
        Some((s.take(k), s.skip(k + 1)))
    } else {
        None
    }
}

/// What stands before and after the first character of `set` in `s`, if there is one.
pub fn split_once_any(s: &str, set: &str) -> (r: Option<(String, String)>)
    ensures
        r.is_some() == split_once(s@, set@).is_some(),
        r matches Some((a, b)) ==> split_once(s@, set@) == Some((a@, b@)),
{
    let cs = chars_of(s);
    let st = chars_of(set);
    let k: usize = find_any(&cs, &st, 0);
    proof {
        assert(s@.skip(0) =~= s@);
    }
    if k < cs.len() {
        let a = string_of(&cs, 0, k);
        let b = string_of(&cs, k + 1, cs.len());
        Some((a, b))
    } else {
        None
    }
}

/// The pieces of `s` between characters of `set`: always one more than there are such
/// characters.
pub open spec fn pieces(s: Seq<char>, set: Seq<char>) -> Seq<Seq<char>>
    decreases s.len(),
{
    let k = first_of(s, set);
    if 0 <= k < s.len() {
        seq![s.take(k)] + pieces(s.skip(k + 1), set)
    } else {
        seq![s]
    }
}

/// The pieces of `s` between characters of `set`.
pub fn split_any(s: &str, set: &str) -> (r: Vec<String>)
    ensures
        texts(r@) == pieces(s@, set@),
        r@.len() > 0,
{
    let cs = chars_of(s);
    let st = chars_of(set);
    let mut out: Vec<String> = Vec::new();
    let mut at: usize = 0;
    proof {
        assert(s@.skip(0) =~= s@);
        assert(texts(out@) + pieces(s@, set@) =~= pieces(s@, set@));
    }
    loop
        invariant
            cs@ == s@,
            st@ == set@,
            at <= cs@.len(),
            texts(out@) + pieces(s@.skip(at as int), set@) == pieces(s@, set@),
        decreases cs@.len() - at,
    {
        let k: usize = find_any(&cs, &st, at);
        let piece = string_of(&cs, at, k);
        let ghost rest = s@.skip(at as int);
        let ghost before = out@;
        proof {
            assert(piece@ =~= rest.take(k - at));
        }
        out.push(piece);
        proof {
            assert(texts(out@) =~= texts(before).push(piece@));
        }
        if k == cs.len() {
            proof {
                assert(rest.take(k - at) =~= rest);
                assert(texts(out@) =~= texts(before) + seq![rest]);
            }
            return out;
        }
        proof {
            assert(rest.skip(k - at + 1) =~= s@.skip(k + 1));
            assert(texts(before) + (seq![rest.take(k - at)] + pieces(s@.skip(k + 1), set@))
                =~= texts(out@) + pieces(s@.skip(k + 1), set@));
        }
        at = k + 1;
    }
}

/// A line without the carriage return that stood before its line feed.
pub open spec fn without_cr(s: Seq<char>) -> Seq<char> {
    if s.len() > 0 && s.last() == '\r' {
        s.drop_last()
    } else {
        s
    }
}

/// The lines of a text: each ends in a line feed, or a carriage return and a line feed, and a
/// last one without either is a line where there is anything in it.
pub open spec fn lines_of(s: Seq<char>) -> Seq<Seq<char>> {
    let ps = pieces(s, seq!['\n']);
    let ended = Seq::new((ps.len() - 1) as nat, |i: int| without_cr(ps[i]));
    if ps.last().len() == 0 {
        ended
    } else {
        ended.push(ps.last())
    }
}

/// The lines of a text.
pub fn lines(s: &str) -> (r: Vec<String>)
    ensures
        texts(r@) == lines_of(s@),
{
    proof {
        reveal_strlit("\n");
        assert("\n"@ =~= seq!['\n']);
    }
    let ps = split_any(s, "\n");
    let ghost spec_ps = pieces(s@, seq!['\n']);
    let mut out: Vec<String> = Vec::new();
    let mut i: usize = 0;
    while i < ps.len() - 1
        invariant
            ps@.len() > 0,
            i <= ps@.len() - 1,
            texts(ps@) == spec_ps,
            out@.len() == i,
            forall|j: int| 0 <= j < i ==> (#[trigger] out@[j])@ == without_cr(spec_ps[j]),
        decreases ps@.len() - i,
    {
        let cs = chars_of(ps[i].as_str());
        proof {
            assert(spec_ps[i as int] == ps@[i as int]@);
        }
        let n: usize = cs.len();
        if n > 0 && cs[n - 1] == '\r' {
            out.push(string_of(&cs, 0, n - 1));
            proof {
                assert(out@[i as int]@ =~= without_cr(spec_ps[i as int]));
            }
        } else {
            out.push(ps[i].clone());
        }
        i = i + 1;
    }
    let last = ps[i].clone();
    proof {
        assert(spec_ps.last() == ps@.last()@);
    }
    if !last.as_str().is_empty() {
        out.push(last);
    }
    proof {
        assert(texts(out@) =~= lines_of(s@));
    }
    out
}

/// The parts in order, with `sep` between each two.
pub open spec fn joined(parts: Seq<Seq<char>>, sep: Seq<char>) -> Seq<char>
    decreases parts.len(),
{
    if parts.len() == 0 {
        Seq::empty()
    } else if parts.len() == 1 {
        parts[0]
    } else {
        joined(parts.drop_last(), sep) + sep + parts.last()
    }
}

/// The parts in order, with `sep` between each two.
pub fn join(parts: &Vec<String>, sep: &str) -> (r: String)
    ensures
        r@ == joined(texts(parts@), sep@),
{
    let mut out = String::new();
    let mut i: usize = 0;
    while i < parts.len()
        invariant
            i <= parts@.len(),
            out@ == joined(texts(parts@).take(i as int), sep@),
        decreases parts@.len() - i,
    {
        let ghost before = texts(parts@).take(i as int);
        let ghost after = texts(parts@).take(i as int + 1);
        proof {
            assert(after.drop_last() =~= before);
            assert(after.last() == parts@[i as int]@);
        }
        if i > 0 {
            out.append(sep);
        } else {
            proof {
                assert(out@ + parts@[0]@ =~= parts@[0]@);
            }
        }
        out.append(parts[i].as_str());
        i = i + 1;
    }
    proof {
        assert(texts(parts@).take(parts@.len() as int) =~= texts(parts@));
    }
    out
}

/// Where the first whitespace at or after `i` is, or the length.
pub open spec fn word_end(s: Seq<char>, i: int) -> int
    decreases s.len() - i,
{
    if 0 <= i < s.len() && !is_space(s[i]) {
        word_end(s, i + 1)
    } else {
        i
    }
}

/// The words of a text from position `i` on: the runs of anything but whitespace.
pub open spec fn words_from(s: Seq<char>, i: int) -> Seq<Seq<char>>
    decreases s.len() - i,
    via words_from_decreases
{
    if i < 0 || i >= s.len() {
        Seq::empty()
    } else if is_space(s[i]) {
        words_from(s, i + 1)
    } else {
        seq![s.subrange(i, word_end(s, i))] + words_from(s, word_end(s, i))
    }
}

#[via_fn]
proof fn words_from_decreases(s: Seq<char>, i: int) {
    if !(i < 0 || i >= s.len()) && !is_space(s[i]) {
        lemma_word_end(s, i + 1);
    }
}

proof fn lemma_word_end(s: Seq<char>, i: int)
    requires
        0 <= i <= s.len(),
    ensures
        i <= word_end(s, i) <= s.len(),
    decreases s.len() - i,
{
    if i < s.len() && !is_space(s[i]) {
        lemma_word_end(s, i + 1);
    }
}

/// The words of a text.
pub open spec fn words_of(s: Seq<char>) -> Seq<Seq<char>> {
    words_from(s, 0)
}

/// The words of a text.
pub fn words(s: &str) -> (r: Vec<String>)
    ensures
        texts(r@) == words_of(s@),
{
    let cs = chars_of(s);
    let n: usize = cs.len();
    let mut out: Vec<String> = Vec::new();
    let mut i: usize = 0;
    proof {
        assert(texts(out@) + words_from(cs@, 0) =~= words_from(cs@, 0));
    }
    while i < n
        invariant
            n == cs@.len(),
            cs@ == s@,
            i <= n,
            texts(out@) + words_from(cs@, i as int) == words_of(cs@),
        decreases n - i,
    {
        if is_space_char(cs[i]) {
            i = i + 1;
        } else {
            let mut j: usize = i + 1;
            while j < n && !is_space_char(cs[j])
                invariant
                    n == cs@.len(),
                    i < j <= n,
                    word_end(cs@, i as int) == word_end(cs@, j as int),
                decreases n - j,
            {
                j = j + 1;
            }
            proof {
                assert(word_end(cs@, i as int) == j);
            }
            let ghost had = texts(out@);
            let ghost rest = words_from(cs@, j as int);
            out.push(string_of(&cs, i, j));
            proof {
                assert(texts(out@) =~= had.push(cs@.subrange(i as int, j as int)));
                assert(had + (seq![cs@.subrange(i as int, j as int)] + rest) =~= texts(out@)
                    + rest);
            }
            i = j;
        }
    }
    proof {
        assert(texts(out@) + words_from(cs@, i as int) =~= texts(out@));
    }
    out
}

/// A text without its whitespace.
pub open spec fn squashed(s: Seq<char>) -> Seq<char>
    decreases s.len(),
{
    if s.len() == 0 {
        s
    } else if is_space(s.last()) {
        squashed(s.drop_last())
    } else {
        squashed(s.drop_last()).push(s.last())
    }
}

/// A text without its whitespace.
pub fn squash(s: &str) -> (r: String)
    ensures
        r@ == squashed(s@),
{
    let cs = chars_of(s);
    let mut out = String::new();
    let mut i: usize = 0;
    proof {
        assert(out@ =~= squashed(cs@.take(0)));
    }
    while i < cs.len()
        invariant
            i <= cs@.len(),
            out@ == squashed(cs@.take(i as int)),
        decreases cs@.len() - i,
    {
        proof {
            assert(cs@.take(i as int + 1).drop_last() =~= cs@.take(i as int));
            assert(cs@.take(i as int + 1).last() == cs@[i as int]);
        }
        if !is_space_char(cs[i]) {
            out.push(cs[i]);
        }
        i = i + 1;
    }
    proof {
        assert(cs@.take(cs@.len() as int) =~= cs@);
    }
    out
}

/// A text with every occurrence of `p` as `by`, from the left.
pub open spec fn replaced_all(s: Seq<char>, p: Seq<char>, by: Seq<char>) -> Seq<char>
    decreases s.len(),
{
    if s.len() == 0 || p.len() == 0 {
        s
    } else if begins(s, p) {
        by + replaced_all(s.skip(p.len() as int), p, by)
    } else {
        seq![s[0]] + replaced_all(s.skip(1), p, by)
    }
}

/// A text with every occurrence of `p` as `by`, from the left.
pub fn replace(s: &str, p: &str, by: &str) -> (r: String)
    requires
        p@.len() > 0,
    ensures
        r@ == replaced_all(s@, p@, by@),
{
    let cs = chars_of(s);
    let ps = chars_of(p);
    let n: usize = cs.len();
    let mut out = String::new();
    let mut i: usize = 0;
    proof {
        assert(cs@.skip(0) =~= cs@);
        assert(out@ + replaced_all(cs@, p@, by@) =~= replaced_all(cs@, p@, by@));
    }
    while i < n
        invariant
            n == cs@.len(),
            ps@ == p@,
            p@.len() > 0,
            i <= n,
            out@ + replaced_all(cs@.skip(i as int), p@, by@) == replaced_all(cs@, p@, by@),
        decreases n - i,
    {
        let ghost rest = cs@.skip(i as int);
        let ghost before = out@;
        if matches_at(&cs, &ps, i) {
            proof {
                assert(rest.subrange(0, p@.len() as int) =~= cs@.subrange(
                    i as int,
                    i + p@.len(),
                ));
                assert(rest.skip(p@.len() as int) =~= cs@.skip(i + p@.len()));
            }
            out.append(by);
            proof {
                let tail = replaced_all(rest.skip(p@.len() as int), p@, by@);
                assert(before + (by@ + tail) =~= out@ + tail);
            }
            i = i + ps.len();
        } else {
            proof {
                assert(!begins(rest, p@)) by {
                    if begins(rest, p@) {
                        assert(rest.subrange(0, p@.len() as int) =~= cs@.subrange(
                            i as int,
                            i + p@.len(),
                        ));
                    }
                }
                assert(rest[0] == cs@[i as int]);
                assert(rest.skip(1) =~= cs@.skip(i as int + 1));
            }
            out.push(cs[i]);
            proof {
                let tail = replaced_all(rest.skip(1), p@, by@);
                assert(before + (seq![rest[0]] + tail) =~= out@ + tail);
            }
            i = i + 1;
        }
    }
    proof {
        assert(cs@.skip(i as int).len() == 0);
        assert(out@ + replaced_all(cs@.skip(i as int), p@, by@) =~= out@);
    }
    out
}

// -- numbers -----------------------------------------------------------------

/// The digit for a number below ten.
pub open spec fn digit(d: int) -> char {
    (48 + d) as u8 as char
}

/// A number in decimal, without leading zeros.
pub open spec fn decimal(n: nat) -> Seq<char>
    decreases n,
{
    if n < 10 {
        seq![digit(n as int)]
    } else {
        decimal(n / 10).push(digit((n % 10) as int))
    }
}

/// A number in decimal, without leading zeros.
pub fn number(n: u64) -> (r: String)
    ensures
        r@ == decimal(n as nat),
    decreases n,
{
    let d: u8 = (n % 10) as u8;
    let c: char = (48 + d) as char;
    if n < 10 {
        let mut out = String::new();
        out.push(c);
        proof {
            assert(out@ =~= seq![digit(n as int)]);
        }
        out
    } else {
        let mut out = number(n / 10);
        out.push(c);
        out
    }
}

/// A number in decimal, on at least two places.
pub open spec fn two_places(n: nat) -> Seq<char> {
    if n < 10 {
        seq!['0'] + decimal(n)
    } else {
        decimal(n)
    }
}

/// A number in decimal, on at least two places.
pub fn padded(n: u64) -> (r: String)
    ensures
        r@ == two_places(n as nat),
{
    let d = number(n);
    if n < 10 {
        let mut out = String::new();
        out.push('0');
        out.append(d.as_str());
        proof {
            assert(out@ =~= seq!['0'] + decimal(n as nat));
        }
        out
    } else {
        d
    }
}

/// Whether every character is an ASCII digit.
pub open spec fn all_digits(s: Seq<char>) -> bool {
    forall|i: int| 0 <= i < s.len() ==> is_digit(#[trigger] s[i])
}

/// The number that a run of digits writes.
pub open spec fn value_of(s: Seq<char>) -> nat
    decreases s.len(),
{
    if s.len() == 0 {
        0
    } else {
        value_of(s.drop_last()) * 10 + ((s.last() as u32 - 48) as nat)
    }
}

/// A number written in decimal reads back as itself.
pub proof fn law_decimal_reads_back(n: nat)
    ensures
        all_digits(decimal(n)),
        decimal(n).len() > 0,
        value_of(decimal(n)) == n,
    decreases n,
{
    if n < 10 {
        let s = seq![digit(n as int)];
        assert(s.drop_last() =~= Seq::<char>::empty());
        assert(value_of(s.drop_last()) == 0);
        assert(s.last() == digit(n as int));
    } else {
        law_decimal_reads_back(n / 10);
        let d = decimal(n / 10);
        let c = digit((n % 10) as int);
        assert(d.push(c).drop_last() =~= d);
        assert forall|i: int| 0 <= i < d.push(c).len() implies is_digit(#[trigger] d.push(c)[i]) by {
            if i < d.len() {
                assert(is_digit(d[i]));
            }
        }
    }
}

/// Two numbers that read the same are the same.
pub proof fn lemma_decimal_is_injective(a: nat, b: nat)
    requires
        decimal(a) == decimal(b),
    ensures
        a == b,
{
    law_decimal_reads_back(a);
    law_decimal_reads_back(b);
}

/// The number a text writes, if it is nothing but digits after at most one `+`.
pub open spec fn number_in(s: Seq<char>) -> Option<nat> {
    let t = if s.len() > 0 && s[0] == '+' {
        s.skip(1)
    } else {
        s
    };
    if t.len() > 0 && all_digits(t) {
        Some(value_of(t))
    } else {
        None
    }
}

/// The same, where the number fits.
pub open spec fn number_within(s: Seq<char>, max: nat) -> Option<nat> {
    match number_in(s) {
        Some(n) if n <= max => Some(n),
        _ => None,
    }
}

/// Dropping digits from the end never makes a number larger.
proof fn lemma_value_of_prefix(s: Seq<char>, k: int)
    requires
        0 <= k <= s.len(),
        all_digits(s),
    ensures
        value_of(s.take(k)) <= value_of(s),
    decreases s.len() - k,
{
    if k == s.len() {
        assert(s.take(k) =~= s);
    } else {
        lemma_value_of_prefix(s, k + 1);
        assert(s.take(k + 1).drop_last() =~= s.take(k));
        assert(is_digit(s[k]));
        assert(s.take(k + 1).last() == s[k]);
    }
}

/// The number a text writes, where it is one and does not exceed `max`.
pub fn parse_number(s: &str, max: u64) -> (r: Option<u64>)
    ensures
        match r {
            Some(n) => number_within(s@, max as nat) == Some(n as nat),
            None => number_within(s@, max as nat) is None,
        },
{
    let cs = chars_of(s);
    let from: usize = if cs.len() > 0 && cs[0] == '+' {
        1
    } else {
        0
    };
    let ghost t = s@.skip(from as int);
    proof {
        assert(s@.skip(0) =~= s@);
    }
    if from == cs.len() {
        return None;
    }
    let mut n: u64 = 0;
    let mut i: usize = from;
    proof {
        assert(t.take(0) =~= Seq::<char>::empty());
    }
    while i < cs.len()
        invariant
            cs@ == s@,
            from <= i <= cs@.len(),
            t == s@.skip(from as int),
            t.len() > 0,
            number_in(s@) == (if all_digits(t) { Some(value_of(t)) } else { None }),
            forall|j: int| 0 <= j < i - from ==> is_digit(#[trigger] t[j]),
            n == value_of(t.take(i - from)),
            n <= max,
        decreases cs@.len() - i,
    {
        let c = cs[i];
        let ghost k = i - from;
        proof {
            assert(t[k] == s@[i as int]);
            assert(t.take(k + 1).drop_last() =~= t.take(k));
            assert(t.take(k + 1).last() == t[k]);
        }
        if !('0' <= c && c <= '9') {
            proof {
                assert(!is_digit(t[k]));
            }
            return None;
        }
        let d: u64 = (c as u32 - 48) as u64;
        proof {
            assert(value_of(t.take(k + 1)) == n * 10 + d);
            if all_digits(t) {
                lemma_value_of_prefix(t, k + 1);
            }
        }
        if n > (u64::MAX - d) / 10 {
            return None;
        }
        n = n * 10 + d;
        if n > max {
            return None;
        }
        i = i + 1;
    }
    proof {
        assert(t.take(t.len() as int) =~= t);
    }
    Some(n)
}

// -- quoting -----------------------------------------------------------------

/// What `format!("{:?}")` of std writes for a text: in double quotes, with escapes.
pub uninterp spec fn quoted(s: Seq<char>) -> Seq<char>;

/// `Debug` of std for a text. Which characters are escaped, and how, is only named here.
#[verifier::external_body]
pub(crate) fn quote(s: &str) -> (r: String)
    ensures
        r@ == quoted(s@),
{
    format!("{:?}", s)
}

// -- order -------------------------------------------------------------------

/// Whether `a` comes before `b`, character by character.
pub open spec fn text_before(a: Seq<char>, b: Seq<char>) -> bool
    decreases a.len(),
{
    if b.len() == 0 {
        false
    } else if a.len() == 0 {
        true
    } else if a[0] == b[0] {
        text_before(a.drop_first(), b.drop_first())
    } else {
        a[0] < b[0]
    }
}

/// One of two different texts comes first, and only one.
pub proof fn lemma_text_order(a: Seq<char>, b: Seq<char>)
    ensures
        a != b ==> text_before(a, b) || text_before(b, a),
        !(text_before(a, b) && text_before(b, a)),
        !text_before(a, a),
    decreases a.len(),
{
    if a.len() == 0 {
        if b.len() == 0 {
            assert(a =~= b);
        }
    } else {
        lemma_text_order(a.drop_first(), a.drop_first());
        if b.len() > 0 && a[0] == b[0] {
            lemma_text_order(a.drop_first(), b.drop_first());
            if a.drop_first() == b.drop_first() {
                assert(a =~= seq![a[0]] + a.drop_first());
                assert(b =~= seq![b[0]] + b.drop_first());
            }
        }
    }
}

/// What comes before something comes before what follows it.
pub proof fn lemma_text_order_chain(a: Seq<char>, b: Seq<char>, c: Seq<char>)
    requires
        text_before(a, b),
        text_before(b, c),
    ensures
        text_before(a, c),
    decreases a.len(),
{
    if a.len() > 0 && b.len() > 0 && c.len() > 0 && a[0] == b[0] && b[0] == c[0] {
        lemma_text_order_chain(a.drop_first(), b.drop_first(), c.drop_first());
    }
}

/// Whether `a` comes before `b`, character by character.
pub fn comes_before(a: &str, b: &str) -> (r: bool)
    ensures
        r == text_before(a@, b@),
{
    let x = chars_of(a);
    let y = chars_of(b);
    let mut i: usize = 0;
    proof {
        assert(x@.skip(0) =~= x@);
        assert(y@.skip(0) =~= y@);
    }
    while i < x.len() && i < y.len() && x[i] == y[i]
        invariant
            i <= x@.len(),
            i <= y@.len(),
            text_before(x@, y@) == text_before(x@.skip(i as int), y@.skip(i as int)),
        decreases x@.len() - i,
    {
        proof {
            assert(x@.skip(i as int).drop_first() =~= x@.skip(i as int + 1));
            assert(y@.skip(i as int).drop_first() =~= y@.skip(i as int + 1));
        }
        i = i + 1;
    }
    if i >= y.len() {
        false
    } else if i >= x.len() {
        true
    } else {
        x[i] < y[i]
    }
}

/// In order, with nothing twice.
pub open spec fn in_text_order(s: Seq<Seq<char>>) -> bool {
    forall|i: int, j: int|
        0 <= i < j < s.len() ==> text_before(#[trigger] s[i], #[trigger] s[j])
}

/// A text put in its place in a list that is in order, unless it is there already.
pub open spec fn inserted(r: Seq<Seq<char>>, t: Seq<char>) -> Seq<Seq<char>> {
    let k = first_where(r, |x: Seq<char>| !text_before(x, t));
    if k < r.len() && r[k] == t {
        r
    } else {
        r.insert(k, t)
    }
}

/// What a list holds, each once and in order.
pub open spec fn ordered(s: Seq<Seq<char>>) -> Seq<Seq<char>>
    decreases s.len(),
{
    if s.len() == 0 {
        Seq::empty()
    } else {
        inserted(ordered(s.drop_last()), s.last())
    }
}

proof fn lemma_inserted(r: Seq<Seq<char>>, t: Seq<char>)
    requires
        in_text_order(r),
    ensures
        in_text_order(inserted(r, t)),
        forall|x: Seq<char>| #[trigger] inserted(r, t).contains(x) <==> (r.contains(x) || x == t),
{
    let p = |x: Seq<char>| !text_before(x, t);
    lemma_first_where(r, p);
    let k = first_where(r, p);
    let now = inserted(r, t);
    if k < r.len() && r[k] == t {
    } else {
        r.insert_ensures(k, t);
        if k < r.len() {
            assert(p(r[k]));
            lemma_text_order(r[k], t);
        }
        assert forall|a: int, b: int| 0 <= a < b < now.len() implies text_before(
            #[trigger] now[a],
            #[trigger] now[b],
        ) by {
            if b < k {
                assert(now[a] == r[a] && now[b] == r[b]);
            } else if b == k {
                assert(now[a] == r[a]);
                assert(!p(r[a]));
            } else if a < k {
                assert(now[a] == r[a] && now[b] == r[b - 1]);
            } else if a == k {
                assert(now[b] == r[b - 1]);
                if b - 1 > k {
                    lemma_text_order_chain(t, r[k], r[b - 1]);
                }
            } else {
                assert(now[a] == r[a - 1] && now[b] == r[b - 1]);
            }
        }
        assert forall|x: Seq<char>| #[trigger]
            now.contains(x) <==> (r.contains(x) || x == t) by {
            if r.contains(x) {
                let j = choose|j: int| 0 <= j < r.len() && r[j] == x;
                if j < k {
                    assert(now[j] == x);
                } else {
                    assert(now[j + 1] == x);
                }
            }
            if x == t {
                assert(now[k] == x);
            }
            if now.contains(x) && x != t {
                let j = choose|j: int| 0 <= j < now.len() && now[j] == x;
                if j < k {
                    assert(r[j] == x);
                } else {
                    assert(r[j - 1] == x);
                }
            }
        }
    }
}

/// Ordering a list loses nothing, adds nothing and leaves nothing twice.
pub proof fn law_ordered_holds_the_same(s: Seq<Seq<char>>)
    ensures
        in_text_order(ordered(s)),
        forall|x: Seq<char>| #[trigger] ordered(s).contains(x) <==> s.contains(x),
    decreases s.len(),
{
    if s.len() > 0 {
        let t = s.drop_last();
        law_ordered_holds_the_same(t);
        lemma_inserted(ordered(t), s.last());
        assert forall|x: Seq<char>| #[trigger]
            ordered(s).contains(x) <==> s.contains(x) by {
            if t.contains(x) {
                let j = choose|j: int| 0 <= j < t.len() && t[j] == x;
                assert(s[j] == x);
            }
            if x == s.last() {
                assert(s[s.len() - 1] == x);
            }
            if s.contains(x) && x != s.last() {
                let j = choose|j: int| 0 <= j < s.len() && s[j] == x;
                assert(t[j] == x);
            }
        }
    }
}

/// The texts of a list, each once and in order.
pub fn sort_unique(v: &Vec<String>) -> (r: Vec<String>)
    ensures
        texts(r@) == ordered(texts(v@)),
{
    let mut out: Vec<String> = Vec::new();
    let ghost all = texts(v@);
    let mut i: usize = 0;
    proof {
        assert(texts(out@) =~= ordered(all.take(0)));
    }
    while i < v.len()
        invariant
            i <= v@.len(),
            all == texts(v@),
            texts(out@) == ordered(all.take(i as int)),
        decreases v@.len() - i,
    {
        let t = v[i].clone();
        let ghost had = texts(out@);
        let ghost p = |x: Seq<char>| !text_before(x, t@);
        let mut k: usize = 0;
        while k < out.len() && comes_before(out[k].as_str(), t.as_str())
            invariant
                k <= out@.len(),
                had == texts(out@),
                p == (|x: Seq<char>| !text_before(x, t@)),
                forall|j: int| 0 <= j < k ==> !p(#[trigger] had[j]),
            decreases out@.len() - k,
        {
            k = k + 1;
        }
        proof {
            lemma_first_where_is(had, p, k as int);
            assert(all.take(i as int + 1).drop_last() =~= all.take(i as int));
            assert(all.take(i as int + 1).last() == t@);
        }
        if k < out.len() && same(out[k].as_str(), t.as_str()) {
            proof {
                assert(had[k as int] == t@);
            }
        } else {
            out.insert(k, t);
            proof {
                assert(texts(out@) =~= had.insert(k as int, t@));
            }
        }
        i = i + 1;
    }
    proof {
        assert(all.take(all.len() as int) =~= all);
    }
    out
}

// -- kinds of character ------------------------------------------------------

/// What `char::is_alphabetic` of std says of a character.
pub uninterp spec fn alphabetic(c: char) -> bool;

/// What `char::is_alphanumeric` of std says of a character.
pub uninterp spec fn alphanumeric(c: char) -> bool;

/// An ASCII letter.
pub open spec fn is_ascii_letter(c: char) -> bool {
    ('a' <= c && c <= 'z') || ('A' <= c && c <= 'Z')
}

/// `char::is_alphabetic` of std: Unicode's property, only named here. Among the ASCII
/// characters it is the letters.
#[verifier::external_body]
pub(crate) fn is_alphabetic(c: char) -> (r: bool)
    ensures
        r == alphabetic(c),
        (c as u32) < 128 ==> r == is_ascii_letter(c),
{
    c.is_alphabetic()
}

/// `char::is_alphanumeric` of std: Unicode's properties, only named here. Among the ASCII
/// characters it is the letters and digits.
#[verifier::external_body]
pub(crate) fn is_alphanumeric(c: char) -> (r: bool)
    ensures
        r == alphanumeric(c),
        (c as u32) < 128 ==> r == (is_ascii_letter(c) || is_digit(c)),
{
    c.is_alphanumeric()
}

/// ASCII letters lowered, everything else as it is.
pub fn to_ascii_lower(s: &str) -> (r: String)
    ensures
        r@ == ascii_lower(s@),
{
    let cs = chars_of(s);
    let mut out = String::new();
    let mut i: usize = 0;
    while i < cs.len()
        invariant
            cs@ == s@,
            i <= cs@.len(),
            out@ == ascii_lower(s@).take(i as int),
        decreases cs@.len() - i,
    {
        let c = cs[i];
        let d: char = if 'A' <= c && c <= 'Z' {
            ((c as u8) + 32) as char
        } else {
            c
        };
        out.push(d);
        proof {
            assert(ascii_lower(s@).take(i as int + 1) =~= ascii_lower(s@).take(i as int).push(
                ascii_lower_char(c),
            ));
        }
        i = i + 1;
    }
    proof {
        assert(ascii_lower(s@).take(i as int) =~= ascii_lower(s@));
    }
    out
}

/// How many bytes a character takes in UTF-8.
pub open spec fn width(c: char) -> int {
    let n = c as u32;
    if n < 0x80 {
        1
    } else if n < 0x800 {
        2
    } else if n < 0x10000 {
        3
    } else {
        4
    }
}

/// How many characters begin before a byte position.
pub open spec fn chars_before(s: Seq<char>, b: int) -> int
    decreases s.len(),
{
    if s.len() == 0 || b <= 0 {
        0
    } else {
        1 + chars_before(s.drop_first(), b - width(s[0]))
    }
}

/// How many characters begin before a byte position.
pub fn char_at(cs: &Vec<char>, b: usize) -> (r: usize)
    ensures
        r == chars_before(cs@, b as int),
        r <= cs@.len(),
{
    let mut left: usize = b;
    let mut i: usize = 0;
    proof {
        assert(cs@.skip(0) =~= cs@);
    }
    while i < cs.len() && left > 0
        invariant
            i <= cs@.len(),
            chars_before(cs@, b as int) == i + chars_before(cs@.skip(i as int), left as int),
        decreases cs@.len() - i,
    {
        let n: u32 = cs[i] as u32;
        let w: usize = if n < 0x80 {
            1
        } else if n < 0x800 {
            2
        } else if n < 0x10000 {
            3
        } else {
            4
        };
        proof {
            let t = cs@.skip(i as int);
            assert(t.drop_first() =~= cs@.skip(i as int + 1));
            if left < w {
                assert(chars_before(t.drop_first(), left - w) == 0);
                assert(chars_before(t.drop_first(), 0) == 0);
            }
        }
        left = left.saturating_sub(w);
        i = i + 1;
    }
    i
}

/// How many bytes a text takes.
pub open spec fn byte_len(s: Seq<char>) -> nat {
    vstd::utf8::encode_utf8(s).len()
}

/// How many bytes a text takes.
pub fn bytes_in(s: &str) -> (r: usize)
    ensures
        r == byte_len(s@),
{
    s.as_bytes().len()
}

} // verus!
