//! Paths, as text.
//!
//! A path is its characters, with `/` between components. What is said here of a path's last
//! component, its stem, its extension and its parent is what `std::path` documents for Unix:
//! repeated separators and `.` components other than a leading one are passed over.

use crate::seqs::{first_where, lemma_first_where, lemma_first_where_is, lemma_pick_take, pick};
use crate::text::{
    begins, chars_of, comes_before, first_of, lemma_first_of, lemma_text_order,
    lemma_text_order_chain, owned, pieces, same, split_any, string_of, text_before, texts,
};
use vstd::prelude::*;
use vstd::string::*;

verus! {

/// A path without the separators and `.` components it ends in. The root stays.
pub open spec fn tail_trimmed(s: Seq<char>) -> Seq<char>
    decreases s.len(),
{
    if s.len() > 1 && s.last() == '/' {
        tail_trimmed(s.drop_last())
    } else if s.len() > 1 && s.last() == '.' && s[s.len() - 2] == '/' {
        tail_trimmed(s.drop_last())
    } else {
        s
    }
}

/// The position of the last separator, or -1.
pub open spec fn last_slash(s: Seq<char>) -> int
    decreases s.len(),
{
    if s.len() == 0 {
        -1
    } else if s.last() == '/' {
        s.len() - 1
    } else {
        last_slash(s.drop_last())
    }
}

/// The position of the last dot, or -1.
pub open spec fn last_dot(s: Seq<char>) -> int
    decreases s.len(),
{
    if s.len() == 0 {
        -1
    } else if s.last() == '.' {
        s.len() - 1
    } else {
        last_dot(s.drop_last())
    }
}

/// The last component, where it is the name of something.
pub open spec fn file_name(s: Seq<char>) -> Option<Seq<char>> {
    let t = tail_trimmed(s);
    let base = t.skip(last_slash(t) + 1);
    if base.len() == 0 || base == seq!['.'] || base == seq!['.', '.'] {
        None
    } else {
        Some(base)
    }
}

/// A name without its extension. A leading dot begins no extension.
pub open spec fn stem_of(name: Seq<char>) -> Seq<char> {
    if last_dot(name) > 0 {
        name.take(last_dot(name))
    } else {
        name
    }
}

/// The last component without its extension.
pub open spec fn file_stem(s: Seq<char>) -> Option<Seq<char>> {
    match file_name(s) {
        Some(n) => Some(stem_of(n)),
        None => None,
    }
}

/// What follows the last dot of the last component, unless that dot leads it.
pub open spec fn extension(s: Seq<char>) -> Option<Seq<char>> {
    match file_name(s) {
        Some(n) if last_dot(n) > 0 => Some(n.skip(last_dot(n) + 1)),
        _ => None,
    }
}

/// The path without its last component: `None` for the root and for nothing.
pub open spec fn parent(s: Seq<char>) -> Option<Seq<char>> {
    let t = tail_trimmed(s);
    let k = last_slash(t);
    if t.len() == 0 || t == seq!['/'] {
        None
    } else if k < 0 {
        Some(Seq::empty())
    } else if k == 0 {
        Some(seq!['/'])
    } else {
        Some(tail_trimmed(t.take(k)))
    }
}

/// A path with another behind it. An absolute one replaces it.
pub open spec fn join_path(a: Seq<char>, b: Seq<char>) -> Seq<char> {
    if b.len() > 0 && b[0] == '/' {
        b
    } else if a.len() == 0 || a.last() == '/' {
        a + b
    } else {
        a.push('/') + b
    }
}

/// The length of a path without what it ends in.
fn tail_len(cs: &Vec<char>, to: usize) -> (r: usize)
    requires
        to <= cs@.len(),
    ensures
        r <= to,
        tail_trimmed(cs@.take(to as int)) == cs@.take(r as int),
{
    let mut n: usize = to;
    while n > 1 && (cs[n - 1] == '/' || (cs[n - 1] == '.' && cs[n - 2] == '/'))
        invariant
            n <= to <= cs@.len(),
            tail_trimmed(cs@.take(to as int)) == tail_trimmed(cs@.take(n as int)),
        decreases n,
    {
        proof {
            let s = cs@.take(n as int);
            assert(s.last() == cs@[n - 1]);
            assert(s[s.len() - 2] == cs@[n - 2]);
            assert(s.drop_last() =~= cs@.take(n - 1));
        }
        n = n - 1;
    }
    proof {
        let s = cs@.take(n as int);
        if n > 1 {
            assert(s.last() == cs@[n - 1]);
            assert(s[s.len() - 2] == cs@[n - 2]);
        }
    }
    n
}

/// Just past the last separator before `to`.
fn base_start(cs: &Vec<char>, to: usize) -> (r: usize)
    requires
        to <= cs@.len(),
    ensures
        r <= to,
        r == last_slash(cs@.take(to as int)) + 1,
{
    let mut k: usize = to;
    while k > 0 && cs[k - 1] != '/'
        invariant
            k <= to <= cs@.len(),
            last_slash(cs@.take(to as int)) == last_slash(cs@.take(k as int)),
        decreases k,
    {
        proof {
            let s = cs@.take(k as int);
            assert(s.last() == cs@[k - 1]);
            assert(s.drop_last() =~= cs@.take(k - 1));
        }
        k = k - 1;
    }
    proof {
        let s = cs@.take(k as int);
        if k > 0 {
            assert(s.last() == cs@[k - 1]);
        }
    }
    k
}

/// The last component, where it is the name of something.
pub fn name_in(path: &str) -> (r: Option<String>)
    ensures
        match r {
            Some(n) => file_name(path@) == Some(n@),
            None => file_name(path@) is None,
        },
{
    let cs = chars_of(path);
    proof {
        assert(cs@.take(cs@.len() as int) =~= cs@);
    }
    let end: usize = tail_len(&cs, cs.len());
    let start: usize = base_start(&cs, end);
    let base = string_of(&cs, start, end);
    proof {
        let t = cs@.take(end as int);
        assert(base@ =~= t.skip(last_slash(t) + 1));
        reveal_strlit(".");
        reveal_strlit("..");
        assert("."@ =~= seq!['.']);
        assert(".."@ =~= seq!['.', '.']);
    }
    if start == end || same(base.as_str(), ".") || same(base.as_str(), "..") {
        None
    } else {
        Some(base)
    }
}

/// Everything up to and including the last separator.
pub fn dir_part(path: &str) -> (r: String)
    ensures
        r@ == tail_trimmed(path@).take(last_slash(tail_trimmed(path@)) + 1),
{
    let cs = chars_of(path);
    proof {
        assert(cs@.take(cs@.len() as int) =~= cs@);
    }
    let end: usize = tail_len(&cs, cs.len());
    let start: usize = base_start(&cs, end);
    proof {
        assert(cs@.subrange(0, start as int) =~= cs@.take(end as int).take(start as int));
    }
    string_of(&cs, 0, start)
}

/// The position of the last dot of a name, where it does not lead it.
fn dot_in(cs: &Vec<char>) -> (r: Option<usize>)
    ensures
        match r {
            Some(k) => 0 < k < cs@.len() && k == last_dot(cs@),
            None => last_dot(cs@) <= 0,
        },
{
    let mut k: usize = cs.len();
    proof {
        assert(cs@.take(cs@.len() as int) =~= cs@);
    }
    while k > 0 && cs[k - 1] != '.'
        invariant
            k <= cs@.len(),
            last_dot(cs@) == last_dot(cs@.take(k as int)),
        decreases k,
    {
        proof {
            let s = cs@.take(k as int);
            assert(s.last() == cs@[k - 1]);
            assert(s.drop_last() =~= cs@.take(k - 1));
        }
        k = k - 1;
    }
    proof {
        let s = cs@.take(k as int);
        if k > 0 {
            assert(s.last() == cs@[k - 1]);
        }
    }
    if k > 1 {
        Some(k - 1)
    } else {
        None
    }
}

/// The last component without its extension.
pub fn stem_in(path: &str) -> (r: Option<String>)
    ensures
        match r {
            Some(n) => file_stem(path@) == Some(n@),
            None => file_stem(path@) is None,
        },
{
    match name_in(path) {
        Some(n) => {
            let cs = chars_of(n.as_str());
            match dot_in(&cs) {
                Some(k) => Some(string_of(&cs, 0, k)),
                None => Some(n),
            }
        },
        None => None,
    }
}

/// What follows the last dot of the last component, unless that dot leads it.
pub fn extension_in(path: &str) -> (r: Option<String>)
    ensures
        match r {
            Some(n) => extension(path@) == Some(n@),
            None => extension(path@) is None,
        },
{
    match name_in(path) {
        Some(n) => {
            let cs = chars_of(n.as_str());
            match dot_in(&cs) {
                Some(k) => {
                    let n: usize = cs.len();
                    Some(string_of(&cs, k + 1, n))
                },
                None => None,
            }
        },
        None => None,
    }
}

/// The path without its last component.
pub fn parent_in(path: &str) -> (r: Option<String>)
    ensures
        match r {
            Some(n) => parent(path@) == Some(n@),
            None => parent(path@) is None,
        },
{
    let cs = chars_of(path);
    proof {
        assert(cs@.take(cs@.len() as int) =~= cs@);
    }
    let end: usize = tail_len(&cs, cs.len());
    let ghost t = cs@.take(end as int);
    proof {
        if end == 1 && cs@[0] == '/' {
            assert(t =~= seq!['/']);
        }
        if t == seq!['/'] {
            assert(t.len() == 1);
            assert(t[0] == cs@[0]);
        }
    }
    if end == 0 || (end == 1 && cs[0] == '/') {
        return None;
    }
    let start: usize = base_start(&cs, end);
    if start == 0 {
        return Some(String::new());
    }
    if start == 1 {
        let mut root = String::new();
        root.push('/');
        proof {
            assert(root@ =~= seq!['/']);
        }
        return Some(root);
    }
    let stop: usize = tail_len(&cs, start - 1);
    proof {
        assert(t.take(start - 1) =~= cs@.take(start - 1));
        assert(cs@.subrange(0, stop as int) =~= cs@.take(stop as int));
    }
    Some(string_of(&cs, 0, stop))
}

/// A path with another behind it.
pub fn join_paths(a: &str, b: &str) -> (r: String)
    ensures
        r@ == join_path(a@, b@),
{
    let bs = chars_of(b);
    if bs.len() > 0 && bs[0] == '/' {
        return owned(b);
    }
    let cs = chars_of(a);
    let mut out = owned(a);
    if cs.len() > 0 && cs[cs.len() - 1] != '/' {
        out.push('/');
    }
    out.append(b);
    out
}

// -- staying inside ----------------------------------------------------------

/// Why a path was refused.
#[derive(Debug, Clone, Copy, PartialEq, Eq, Structural)]
pub enum PathError {
    /// It starts at the root.
    Absolute,
    /// It climbs out.
    Leaves,
}

impl PathError {
    /// The sentence a person is shown.
    pub open spec fn text(self) -> Seq<char> {
        match self {
            PathError::Absolute => "note paths are relative to the vault"@,
            PathError::Leaves => "note paths cannot leave the vault"@,
        }
    }

    /// The sentence a person is shown.
    pub fn message(&self) -> (r: String)
        ensures
            r@ == self.text(),
    {
        match self {
            PathError::Absolute => owned("note paths are relative to the vault"),
            PathError::Leaves => owned("note paths cannot leave the vault"),
        }
    }
}

/// A part of a path that names nothing: the space between two separators, or `.`.
pub open spec fn is_filler(part: Seq<char>) -> bool {
    part.len() == 0 || part == "."@
}

/// Whether any part climbs.
pub open spec fn climbs(parts: Seq<Seq<char>>) -> bool {
    exists|i: int| 0 <= i < parts.len() && #[trigger] parts[i] == ".."@
}

/// Each named part behind the path, in order.
pub open spec fn descend(root: Seq<char>, parts: Seq<Seq<char>>) -> Seq<char>
    decreases parts.len(),
{
    if parts.len() == 0 {
        root
    } else {
        let before = descend(root, parts.drop_last());
        if is_filler(parts.last()) {
            before
        } else {
            join_path(before, parts.last())
        }
    }
}

/// Where a relative path leads from a root that it must not leave.
pub open spec fn joined_safely(root: Seq<char>, rel: Seq<char>) -> Result<Seq<char>, PathError> {
    let parts = pieces(rel, "/"@);
    if rel.len() > 0 && rel[0] == '/' {
        Err(PathError::Absolute)
    } else if climbs(parts) {
        Err(PathError::Leaves)
    } else {
        Ok(descend(root, parts))
    }
}

/// Join a vault-relative path, refusing anything that climbs out of it.
///
/// The one place a path from outside becomes a path that is written to: "write a note" must
/// never be a way to write anything else.
pub fn safe_join(root: &str, rel: &str) -> (r: Result<String, PathError>)
    ensures
        match r {
            Ok(p) => joined_safely(root@, rel@) == Ok::<Seq<char>, PathError>(p@),
            Err(e) => joined_safely(root@, rel@) == Err::<Seq<char>, PathError>(e),
        },
{
    let cs = chars_of(rel);
    if cs.len() > 0 && cs[0] == '/' {
        return Err(PathError::Absolute);
    }
    let parts = split_any(rel, "/");
    let ghost ps = pieces(rel@, "/"@);
    let mut out = owned(root);
    let mut i: usize = 0;
    proof {
        assert(ps.take(0) =~= Seq::<Seq<char>>::empty());
    }
    while i < parts.len()
        invariant
            i <= parts@.len(),
            texts(parts@) == ps,
            ps == pieces(rel@, "/"@),
            !(rel@.len() > 0 && rel@[0] == '/'),
            forall|j: int| 0 <= j < i ==> #[trigger] ps[j] != ".."@,
            out@ == descend(root@, ps.take(i as int)),
        decreases parts@.len() - i,
    {
        let part = parts[i].as_str();
        proof {
            assert(ps[i as int] == part@);
            assert(ps.take(i as int + 1).drop_last() =~= ps.take(i as int));
            assert(ps.take(i as int + 1).last() == part@);
        }
        if same(part, "..") {
            proof {
                assert(climbs(ps));
            }
            return Err(PathError::Leaves);
        }
        if !part.is_empty() && !same(part, ".") {
            out = join_paths(out.as_str(), part);
        }
        i = i + 1;
    }
    proof {
        assert(ps.take(ps.len() as int) =~= ps);
        assert(!climbs(ps));
    }
    Ok(out)
}

/// No piece between separators holds one.
proof fn lemma_pieces_hold_no_slash(s: Seq<char>, i: int, j: int)
    requires
        0 <= i < pieces(s, "/"@).len(),
        0 <= j < pieces(s, "/"@)[i].len(),
    ensures
        pieces(s, "/"@)[i][j] != '/',
    decreases s.len(),
{
    reveal_strlit("/");
    assert("/"@.contains("/"@[0]));
    lemma_first_of(s, "/"@);
    let k = first_of(s, "/"@);
    if k < s.len() {
        if i == 0 {
            assert(pieces(s, "/"@)[0] == s.take(k));
            assert(!"/"@.contains(s[j]));
        } else {
            assert(pieces(s, "/"@)[i] == pieces(s.skip(k + 1), "/"@)[i - 1]);
            lemma_pieces_hold_no_slash(s.skip(k + 1), i - 1, j);
        }
    } else {
        assert(!"/"@.contains(s[j]));
    }
}

proof fn lemma_descend_extends(root: Seq<char>, rel: Seq<char>, n: int)
    requires
        0 <= n <= pieces(rel, "/"@).len(),
    ensures
        begins(descend(root, pieces(rel, "/"@).take(n)), root),
    decreases n,
{
    let ps = pieces(rel, "/"@);
    if n == 0 {
        assert(descend(root, ps.take(0)) == root);
        assert(root.subrange(0, root.len() as int) =~= root);
    } else {
        lemma_descend_extends(root, rel, n - 1);
        let before = descend(root, ps.take(n - 1));
        let part = ps[n - 1];
        assert(ps.take(n).drop_last() =~= ps.take(n - 1));
        assert(ps.take(n).last() == part);
        if !is_filler(part) {
            if part.len() > 0 {
                lemma_pieces_hold_no_slash(rel, n - 1, 0);
            }
            let after = join_path(before, part);
            assert(after.subrange(0, root.len() as int) =~= before.subrange(0, root.len() as int));
        }
    }
}

/// A path that is accepted never leads out of the root: the root's own text stands in front,
/// and no part of what follows climbs.
pub proof fn law_a_joined_path_stays_inside(root: Seq<char>, rel: Seq<char>)
    requires
        joined_safely(root, rel) is Ok,
    ensures
        begins(joined_safely(root, rel)->Ok_0, root),
        !climbs(pieces(rel, "/"@)),
{
    let ps = pieces(rel, "/"@);
    assert(ps.take(ps.len() as int) =~= ps);
    lemma_descend_extends(root, rel, ps.len() as int);
}

/// An absolute path and a climbing one are refused, whatever the root.
pub proof fn law_escapes_are_refused(root: Seq<char>, rel: Seq<char>)
    requires
        (rel.len() > 0 && rel[0] == '/') || climbs(pieces(rel, "/"@)),
    ensures
        joined_safely(root, rel) is Err,
{
}

// -- the same place ----------------------------------------------------------

/// A part that names something.
pub open spec fn is_named() -> spec_fn(Seq<char>) -> bool {
    |p: Seq<char>| !is_filler(p)
}

/// The parts of a path that name something, in order.
pub open spec fn named_parts(s: Seq<char>) -> Seq<Seq<char>> {
    pick(pieces(s, "/"@), is_named(), |p: Seq<char>| p)
}

/// Whether a path starts at the root.
pub open spec fn is_rooted(s: Seq<char>) -> bool {
    s.len() > 0 && s[0] == '/'
}

/// Whether a path starts with a dot that stands for here.
pub open spec fn starts_here(s: Seq<char>) -> bool {
    s.len() > 0 && s[0] == '.' && (s.len() == 1 || s[1] == '/')
}

/// The place that a path is written for, step by step: where it starts, and the parts that name
/// something. Separators that are doubled or trail, and dots within, make no difference.
pub open spec fn place(s: Seq<char>) -> Seq<Seq<char>> {
    if is_rooted(s) {
        seq!["/"@] + named_parts(s)
    } else if starts_here(s) {
        seq!["."@] + named_parts(s)
    } else {
        named_parts(s)
    }
}

/// Whether two paths are written for one place.
pub open spec fn same_place(a: Seq<char>, b: Seq<char>) -> bool {
    place(a) == place(b)
}

/// The parts of a path that name something, in order.
fn parts_in(s: &str) -> (r: Vec<String>)
    ensures
        texts(r@) == named_parts(s@),
{
    let all = split_any(s, "/");
    let ghost ps = pieces(s@, "/"@);
    let ghost f = |p: Seq<char>| p;
    let mut out: Vec<String> = Vec::new();
    let mut i: usize = 0;
    proof {
        assert(texts(out@) =~= pick(ps.take(0), is_named(), f));
    }
    while i < all.len()
        invariant
            i <= all@.len(),
            texts(all@) == ps,
            f == (|p: Seq<char>| p),
            texts(out@) == pick(ps.take(i as int), is_named(), f),
        decreases all@.len() - i,
    {
        proof {
            lemma_pick_take(ps, is_named(), f, i as int);
            assert(ps[i as int] == all@[i as int]@);
        }
        let part = &all[i];
        if !(part.as_str().is_empty() || same(part.as_str(), ".")) {
            let ghost had = texts(out@);
            out.push(part.clone());
            proof {
                assert(texts(out@) =~= had.push(ps[i as int]));
            }
        }
        i = i + 1;
    }
    proof {
        assert(ps.take(i as int) =~= ps);
    }
    out
}

/// The place that a path is written for.
fn place_of(s: &str) -> (r: Vec<String>)
    ensures
        texts(r@) == place(s@),
{
    let cs = chars_of(s);
    let rooted = cs.len() > 0 && cs[0] == '/';
    let here = cs.len() > 0 && cs[0] == '.' && (cs.len() == 1 || cs[1] == '/');
    let mut parts = parts_in(s);
    let ghost named = named_parts(s@);
    if rooted {
        parts.insert(0, owned("/"));
        proof {
            assert(texts(parts@) =~= seq!["/"@] + named);
        }
    } else if here {
        parts.insert(0, owned("."));
        proof {
            assert(texts(parts@) =~= seq!["."@] + named);
        }
    }
    parts
}

/// Whether two lists hold the same texts.
fn same_texts(a: &Vec<String>, b: &Vec<String>) -> (r: bool)
    ensures
        r == (texts(a@) == texts(b@)),
{
    if a.len() != b.len() {
        proof {
            assert(texts(a@).len() != texts(b@).len());
        }
        return false;
    }
    let mut i: usize = 0;
    while i < a.len()
        invariant
            i <= a@.len(),
            a@.len() == b@.len(),
            forall|j: int| 0 <= j < i ==> #[trigger] texts(a@)[j] == texts(b@)[j],
        decreases a@.len() - i,
    {
        if !same(a[i].as_str(), b[i].as_str()) {
            proof {
                assert(texts(a@)[i as int] != texts(b@)[i as int]);
            }
            return false;
        }
        i = i + 1;
    }
    proof {
        assert(texts(a@) =~= texts(b@));
    }
    true
}

/// Whether two paths are written for one place.
pub fn same_path(a: &str, b: &str) -> (r: bool)
    ensures
        r == same_place(a@, b@),
{
    same_texts(&place_of(a), &place_of(b))
}

/// Whether a path is written for one of these places.
pub fn placed_in(paths: &[String], path: &str) -> (r: bool)
    ensures
        r == exists|i: int|
            0 <= i < paths@.len() && #[trigger] same_place(paths@[i]@, path@),
{
    let mut i: usize = 0;
    while i < paths.len()
        invariant
            i <= paths@.len(),
            forall|j: int| 0 <= j < i ==> !#[trigger] same_place(paths@[j]@, path@),
        decreases paths@.len() - i,
    {
        if same_path(paths[i].as_str(), path) {
            return true;
        }
        i = i + 1;
    }
    false
}

// -- order -------------------------------------------------------------------

/// The rank of a step: the root, then here, then up, then whatever has a name.
pub open spec fn step_rank(t: Seq<char>) -> int {
    if t == "/"@ {
        0
    } else if t == "."@ {
        1
    } else if t == ".."@ {
        2
    } else {
        3
    }
}

/// Whether one step comes before another.
pub open spec fn step_before(a: Seq<char>, b: Seq<char>) -> bool {
    step_rank(a) < step_rank(b) || (step_rank(a) == step_rank(b) && text_before(a, b))
}

/// Whether one list of steps comes before another: at the first that differs, and otherwise the
/// shorter one.
pub open spec fn steps_before(a: Seq<Seq<char>>, b: Seq<Seq<char>>) -> bool
    decreases a.len(),
{
    if b.len() == 0 {
        false
    } else if a.len() == 0 {
        true
    } else if a[0] == b[0] {
        steps_before(a.drop_first(), b.drop_first())
    } else {
        step_before(a[0], b[0])
    }
}

/// Whether one path comes before another.
pub open spec fn path_before(a: Seq<char>, b: Seq<char>) -> bool {
    steps_before(place(a), place(b))
}

/// A path put where it belongs in a list that is in order, unless its place is there already.
pub open spec fn path_put(r: Seq<Seq<char>>, t: Seq<char>) -> Seq<Seq<char>> {
    let k = first_where(r, |x: Seq<char>| !path_before(x, t));
    if k < r.len() && same_place(r[k], t) {
        r
    } else {
        r.insert(k, t)
    }
}

/// The places that a list of paths is written for, each once and in order, by the first path
/// that is written for it.
pub open spec fn places(s: Seq<Seq<char>>) -> Seq<Seq<char>>
    decreases s.len(),
{
    if s.len() == 0 {
        Seq::empty()
    } else {
        path_put(places(s.drop_last()), s.last())
    }
}

fn rank_of(t: &str) -> (r: u8)
    ensures
        r as int == step_rank(t@),
{
    if same(t, "/") {
        0
    } else if same(t, ".") {
        1
    } else if same(t, "..") {
        2
    } else {
        3
    }
}

/// Whether one path comes before another.
fn sorts_before(a: &str, b: &str) -> (r: bool)
    ensures
        r == path_before(a@, b@),
{
    let x = place_of(a);
    let y = place_of(b);
    let ghost xs = texts(x@);
    let ghost ys = texts(y@);
    let mut i: usize = 0;
    proof {
        assert(xs.skip(0) =~= xs);
        assert(ys.skip(0) =~= ys);
    }
    while i < x.len() && i < y.len() && same(x[i].as_str(), y[i].as_str())
        invariant
            i <= x@.len(),
            i <= y@.len(),
            xs == texts(x@),
            ys == texts(y@),
            steps_before(xs, ys) == steps_before(xs.skip(i as int), ys.skip(i as int)),
        decreases x@.len() - i,
    {
        proof {
            assert(xs.skip(i as int)[0] == x@[i as int]@);
            assert(ys.skip(i as int)[0] == y@[i as int]@);
            assert(xs.skip(i as int).drop_first() =~= xs.skip(i as int + 1));
            assert(ys.skip(i as int).drop_first() =~= ys.skip(i as int + 1));
        }
        i = i + 1;
    }
    if i >= y.len() {
        return false;
    }
    if i >= x.len() {
        return true;
    }
    proof {
        assert(xs.skip(i as int)[0] == x@[i as int]@);
        assert(ys.skip(i as int)[0] == y@[i as int]@);
    }
    let ra: u8 = rank_of(x[i].as_str());
    let rb: u8 = rank_of(y[i].as_str());
    ra < rb || (ra == rb && comes_before(x[i].as_str(), y[i].as_str()))
}

/// The places that a list of paths is written for, each once and in order.
pub fn sort_places(v: &Vec<String>) -> (r: Vec<String>)
    ensures
        texts(r@) == places(texts(v@)),
{
    let mut out: Vec<String> = Vec::new();
    let ghost all = texts(v@);
    let mut i: usize = 0;
    proof {
        assert(texts(out@) =~= places(all.take(0)));
    }
    while i < v.len()
        invariant
            i <= v@.len(),
            all == texts(v@),
            texts(out@) == places(all.take(i as int)),
        decreases v@.len() - i,
    {
        let t = v[i].clone();
        let ghost had = texts(out@);
        let ghost p = |x: Seq<char>| !path_before(x, t@);
        let mut k: usize = 0;
        while k < out.len() && sorts_before(out[k].as_str(), t.as_str())
            invariant
                k <= out@.len(),
                had == texts(out@),
                p == (|x: Seq<char>| !path_before(x, t@)),
                forall|j: int| 0 <= j < k ==> !p(#[trigger] had[j]),
            decreases out@.len() - k,
        {
            k = k + 1;
        }
        proof {
            if k < out@.len() {
                assert(had[k as int] == out@[k as int]@);
            }
            lemma_first_where_is(had, p, k as int);
            assert(all.take(i as int + 1).drop_last() =~= all.take(i as int));
            assert(all.take(i as int + 1).last() == t@);
        }
        if k < out.len() && same_path(out[k].as_str(), t.as_str()) {
        } else {
            out.insert(k, t);
            proof {
                assert(texts(out@) =~= had.insert(k as int, t@));
            }
        }
        i = i + 1;
    }
    proof {
        assert(all.take(i as int) =~= all);
    }
    out
}

/// One of two different lists of steps comes first, and only one.
proof fn lemma_steps_order(a: Seq<Seq<char>>, b: Seq<Seq<char>>)
    ensures
        a != b ==> steps_before(a, b) || steps_before(b, a),
        !(steps_before(a, b) && steps_before(b, a)),
        !steps_before(a, a),
    decreases a.len(),
{
    if a.len() == 0 {
        if b.len() == 0 {
            assert(a =~= b);
        }
    } else {
        lemma_steps_order(a.drop_first(), a.drop_first());
        if b.len() > 0 {
            lemma_text_order(a[0], b[0]);
            if a[0] == b[0] {
                lemma_steps_order(a.drop_first(), b.drop_first());
                if a.drop_first() == b.drop_first() {
                    assert(a =~= seq![a[0]] + a.drop_first());
                    assert(b =~= seq![b[0]] + b.drop_first());
                }
            }
        }
    }
}

/// What comes before something comes before what follows it.
proof fn lemma_steps_chain(a: Seq<Seq<char>>, b: Seq<Seq<char>>, c: Seq<Seq<char>>)
    requires
        steps_before(a, b),
        steps_before(b, c),
    ensures
        steps_before(a, c),
    decreases a.len(),
{
    if a.len() > 0 && b.len() > 0 && c.len() > 0 {
        if a[0] == b[0] && b[0] == c[0] {
            lemma_steps_chain(a.drop_first(), b.drop_first(), c.drop_first());
        } else if a[0] != b[0] && b[0] != c[0] {
            if step_rank(a[0]) == step_rank(b[0]) && step_rank(b[0]) == step_rank(c[0]) {
                lemma_text_order_chain(a[0], b[0], c[0]);
                lemma_text_order(a[0], c[0]);
            }
        }
    }
}

/// In order, with no place twice.
pub open spec fn in_path_order(s: Seq<Seq<char>>) -> bool {
    forall|i: int, j: int|
        0 <= i < j < s.len() ==> path_before(#[trigger] s[i], #[trigger] s[j])
}

/// Whether a list has a path that is written for the same place.
pub open spec fn has_place(s: Seq<Seq<char>>, x: Seq<char>) -> bool {
    exists|k: int| 0 <= k < s.len() && same_place(#[trigger] s[k], x)
}

/// Putting a path where it belongs keeps the order.
proof fn lemma_put_in_order(r: Seq<Seq<char>>, x: Seq<char>)
    requires
        in_path_order(r),
    ensures
        in_path_order(path_put(r, x)),
{
    let p = |y: Seq<char>| !path_before(y, x);
    lemma_first_where(r, p);
    let k = first_where(r, p);
    let now = path_put(r, x);
    if !(k < r.len() && same_place(r[k], x)) {
        if k < r.len() {
            assert(p(r[k]));
            lemma_steps_order(place(r[k]), place(x));
        }
        r.insert_ensures(k, x);
        assert forall|a: int, b: int| 0 <= a < b < now.len() implies path_before(
            #[trigger] now[a],
            #[trigger] now[b],
        ) by {
            if b < k {
                assert(now[a] == r[a] && now[b] == r[b]);
            } else if b == k {
                assert(now[a] == r[a]);
                assert(!p(r[a]));
            } else if a < k {
                assert(now[a] == r[a] && now[b] == r[b - 1]);
            } else if a == k {
                assert(now[b] == r[b - 1]);
                if b - 1 > k {
                    lemma_steps_chain(place(x), place(r[k]), place(r[b - 1]));
                }
            } else {
                assert(now[a] == r[a - 1] && now[b] == r[b - 1]);
            }
        }
    }
}

/// What is put in is there, what was there stays, and there is nothing else.
proof fn lemma_put_there(r: Seq<Seq<char>>, x: Seq<char>)
    ensures
        has_place(path_put(r, x), x),
        forall|y: Seq<char>| has_place(r, y) ==> #[trigger] has_place(path_put(r, x), y),
        forall|k: int|
            0 <= k < path_put(r, x).len() ==> r.contains(#[trigger] path_put(r, x)[k]) || path_put(
                r,
                x,
            )[k] == x,
{
    let p = |y: Seq<char>| !path_before(y, x);
    lemma_first_where(r, p);
    let k = first_where(r, p);
    let now = path_put(r, x);
    if k < r.len() && same_place(r[k], x) {
        assert(same_place(now[k], x));
        assert forall|m: int| 0 <= m < now.len() implies r.contains(#[trigger] now[m]) by {}
    } else {
        r.insert_ensures(k, x);
        assert(same_place(now[k], x));
        assert forall|y: Seq<char>| has_place(r, y) implies #[trigger] has_place(now, y) by {
            let m = choose|m: int| 0 <= m < r.len() && same_place(#[trigger] r[m], y);
            if m < k {
                assert(now[m] == r[m]);
                assert(same_place(now[m], y));
            } else {
                assert(now[m + 1] == r[m]);
                assert(same_place(now[m + 1], y));
            }
        }
        assert forall|m: int| 0 <= m < now.len() implies r.contains(#[trigger] now[m]) || now[m]
            == x by {
            if m < k {
                assert(now[m] == r[m]);
            } else if m > k {
                assert(now[m] == r[m - 1]);
            }
        }
    }
}

/// What is in order has no place twice.
proof fn lemma_order_tells_apart(s: Seq<Seq<char>>, i: int, j: int)
    requires
        in_path_order(s),
        0 <= i < j < s.len(),
    ensures
        !same_place(s[i], s[j]),
{
    assert(path_before(s[i], s[j]));
    lemma_steps_order(place(s[i]), place(s[j]));
}

/// Every place of a list is there once, and nothing else is.
pub proof fn law_each_place_is_there_once(s: Seq<Seq<char>>)
    ensures
        in_path_order(places(s)),
        forall|i: int, j: int|
            0 <= i < j < places(s).len() ==> !same_place(
                #[trigger] places(s)[i],
                #[trigger] places(s)[j],
            ),
        forall|i: int| 0 <= i < s.len() ==> has_place(places(s), #[trigger] s[i]),
        forall|k: int| 0 <= k < places(s).len() ==> s.contains(#[trigger] places(s)[k]),
    decreases s.len(),
{
    if s.len() > 0 {
        let t = s.drop_last();
        let x = s.last();
        law_each_place_is_there_once(t);
        lemma_put_in_order(places(t), x);
        lemma_put_there(places(t), x);
        let now = places(s);
        assert forall|i: int| 0 <= i < s.len() implies has_place(now, #[trigger] s[i]) by {
            if i < t.len() {
                assert(has_place(places(t), t[i]));
            }
        }
        assert forall|m: int| 0 <= m < now.len() implies s.contains(#[trigger] now[m]) by {
            if now[m] == x {
                assert(s[s.len() - 1] == x);
            } else {
                let q = choose|q: int| 0 <= q < places(t).len() && places(t)[q] == now[m];
                let j = choose|j: int| 0 <= j < t.len() && t[j] == places(t)[q];
                assert(s[j] == now[m]);
            }
        }
    }
    let now = places(s);
    assert forall|i: int, j: int| 0 <= i < j < now.len() implies !same_place(
        #[trigger] now[i],
        #[trigger] now[j],
    ) by {
        lemma_order_tells_apart(now, i, j);
    }
}

} // verus!
