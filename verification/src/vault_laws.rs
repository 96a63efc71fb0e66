//! What a vault promises: which notes a search finds and in what order, what a name means, what a
//! note's text says, and what the graph shows.

use crate::notes::{
    body_of, bucket_of, closing, links_from, note_of, parsed, run_end, split_note, tag_at, tag_char,
    tags_within, target_in, unescaped, Bucket, MarkKindView, MarkView, NoteView, array_items,
    unquoted,
};
use crate::paths::{extension, parent};
use crate::seqs::{count_where, first_where, lemma_first_where};
use crate::text::{
    alphabetic, alphanumeric, begins, is_space, lemma_first_of_is, lowercase, occurs, split_once,
    trimmed,
};
use crate::vault::{
    all_keys, any_holds, by_stem, ghosts, has_alias, hit_before, hits, key_of, lowered, means_ghost,
    missing, missing_in, nodes_of, note_from, note_rank, resolved, touches, visited, FoundView,
    KeysView, RefView, Visit, leads, linkers, links_to,
};
use vstd::prelude::*;

verus! {

// -- search ------------------------------------------------------------------

/// Whether a note has a name that is exactly the query.
pub open spec fn is_named(n: NoteView, q: Seq<char>) -> bool {
    lowercase(n.title) == q || lowercase(n.stem_spec()) == q
}

/// Whether a name of a note starts with the query.
pub open spec fn starts_so(n: NoteView, q: Seq<char>) -> bool {
    begins(lowercase(n.title), q) || begins(lowercase(n.stem_spec()), q)
}

/// Whether the query stands in a name of a note.
pub open spec fn has_in_name(n: NoteView, q: Seq<char>) -> bool {
    occurs(lowercase(n.title), q) || occurs(lowercase(n.stem_spec()), q)
}

/// Whether the query stands in a tag of a note.
pub open spec fn has_in_tag(n: NoteView, q: Seq<char>) -> bool {
    exists|i: int| 0 <= i < n.tags.len() && occurs(lowercase(#[trigger] n.tags[i]), q)
}

proof fn lemma_tags(n: NoteView, q: Seq<char>)
    ensures
        any_holds(lowered(n.tags), q) == has_in_tag(n, q),
{
    let l = lowered(n.tags);
    if any_holds(l, q) {
        let i = choose|i: int| 0 <= i < l.len() && occurs(#[trigger] l[i], q);
        assert(occurs(lowercase(n.tags[i]), q));
    }
    if has_in_tag(n, q) {
        let i = choose|i: int| 0 <= i < n.tags.len() && occurs(lowercase(#[trigger] n.tags[i]), q);
        assert(occurs(l[i], q));
    }
}

proof fn lemma_found(ns: Seq<NoteView>, q: Seq<char>, r: Seq<usize>, i: int)
    requires
        hits(ns, q, r),
        0 <= i < r.len(),
    ensures
        r[i] < ns.len(),
        note_rank(ns[r[i] as int], q) is Some,
{
    assert(r.contains(r[i]));
}

/// A search finds exactly the notes that have the query in their title, in the name of their file
/// or in a tag, in whatever case; and every note where the query is empty.
pub proof fn law_a_search_finds_what_holds_the_query(
    ns: Seq<NoteView>,
    q: Seq<char>,
    r: Seq<usize>,
    x: usize,
)
    requires
        hits(ns, q, r),
    ensures
        r.contains(x) <==> x < ns.len() && (q.len() == 0 || is_named(ns[x as int], q) || starts_so(
            ns[x as int],
            q,
        ) || has_in_name(ns[x as int], q) || has_in_tag(ns[x as int], q)),
{
    if x < ns.len() {
        lemma_tags(ns[x as int], q);
    }
}

/// Of two notes that answer equally well the newer stands first: none comes after one that has
/// the same standing and is older. Of two that are as new, the one that was there first.
pub proof fn law_newer_hits_come_first(
    ns: Seq<NoteView>,
    q: Seq<char>,
    r: Seq<usize>,
    i: int,
    j: int,
)
    requires
        hits(ns, q, r),
        0 <= i < j < r.len(),
        q.len() > 0,
        is_named(ns[r[i] as int], q) == is_named(ns[r[j] as int], q),
        starts_so(ns[r[i] as int], q) == starts_so(ns[r[j] as int], q),
        has_in_name(ns[r[i] as int], q) == has_in_name(ns[r[j] as int], q),
        has_in_tag(ns[r[i] as int], q) == has_in_tag(ns[r[j] as int], q),
    ensures
        ns[r[i] as int].mtime >= ns[r[j] as int].mtime,
        ns[r[i] as int].mtime == ns[r[j] as int].mtime ==> r[i] < r[j],
{
    lemma_found(ns, q, r, i);
    lemma_found(ns, q, r, j);
    lemma_tags(ns[r[i] as int], q);
    lemma_tags(ns[r[j] as int], q);
    assert(hit_before(ns, q, r[i], r[j]));
}

/// An empty query gives every note once, and the times at which they changed never increase.
pub proof fn law_an_empty_query_gives_all_newest_first(ns: Seq<NoteView>, r: Seq<usize>)
    requires
        hits(ns, Seq::empty(), r),
    ensures
        forall|x: usize| #[trigger] r.contains(x) <==> x < ns.len(),
        forall|i: int, j: int|
            0 <= i < j < r.len() ==> ns[(#[trigger] r[i]) as int].mtime >= ns[(
            #[trigger] r[j]) as int].mtime && r[i] != r[j],
{
    let q = Seq::<char>::empty();
    assert forall|i: int, j: int| 0 <= i < j < r.len() implies ns[(#[trigger] r[i]) as int].mtime
        >= ns[(#[trigger] r[j]) as int].mtime && r[i] != r[j] by {
        lemma_found(ns, q, r, i);
        lemma_found(ns, q, r, j);
        assert(hit_before(ns, q, r[i], r[j]));
    }
}

/// A better answer stands before a worse one, however old it is: the name itself before one that
/// starts so, that before one that holds the query further in, and a tag last.
pub proof fn law_better_hits_come_first(
    ns: Seq<NoteView>,
    q: Seq<char>,
    r: Seq<usize>,
    i: int,
    j: int,
)
    requires
        hits(ns, q, r),
        0 <= i < j < r.len(),
        q.len() > 0,
    ensures
        is_named(ns[r[j] as int], q) ==> is_named(ns[r[i] as int], q),
        starts_so(ns[r[j] as int], q) ==> is_named(ns[r[i] as int], q) || starts_so(
            ns[r[i] as int],
            q,
        ),
        has_in_name(ns[r[j] as int], q) ==> is_named(ns[r[i] as int], q) || starts_so(
            ns[r[i] as int],
            q,
        ) || has_in_name(ns[r[i] as int], q),
{
    lemma_found(ns, q, r, i);
    lemma_found(ns, q, r, j);
    assert(hit_before(ns, q, r[i], r[j]));
}

// -- names -------------------------------------------------------------------

proof fn lemma_last_stem(keys: Seq<KeysView>, key: Seq<char>, n: int)
    requires
        0 <= n <= keys.len(),
    ensures
        match by_stem(keys, key, n) {
            Some(i) => 0 <= i < n && keys[i].stem == key && forall|k: int|
                i < k < n ==> (#[trigger] keys[k]).stem != key,
            None => forall|k: int| 0 <= k < n ==> (#[trigger] keys[k]).stem != key,
        },
    decreases n,
{
    if n > 0 && keys[n - 1].stem != key {
        lemma_last_stem(keys, key, n - 1);
    }
}

/// Whether a note's file goes by this lowered name.
pub open spec fn filed_as(ns: Seq<NoteView>, key: Seq<char>, i: int) -> bool {
    0 <= i < ns.len() && lowercase(ns[i].stem_spec()) == key
}

/// Whether a note has this lowered name as an alias.
pub open spec fn aliased_as(ns: Seq<NoteView>, key: Seq<char>, i: int) -> bool {
    0 <= i < ns.len() && exists|a: int|
        0 <= a < ns[i].aliases.len() && lowercase(#[trigger] ns[i].aliases[a]) == key
}

proof fn lemma_keys(ns: Seq<NoteView>, key: Seq<char>, i: int)
    requires
        0 <= i < ns.len(),
    ensures
        filed_as(ns, key, i) == (all_keys(ns)[i].stem == key),
        aliased_as(ns, key, i) == has_alias(key)(all_keys(ns)[i]),
{
    let al = all_keys(ns)[i].aliases;
    if al.contains(key) {
        let a = choose|a: int| 0 <= a < al.len() && al[a] == key;
        assert(lowercase(ns[i].aliases[a]) == key);
    }
    if aliased_as(ns, key, i) {
        let a = choose|a: int|
            0 <= a < ns[i].aliases.len() && lowercase(#[trigger] ns[i].aliases[a]) == key;
        assert(al[a] == key);
    }
}

/// Of several files of one name, the name means the last; of several notes with one alias, and no
/// file of that name, the first. And it means nothing where no note has it either way.
pub proof fn law_a_name_means_one_note(ns: Seq<NoteView>, target: Seq<char>, i: int)
    ensures
        ({
            let key = key_of(target);
            match resolved(ns, target) {
                Some(k) => {
                    &&& filed_as(ns, key, k) || aliased_as(ns, key, k)
                    &&& filed_as(ns, key, k) && k < i ==> !filed_as(ns, key, i)
                    &&& !filed_as(ns, key, k) ==> !filed_as(ns, key, i)
                    &&& !filed_as(ns, key, k) && i < k ==> !aliased_as(ns, key, i)
                },
                None => !filed_as(ns, key, i) && !aliased_as(ns, key, i),
            }
        }),
{
    let key = key_of(target);
    let keys = all_keys(ns);
    lemma_last_stem(keys, key, keys.len() as int);
    lemma_first_where(keys, has_alias(key));
    if let Some(k) = resolved(ns, target) {
        lemma_keys(ns, key, k);
        if by_stem(keys, key, keys.len() as int) is None {
            assert(has_alias(key)(keys[k]));
        }
    }
    if 0 <= i < ns.len() {
        lemma_keys(ns, key, i);
        if by_stem(keys, key, keys.len() as int) is None {
            assert(keys[i].stem != key);
            if i < first_where(keys, has_alias(key)) {
                assert(!has_alias(key)(keys[i]));
            }
        }
    }
}

proof fn lemma_missing_in(ns: Seq<NoteView>, from: int, k: int, t: Seq<char>)
    requires
        0 <= from < ns.len() <= usize::MAX,
        0 <= k <= ns[from].links.len(),
    ensures
        missing_in(ns, from, k).contains((from as usize, t)) <==> exists|j: int|
            0 <= j < k && (#[trigger] ns[from].links[j]).target == t && t.len() > 0 && resolved(
                ns,
                t,
            ) is None,
        forall|i: int|
            0 <= i < missing_in(ns, from, k).len() ==> (#[trigger] missing_in(ns, from, k)[i]).0
                == from,
    decreases k,
{
    if k > 0 {
        lemma_missing_in(ns, from, k - 1, t);
        let a = missing_in(ns, from, k - 1);
        let b = missing_in(ns, from, k);
        let u = ns[from].links[k - 1].target;
        let x = (from as usize, t);
        if a.contains(x) {
            let i = choose|i: int| 0 <= i < a.len() && a[i] == x;
            assert(b[i] == x);
        }
        if u == t && u.len() > 0 && resolved(ns, u) is None {
            assert(b[a.len() as int] == x);
            assert(ns[from].links[k - 1].target == t);
        }
        if b.contains(x) && !a.contains(x) {
            let i = choose|i: int| 0 <= i < b.len() && b[i] == x;
            if i < a.len() {
                assert(a[i] == x);
            }
            assert(ns[from].links[k - 1].target == t);
        }
        assert forall|i: int| 0 <= i < b.len() implies (#[trigger] b[i]).0 == from by {
            if i < a.len() {
                assert(b[i] == a[i]);
            }
        }
    }
}

/// A link is listed as leading nowhere exactly where it names something and no note has that name.
pub proof fn law_a_dead_link_is_listed(ns: Seq<NoteView>, n: int, from: int, t: Seq<char>)
    requires
        0 <= from < n <= ns.len() <= usize::MAX,
    ensures
        missing(ns, n).contains((from as usize, t)) <==> exists|j: int|
            0 <= j < ns[from].links.len() && (#[trigger] ns[from].links[j]).target == t && t.len()
                > 0 && resolved(ns, t) is None,
    decreases n,
{
    let a = missing(ns, n - 1);
    let m = missing_in(ns, n - 1, ns[n - 1].links.len() as int);
    let b = missing(ns, n);
    let x = (from as usize, t);
    lemma_missing_in(ns, n - 1, ns[n - 1].links.len() as int, t);
    assert(b == a + m);
    if b.contains(x) {
        let i = choose|i: int| 0 <= i < b.len() && b[i] == x;
        if i < a.len() {
            assert(a[i] == x);
            assert(a.contains(x));
        } else {
            assert(m[i - a.len()] == x);
            assert(m.contains(x));
        }
    }
    if a.contains(x) {
        let i = choose|i: int| 0 <= i < a.len() && a[i] == x;
        assert(b[i] == x);
    }
    if m.contains(x) {
        let i = choose|i: int| 0 <= i < m.len() && m[i] == x;
        assert(b[a.len() + i] == x);
    }
    if from < n - 1 {
        law_a_dead_link_is_listed(ns, n - 1, from, t);
        if m.contains(x) {
            let i = choose|i: int| 0 <= i < m.len() && m[i] == x;
            assert(m[i].0 == n - 1);
        }
    } else {
        lemma_missing_below(ns, n - 1);
        if a.contains(x) {
            let i = choose|i: int| 0 <= i < a.len() && a[i] == x;
            assert(a[i].0 < n - 1);
        }
    }
}

proof fn lemma_missing_below(ns: Seq<NoteView>, n: int)
    requires
        0 <= n <= ns.len() <= usize::MAX,
    ensures
        forall|i: int| 0 <= i < missing(ns, n).len() ==> (#[trigger] missing(ns, n)[i]).0 < n,
    decreases n,
{
    if n > 0 {
        lemma_missing_below(ns, n - 1);
        let a = missing(ns, n - 1);
        let m = missing_in(ns, n - 1, ns[n - 1].links.len() as int);
        lemma_missing_in(ns, n - 1, ns[n - 1].links.len() as int, Seq::empty());
        let b = missing(ns, n);
        assert forall|i: int| 0 <= i < b.len() implies (#[trigger] b[i]).0 < n by {
            if i < a.len() {
                assert(b[i] == a[i]);
            } else {
                assert(b[i] == m[i - a.len()]);
            }
        }
    }
}

// -- files -------------------------------------------------------------------

/// A note keeps where it is, when it changed and how large it was from its file, and the rest from
/// its text.
pub proof fn law_a_note_is_its_file(f: FoundView, text: Seq<char>)
    ensures
        ({
            let n = note_from(f, text);
            let p = parsed(text, n.stem_spec());
            &&& n.path == f.path
            &&& n.mtime == f.mtime
            &&& n.size == f.size
            &&& n.title == p.title
            &&& n.headings == p.headings
            &&& n.tags == p.tags
            &&& n.aliases == p.aliases
            &&& n.links == p.links
        }),
{
}

/// What is walked into and what is taken: no directory that begins with a dot, none of those that
/// are somebody else's, and of files only markdown.
pub proof fn law_only_notes_are_taken(name: Seq<char>)
    ensures
        visited(name, true) != Visit::Take,
        visited(name, false) != Visit::Descend,
        begins(name, "."@) ==> visited(name, true) == Visit::Skip,
        name == "node_modules"@ || name == "target"@ || name == ".git"@ || name == ".obsidian"@
            || name == ".horde"@ || name == ".trash"@ ==> visited(name, true) == Visit::Skip,
        !begins(name, "."@) && name != "node_modules"@ && name != "target"@ && name != ".git"@
            && name != ".obsidian"@ && name != ".horde"@ && name != ".trash"@ ==> visited(
            name,
            true,
        ) == Visit::Descend,
        visited(name, false) == Visit::Take ==> extension(name) == Some("md"@),
        extension(name) == Some("md"@) && name != "node_modules"@ && name != "target"@ && name
            != ".git"@ && name != ".obsidian"@ && name != ".horde"@ && name != ".trash"@
            ==> visited(name, false) == Visit::Take,
{
}

// -- the graph ---------------------------------------------------------------

/// A note's node has its path and title, the colour of its first tag or else of its folder, and as
/// many ends as links leave it or lead to it. The unwritten notes come before the notes.
pub proof fn law_a_node_is_its_note(ns: Seq<NoteView>, rs: Seq<RefView>, i: int)
    requires
        0 <= i < ns.len(),
    ensures
        ({
            let g = ghosts(rs).len();
            let node = nodes_of(ns, rs)[g + i];
            let ends = count_where(rs, |r: RefView| r.from == i || r.to == Some(i));
            &&& nodes_of(ns, rs).len() == g + ns.len()
            &&& node.path == ns[i].path
            &&& node.label == ns[i].title
            &&& !node.is_ghost
            &&& ends < 65535 ==> node.degree == ends
            &&& ends >= 65535 ==> node.degree == 65535
            &&& ns[i].tags.len() > 0 ==> node.group == ns[i].tags[0]
            &&& ns[i].tags.len() == 0 && parent(ns[i].path) is Some && parent(
                ns[i].path,
            )->Some_0.len() > 0 ==> node.group == parent(ns[i].path)->Some_0
            &&& ns[i].tags.len() == 0 && (parent(ns[i].path) is None || parent(
                ns[i].path,
            )->Some_0.len() == 0) ==> node.group == "·"@
        }),
{
    assert(touches(i) =~= (|r: RefView| r.from == i || r.to == Some(i)));
}

/// An unwritten note's node is called what the link called it, and has as many ends as links mean
/// it.
pub proof fn law_a_ghost_is_what_was_meant(ns: Seq<NoteView>, rs: Seq<RefView>, i: int)
    requires
        0 <= i < ghosts(rs).len(),
    ensures
        ({
            let g = ghosts(rs)[i];
            let node = nodes_of(ns, rs)[i];
            let ends = count_where(rs, |r: RefView| r.to is None && r.key == g.key);
            &&& node.is_ghost
            &&& node.path.len() == 0
            &&& node.group.len() == 0
            &&& node.label == g.label
            &&& ends < 65536 ==> node.degree == ends
        }),
{
    let g = ghosts(rs)[i];
    assert(means_ghost(g.key) =~= (|r: RefView| r.to is None && r.key == g.key));
}

// -- what a note says --------------------------------------------------------

/// A target without a bar or a hash is itself; after a bar stands what is shown, and after a hash
/// the heading.
pub proof fn law_a_target_has_its_parts(a: Seq<char>, h: Seq<char>, x: Seq<char>)
    requires
        forall|i: int| 0 <= i < a.len() ==> #[trigger] a[i] != '|' && a[i] != '#' && a[i] != '\\',
        forall|i: int| 0 <= i < h.len() ==> #[trigger] h[i] != '|' && h[i] != '\\',
        forall|i: int| 0 <= i < x.len() ==> #[trigger] x[i] != '\\',
    ensures
        ({
            let plain = target_in(a);
            let headed = target_in(a + "#"@ + h);
            let shown = target_in(a + "|"@ + x);
            let both = target_in(a + "#"@ + h + "|"@ + x);
            &&& plain.target == trimmed(a) && plain.heading is None && plain.alias is None
            &&& headed.target == trimmed(a) && headed.heading == Some(trimmed(h)) && headed.alias
                is None
            &&& shown.target == trimmed(a) && shown.heading is None && shown.alias == Some(
                trimmed(x),
            )
            &&& both.target == trimmed(a) && both.heading == Some(trimmed(h)) && both.alias
                == Some(trimmed(x))
        }),
{
    reveal_strlit("#");
    reveal_strlit("|");
    let hash = "#"@;
    let bar = "|"@;
    assert(hash =~= seq!['#']);
    assert(bar =~= seq!['|']);
    let ah = a + hash + h;
    let ax = a + bar + x;
    let all = ah + bar + x;
    lemma_unescaped(a);
    lemma_unescaped(ah);
    lemma_unescaped(ax);
    lemma_unescaped(all);
    lemma_not_split(a, bar, '|');
    lemma_not_split(a, hash, '#');
    lemma_not_split(ah, bar, '|');
    lemma_split(a, x, bar, '|');
    lemma_split(a, h, hash, '#');
    lemma_split(ah, x, bar, '|');
}

proof fn lemma_unescaped(s: Seq<char>)
    requires
        forall|i: int| 0 <= i < s.len() ==> #[trigger] s[i] != '\\',
    ensures
        unescaped(s) == s,
    decreases s.len(),
{
    if s.len() > 0 {
        lemma_unescaped(s.skip(1));
        assert(s[0] != '\\');
        assert(seq![s[0]] + s.skip(1) =~= s);
    } else {
        assert(unescaped(s) =~= s);
    }
}

proof fn lemma_split(a: Seq<char>, b: Seq<char>, set: Seq<char>, c: char)
    requires
        set == seq![c],
        forall|i: int| 0 <= i < a.len() ==> #[trigger] a[i] != c,
    ensures
        split_once(a + set + b, set) == Some((a, b)),
{
    let s = a + set + b;
    assert(s[a.len() as int] == c);
    assert(set[0] == c);
    assert(set.contains(s[a.len() as int]));
    assert forall|i: int| 0 <= i < a.len() implies !set.contains(#[trigger] s[i]) by {
        assert(s[i] == a[i]);
    }
    lemma_first_of_is(s, set, a.len() as int);
    assert(s.take(a.len() as int) =~= a);
    assert(s.skip(a.len() as int + 1) =~= b);
}

proof fn lemma_not_split(a: Seq<char>, set: Seq<char>, c: char)
    requires
        set == seq![c],
        forall|i: int| 0 <= i < a.len() ==> #[trigger] a[i] != c,
    ensures
        split_once(a, set) is None,
{
    lemma_first_of_is(a, set, a.len() as int);
}

proof fn lemma_closes(cs: Seq<char>, j: int, e: int)
    requires
        0 <= j <= e,
        e + 1 < cs.len(),
        cs[e] == ']' && cs[e + 1] == ']',
        forall|k: int| j <= k < e ==> #[trigger] cs[k] != '\n' && cs[k] != ']',
    ensures
        closing(cs, j) == Some(e),
    decreases e - j,
{
    if j < e {
        assert(cs[j] != '\n' && cs[j] != ']');
        lemma_closes(cs, j + 1, e);
    }
}

proof fn lemma_no_link_before(cs: Seq<char>, i: int, k: int)
    requires
        0 <= i <= k < cs.len(),
        forall|j: int| i <= j < k ==> #[trigger] cs[j] != '[',
    ensures
        links_from(cs, i) == links_from(cs, k),
    decreases k - i,
{
    if i < k {
        assert(cs[i] != '[');
        lemma_no_link_before(cs, i + 1, k);
    }
}

/// What stands between two pairs of brackets is a link to the note of that name; after an
/// exclamation mark it is shown in place.
pub proof fn law_brackets_make_a_link(pre: Seq<char>, inner: Seq<char>, post: Seq<char>)
    requires
        forall|i: int| 0 <= i < pre.len() ==> #[trigger] pre[i] != '[',
        forall|i: int|
            0 <= i < inner.len() ==> #[trigger] inner[i] != ']' && inner[i] != '\n' && inner[i]
                != '|' && inner[i] != '#' && inner[i] != '\\',
        trimmed(inner).len() > 0,
    ensures
        ({
            let links = links_from(pre + "[["@ + inner + "]]"@ + post, 0);
            &&& links.len() > 0
            &&& links[0].target == trimmed(inner)
            &&& links[0].heading is None
            &&& links[0].embed == (pre.len() > 0 && pre.last() == '!')
        }),
{
    reveal_strlit("[[");
    reveal_strlit("]]");
    let cs = pre + "[["@ + inner + "]]"@ + post;
    let p = pre.len() as int;
    let e = p + 2 + inner.len();
    assert("[["@.len() == 2 && "]]"@.len() == 2);
    assert(cs[p] == '[' && cs[p + 1] == '[');
    assert(cs[e] == ']' && cs[e + 1] == ']');
    assert forall|k: int| p + 2 <= k < e implies #[trigger] cs[k] != '\n' && cs[k] != ']' by {
        assert(cs[k] == inner[k - p - 2]);
    }
    lemma_closes(cs, p + 2, e);
    assert forall|j: int| 0 <= j < p implies #[trigger] cs[j] != '[' by {
        assert(cs[j] == pre[j]);
    }
    lemma_no_link_before(cs, 0, p);
    assert(cs.subrange(p + 2, e) =~= inner);
    law_a_target_has_its_parts(inner, Seq::empty(), Seq::empty());
    if p > 0 {
        assert(cs[p - 1] == pre[p - 1]);
    }
}

/// Where nothing opens a bracket there is no link.
pub proof fn law_no_brackets_no_link(cs: Seq<char>, i: int)
    requires
        0 <= i <= cs.len(),
        forall|j: int| i <= j < cs.len() ==> #[trigger] cs[j] != '[',
    ensures
        links_from(cs, i).len() == 0,
    decreases cs.len() - i,
{
    if i + 1 < cs.len() {
        assert(cs[i] != '[');
        law_no_brackets_no_link(cs, i + 1);
    }
}

proof fn lemma_run(cs: Seq<char>, i: int, e: int)
    requires
        0 <= i <= e <= cs.len(),
        forall|k: int| i <= k < e ==> tag_char(#[trigger] cs[k]),
        e < cs.len() ==> !tag_char(cs[e]),
    ensures
        run_end(cs, i) == e,
    decreases e - i,
{
    if i < e {
        assert(tag_char(cs[i]));
        lemma_run(cs, i + 1, e);
    }
}

/// A hash that begins a word, with a letter behind it, makes a tag of the letters, digits, slashes,
/// dashes and underscores that follow; nothing else does.
pub proof fn law_a_hash_makes_a_tag(cs: Seq<char>, i: int, e: int)
    requires
        0 <= i < e <= cs.len(),
        forall|k: int|
            i < k < e ==> alphanumeric(#[trigger] cs[k]) || cs[k] == '/' || cs[k]
                == '-' || cs[k] == '_',
        e < cs.len() ==> !(alphanumeric(cs[e]) || cs[e] == '/' || cs[e] == '-'
            || cs[e] == '_'),
    ensures
        cs[i] == '#' && (i == 0 || is_space(cs[i - 1])) && i + 1 < e && alphabetic(cs[i + 1])
            ==> tag_at(cs, i) == Some(cs.subrange(i + 1, e)),
        tag_at(cs, i) is Some ==> cs[i] == '#' && (i == 0 || is_space(cs[i - 1])) && i + 1 < e
            && alphabetic(cs[i + 1]),
{
    lemma_run(cs, i + 1, e);
}

/// A text's tags are those that start somewhere in it.
pub proof fn law_tags_are_where_they_start(cs: Seq<char>, n: int, t: Seq<char>)
    requires
        0 <= n <= cs.len(),
    ensures
        tags_within(cs, n).contains(t) <==> exists|i: int|
            0 <= i < n && #[trigger] tag_at(cs, i) == Some(t),
    decreases n,
{
    if n > 0 {
        law_tags_are_where_they_start(cs, n - 1, t);
        let a = tags_within(cs, n - 1);
        let b = tags_within(cs, n);
        if a.contains(t) {
            let k = choose|k: int| 0 <= k < a.len() && a[k] == t;
            assert(b[k] == t);
        }
        if tag_at(cs, n - 1) == Some(t) {
            assert(b[a.len() as int] == t);
        }
        if b.contains(t) && !a.contains(t) {
            let k = choose|k: int| 0 <= k < b.len() && b[k] == t;
            if k < a.len() {
                assert(a[k] == t);
            }
            assert(tag_at(cs, n - 1) == Some(t));
        }
    }
}

/// The keys of frontmatter that count.
pub proof fn law_frontmatter_has_tags_and_aliases(key: Seq<char>)
    ensures
        bucket_of("tags"@) == Bucket::Tags,
        bucket_of("aliases"@) == Bucket::Aliases,
        bucket_of("alias"@) == Bucket::Aliases,
        key != "tags"@ && key != "aliases"@ && key != "alias"@ ==> bucket_of(key)
            == Bucket::Nothing,
{
    reveal_strlit("tags");
    reveal_strlit("aliases");
    reveal_strlit("alias");
    assert("tags"@[0] == 't');
    assert("aliases"@[0] == 'a');
    assert("alias"@[0] == 'a');
}

proof fn lemma_h1_stays(marks: Seq<MarkView>, body: Seq<char>, n: int)
    requires
        0 <= n <= marks.len(),
        body_of(marks.take(n), body).first_h1 is Some,
    ensures
        body_of(marks, body).first_h1 == body_of(marks.take(n), body).first_h1,
    decreases marks.len() - n,
{
    if n < marks.len() {
        assert(marks.take(n + 1).drop_last() =~= marks.take(n));
        assert(marks.take(n + 1).last() == marks[n]);
        lemma_h1_stays(marks, body, n + 1);
    } else {
        assert(marks.take(n) =~= marks);
    }
}

/// A note is called what its first heading of the first level says, whatever comes after.
pub proof fn law_the_first_heading_is_the_title(
    front: Option<Seq<char>>,
    body: Seq<char>,
    marks: Seq<MarkView>,
    stem: Seq<char>,
    said: Seq<char>,
)
    requires
        marks.len() >= 3,
        marks[0].kind == MarkKindView::HeadingStart(1),
        marks[1].kind == MarkKindView::Text(said),
        marks[2].kind == MarkKindView::HeadingEnd,
        trimmed(said).len() > 0,
    ensures
        note_of(front, body, marks, stem).title == trimmed(said),
{
    reveal_with_fuel(body_of, 4);
    let m1 = marks.take(1);
    let m2 = marks.take(2);
    let m3 = marks.take(3);
    assert(m3.drop_last() =~= m2);
    assert(m2.drop_last() =~= m1);
    assert(m1.drop_last() =~= Seq::<MarkView>::empty());
    assert(m1.last() == marks[0]);
    assert(m2.last() == marks[1]);
    assert(m3.last() == marks[2]);
    let b2 = body_of(m2, body);
    assert(b2.heading =~= said);
    assert(body_of(m3, body).first_h1 == Some(trimmed(said)));
    lemma_h1_stays(marks, body, 3);
}

/// And where it has no heading of the first level, it is called like its file.
pub proof fn law_without_a_heading_the_file_names_the_note(
    front: Option<Seq<char>>,
    body: Seq<char>,
    marks: Seq<MarkView>,
    stem: Seq<char>,
)
    requires
        forall|i: int|
            0 <= i < marks.len() ==> (#[trigger] marks[i]).kind != MarkKindView::HeadingStart(1),
    ensures
        note_of(front, body, marks, stem).title == stem,
{
    lemma_no_h1(marks, body);
}

proof fn lemma_no_h1(marks: Seq<MarkView>, body: Seq<char>)
    requires
        forall|i: int|
            0 <= i < marks.len() ==> (#[trigger] marks[i]).kind != MarkKindView::HeadingStart(1),
    ensures
        body_of(marks, body).first_h1 is None,
        body_of(marks, body).depth != Some(1u32),
    decreases marks.len(),
{
    if marks.len() > 0 {
        let t = marks.drop_last();
        assert forall|i: int| 0 <= i < t.len() implies (#[trigger] t[i]).kind
            != MarkKindView::HeadingStart(1) by {
            assert(t[i] == marks[i]);
        }
        lemma_no_h1(t, body);
        assert(marks[marks.len() - 1].kind != MarkKindView::HeadingStart(1));
    }
}

/// A text that does not begin with three dashes has no frontmatter.
pub proof fn law_frontmatter_begins_the_note(text: Seq<char>)
    requires
        !begins(text, "---\n"@),
    ensures
        split_note(text).front is None,
        split_note(text).body == text,
{
}

/// A note leads to another where one of its links means it. No note leads to itself.
pub proof fn law_a_link_leads_to_what_it_means(ns: Seq<NoteView>, from: int, to: int, k: int)
    requires
        0 <= k <= ns[from].links.len(),
    ensures
        leads(ns, from, to, k) <==> from != to && exists|j: int|
            0 <= j < k && (#[trigger] ns[from].links[j]).target.len() > 0 && resolved(
                ns,
                ns[from].links[j].target,
            ) == Some(to),
    decreases k,
{
    if k > 0 {
        law_a_link_leads_to_what_it_means(ns, from, to, k - 1);
        if leads(ns, from, to, k) && !leads(ns, from, to, k - 1) {
            assert(ns[from].links[k - 1].target.len() > 0);
        }
    }
}

/// The notes that link to a note are just those that lead to it.
pub proof fn law_who_links_to_a_note(ns: Seq<NoteView>, to: int, n: int, i: usize)
    requires
        0 <= n <= ns.len(),
        ns.len() <= usize::MAX,
    ensures
        linkers(ns, to, n).contains(i) <==> i < n && leads(
            ns,
            i as int,
            to,
            ns[i as int].links.len() as int,
        ),
    decreases n,
{
    if n > 0 {
        law_who_links_to_a_note(ns, to, n - 1, i);
        let before = linkers(ns, to, n - 1);
        let all = linkers(ns, to, n);
        if links_to(ns, n - 1, to) {
            assert(all.last() == (n - 1) as usize);
            if before.contains(i) {
                let k = choose|k: int| 0 <= k < before.len() && before[k] == i;
                assert(all[k] == i);
            }
            if i == n - 1 {
                assert(all[all.len() - 1] == i);
            }
            if all.contains(i) && i != n - 1 {
                let k = choose|k: int| 0 <= k < all.len() && all[k] == i;
                assert(before[k] == i);
            }
        }
    }
}

/// The items of a list are its parts, in order, without blanks and quotes around them; a part with
/// nothing in it is none.
pub proof fn law_a_list_is_its_items(parts: Seq<Seq<char>>, part: Seq<char>)
    ensures
        array_items(Seq::empty()).len() == 0,
        unquoted(trimmed(part)).len() > 0 ==> array_items(parts.push(part)) == array_items(
            parts,
        ).push(unquoted(trimmed(part))),
        unquoted(trimmed(part)).len() == 0 ==> array_items(parts.push(part)) == array_items(parts),
{
    assert(parts.push(part).drop_last() =~= parts);
    assert(parts.push(part).last() == part);
}

} // verus!
