//! The per-project note index: what is known about a vault of markdown.
//!
//! **Notes are content, the index is cache.** The notes live in a tracked directory the human
//! owns; nothing here is ever written to disk. The files are walked and read by whoever drives
//! the index, which says what it wants read and takes the texts.

use crate::notes::{parse, parsed, stem_of_target, target_stem, Note, NoteView};
use crate::paths::{
    extension, extension_in, file_stem, join_path, join_paths, parent, parent_in, stem_in,
};
use crate::seqs::{
    count_where, first_where, lemma_count_take, lemma_first_where, lemma_first_where_is,
    lemma_pick_sound, lemma_pick_take, pick,
};
use crate::text::{
    begins, contains, lowercase, occurs, opt_text, owned, same, starts_with, texts, to_lower, trim,
    trimmed,
};
use vstd::prelude::*;
use vstd::string::*;

verus! {

/// A note, by its place in the index.
pub type NoteId = usize;

/// What a directory holds to be marked as a vault.
pub const MARKER: &'static str = ".horde-vault";

/// Notes, as values.
pub open spec fn note_views(ns: Seq<Note>) -> Seq<NoteView> {
    Seq::new(ns.len(), |i: int| ns[i]@)
}

// -- names -------------------------------------------------------------------

/// The lowered names that a note answers to.
pub struct KeysView {
    pub stem: Seq<char>,
    pub aliases: Seq<Seq<char>>,
}

/// The lowered names of a note.
pub open spec fn keys_of(n: NoteView) -> KeysView {
    KeysView {
        stem: lowercase(n.stem_spec()),
        aliases: Seq::new(n.aliases.len(), |i: int| lowercase(n.aliases[i])),
    }
}

/// The lowered names of notes.
pub open spec fn all_keys(ns: Seq<NoteView>) -> Seq<KeysView> {
    Seq::new(ns.len(), |i: int| keys_of(ns[i]))
}

/// The last note, among the first `n`, whose file is named like this.
pub open spec fn by_stem(keys: Seq<KeysView>, key: Seq<char>, n: int) -> Option<int>
    decreases n,
{
    if n <= 0 {
        None
    } else if keys[n - 1].stem == key {
        Some(n - 1)
    } else {
        by_stem(keys, key, n - 1)
    }
}

/// A note with this alias.
pub open spec fn has_alias(key: Seq<char>) -> spec_fn(KeysView) -> bool {
    |k: KeysView| k.aliases.contains(key)
}

/// The note that a lowered name means: filename first, then alias. Of two files with one name
/// the later counts, and of two notes with one alias the earlier.
pub open spec fn named(keys: Seq<KeysView>, key: Seq<char>) -> Option<int> {
    match by_stem(keys, key, keys.len() as int) {
        Some(i) => Some(i),
        None => {
            let k = first_where(keys, has_alias(key));
            if k < keys.len() {
                Some(k)
            } else {
                None
            }
        },
    }
}

/// The lowered name a link target asks for.
pub open spec fn key_of(target: Seq<char>) -> Seq<char> {
    lowercase(stem_of_target(target))
}

/// The note a link target means.
pub open spec fn resolved(ns: Seq<NoteView>, target: Seq<char>) -> Option<int> {
    named(all_keys(ns), key_of(target))
}

/// The lowered names of one note.
#[derive(Debug, Clone, PartialEq, Eq)]
pub struct Keys {
    pub stem: String,
    pub aliases: Vec<String>,
}

impl View for Keys {
    type V = KeysView;

    open spec fn view(&self) -> KeysView {
        KeysView { stem: self.stem@, aliases: texts(self.aliases@) }
    }
}

/// Lowered names, as text.
pub open spec fn key_views(ks: Seq<Keys>) -> Seq<KeysView> {
    Seq::new(ks.len(), |i: int| ks[i]@)
}

/// The note that a lowered name means.
pub fn find_named(keys: &Vec<Keys>, key: &str) -> (r: Option<usize>)
    ensures
        match r {
            Some(i) => i < keys@.len() && named(key_views(keys@), key@) == Some(i as int),
            None => named(key_views(keys@), key@) is None,
        },
{
    let ghost ks = key_views(keys@);
    let mut i: usize = keys.len();
    while i > 0
        invariant
            i <= keys@.len(),
            ks == key_views(keys@),
            by_stem(ks, key@, ks.len() as int) == by_stem(ks, key@, i as int),
        decreases i,
    {
        proof {
            assert(ks[i - 1] == keys@[i - 1]@);
        }
        if same(keys[i - 1].stem.as_str(), key) {
            return Some(i - 1);
        }
        i = i - 1;
    }
    let mut k: usize = 0;
    while k < keys.len()
        invariant
            k <= keys@.len(),
            ks == key_views(keys@),
            by_stem(ks, key@, ks.len() as int) is None,
            forall|j: int| 0 <= j < k ==> !has_alias(key@)(#[trigger] ks[j]),
        decreases keys@.len() - k,
    {
        proof {
            assert(ks[k as int] == keys@[k as int]@);
        }
        if crate::tasks::listed(keys[k].aliases.as_slice(), key) {
            proof {
                lemma_first_where_is(ks, has_alias(key@), k as int);
            }
            return Some(k);
        }
        k = k + 1;
    }
    proof {
        lemma_first_where_is(ks, has_alias(key@), k as int);
    }
    None
}

/// The lowered names of notes.
fn make_keys(notes: &Vec<Note>) -> (r: Vec<Keys>)
    ensures
        key_views(r@) == all_keys(note_views(notes@)),
{
    let mut out: Vec<Keys> = Vec::new();
    let ghost ns = note_views(notes@);
    let mut i: usize = 0;
    while i < notes.len()
        invariant
            i <= notes@.len(),
            ns == note_views(notes@),
            out@.len() == i,
            forall|j: int| 0 <= j < i ==> (#[trigger] out@[j])@ == keys_of(ns[j]),
        decreases notes@.len() - i,
    {
        let n = &notes[i];
        let stem = to_lower(n.stem().as_str());
        let mut aliases: Vec<String> = Vec::new();
        let mut k: usize = 0;
        while k < n.aliases.len()
            invariant
                k <= n.aliases@.len(),
                aliases@.len() == k,
                forall|j: int|
                    0 <= j < k ==> (#[trigger] aliases@[j])@ == lowercase(n.aliases@[j]@),
            decreases n.aliases@.len() - k,
        {
            aliases.push(to_lower(n.aliases[k].as_str()));
            k = k + 1;
        }
        let keys = Keys { stem, aliases };
        proof {
            assert(keys@.aliases =~= keys_of(ns[i as int]).aliases);
        }
        out.push(keys);
        i = i + 1;
    }
    proof {
        assert(key_views(out@) =~= all_keys(ns));
    }
    out
}

// -- links between notes -----------------------------------------------------

/// Whether one of the first `k` links of a note leads to another note.
pub open spec fn leads(ns: Seq<NoteView>, from: int, to: int, k: int) -> bool
    decreases k,
{
    if k <= 0 {
        false
    } else {
        leads(ns, from, to, k - 1) || (ns[from].links[k - 1].target.len() > 0 && resolved(
            ns,
            ns[from].links[k - 1].target,
        ) == Some(to) && to != from)
    }
}

/// Whether a note links to another one.
pub open spec fn links_to(ns: Seq<NoteView>, from: int, to: int) -> bool {
    leads(ns, from, to, ns[from].links.len() as int)
}

/// The notes, among the first `n`, that link to this one.
pub open spec fn linkers(ns: Seq<NoteView>, to: int, n: int) -> Seq<usize>
    decreases n,
{
    if n <= 0 {
        Seq::empty()
    } else if links_to(ns, n - 1, to) {
        linkers(ns, to, n - 1).push((n - 1) as usize)
    } else {
        linkers(ns, to, n - 1)
    }
}

/// The links, among the first `k` of a note, that match nothing.
pub open spec fn missing_in(ns: Seq<NoteView>, from: int, k: int) -> Seq<(usize, Seq<char>)>
    decreases k,
{
    if k <= 0 {
        Seq::empty()
    } else {
        let t = ns[from].links[k - 1].target;
        if t.len() > 0 && resolved(ns, t) is None {
            missing_in(ns, from, k - 1).push((from as usize, t))
        } else {
            missing_in(ns, from, k - 1)
        }
    }
}

/// The links of the first `n` notes that match nothing.
pub open spec fn missing(ns: Seq<NoteView>, n: int) -> Seq<(usize, Seq<char>)>
    decreases n,
{
    if n <= 0 {
        Seq::empty()
    } else {
        missing(ns, n - 1) + missing_in(ns, n - 1, ns[n - 1].links.len() as int)
    }
}

/// Links that match nothing, as text.
pub open spec fn missing_views(v: Seq<(usize, String)>) -> Seq<(usize, Seq<char>)> {
    Seq::new(v.len(), |i: int| (v[i].0, v[i].1@))
}

/// The whole vault.
pub struct Index {
    pub root: String,
    pub notes: Vec<Note>,
    /// The lowered names that each note answers to.
    pub keys: Vec<Keys>,
    /// For each note, those that link to it.
    pub back: Vec<Vec<usize>>,
    /// Link targets that match nothing: the graph's ghosts, and a decent spell-check.
    pub unresolved: Vec<(NoteId, String)>,
}

impl Index {
    /// The notes, as values.
    pub open spec fn view_notes(&self) -> Seq<NoteView> {
        note_views(self.notes@)
    }

    /// What is derived from the notes is what the notes say.
    pub open spec fn wf(&self) -> bool {
        let ns = self.view_notes();
        &&& key_views(self.keys@) == all_keys(ns)
        &&& self.back@.len() == ns.len()
        &&& forall|to: int|
            0 <= to < ns.len() ==> (#[trigger] self.back@[to])@ == linkers(
                ns,
                to,
                ns.len() as int,
            )
        &&& missing_views(self.unresolved@) == missing(ns, ns.len() as int)
    }

    /// An empty index of a vault.
    pub fn new(root: String) -> (r: Index)
        ensures
            r.root@ == root@,
            r.notes@.len() == 0,
            r.wf(),
    {
        let r = Index {
            root,
            notes: Vec::new(),
            keys: Vec::new(),
            back: Vec::new(),
            unresolved: Vec::new(),
        };
        proof {
            assert(key_views(r.keys@) =~= all_keys(r.view_notes()));
            assert(missing_views(r.unresolved@) =~= missing(r.view_notes(), 0));
        }
        r
    }

    /// How many notes there are.
    pub fn len(&self) -> (r: usize)
        ensures
            r == self.notes@.len(),
    {
        self.notes.len()
    }

    /// One note.
    pub fn note(&self, id: NoteId) -> (r: Option<&Note>)
        ensures
            match r {
                Some(n) => id < self.notes@.len() && *n == self.notes@[id as int],
                None => id >= self.notes@.len(),
            },
    {
        if id < self.notes.len() {
            Some(&self.notes[id])
        } else {
            None
        }
    }

    /// Resolve a link target: filename first, then alias.
    pub fn resolve(&self, target: &str) -> (r: Option<NoteId>)
        requires
            self.wf(),
        ensures
            match r {
                Some(i) => i < self.notes@.len() && resolved(self.view_notes(), target@) == Some(
                    i as int,
                ),
                None => resolved(self.view_notes(), target@) is None,
            },
    {
        let stem = target_stem(target);
        let key = to_lower(stem.as_str());
        find_named(&self.keys, key.as_str())
    }

    /// Notes that link to this one.
    pub fn backlinks(&self, id: NoteId) -> (r: &[NoteId])
        requires
            self.wf(),
        ensures
            r@ == (if id < self.notes@.len() {
                linkers(self.view_notes(), id as int, self.notes@.len() as int)
            } else {
                Seq::empty()
            }),
    {
        if id < self.back.len() {
            self.back[id].as_slice()
        } else {
            let none: &[NoteId] = &[];
            proof {
                assert(none@ =~= Seq::<usize>::empty());
            }
            none
        }
    }

    /// Rebuild the name maps and backlinks from `notes`.
    ///
    /// Total rather than incremental: a link whose *target* was renamed has to be reconsidered
    /// even though the file holding it never changed.
    pub fn reindex(&mut self)
        ensures
            final(self).root == old(self).root,
            final(self).notes == old(self).notes,
            final(self).wf(),
    {
        let keys = make_keys(&self.notes);
        let ghost ns = note_views(self.notes@);
        let n: usize = self.notes.len();
        let mut back: Vec<Vec<usize>> = Vec::new();
        let mut unresolved: Vec<(NoteId, String)> = Vec::new();
        let mut i: usize = 0;
        while i < n
            invariant
                i <= n,
                back@.len() == i,
                forall|to: int| 0 <= to < i ==> (#[trigger] back@[to])@ == linkers(ns, to, 0),
            decreases n - i,
        {
            let none: Vec<usize> = Vec::new();
            proof {
                assert(none@ =~= linkers(ns, i as int, 0));
            }
            back.push(none);
            i = i + 1;
        }
        let mut from: usize = 0;
        proof {
            assert(missing_views(unresolved@) =~= missing(ns, 0));
        }
        while from < n
            invariant
                n == ns.len(),
                n == self.notes@.len(),
                ns == note_views(self.notes@),
                key_views(keys@) == all_keys(ns),
                from <= n,
                back@.len() == n,
                forall|to: int|
                    0 <= to < n ==> (#[trigger] back@[to])@ == linkers(ns, to, from as int),
                missing_views(unresolved@) == missing(ns, from as int),
            decreases n - from,
        {
            let note = &self.notes[from];
            let ghost start = missing(ns, from as int);
            let mut k: usize = 0;
            proof {
                assert(ns[from as int] == note@);
                assert(start + missing_in(ns, from as int, 0) =~= start);
            }
            while k < note.links.len()
                invariant
                    n == ns.len(),
                    from < n,
                    ns[from as int] == note@,
                    k <= note.links@.len(),
                    key_views(keys@) == all_keys(ns),
                    back@.len() == n,
                    forall|to: int|
                        0 <= to < n ==> (#[trigger] back@[to])@ == (if leads(
                            ns,
                            from as int,
                            to,
                            k as int,
                        ) {
                            linkers(ns, to, from as int).push(from)
                        } else {
                            linkers(ns, to, from as int)
                        }),
                    missing_views(unresolved@) == start + missing_in(ns, from as int, k as int),
                decreases note.links@.len() - k,
            {
                let l = &note.links[k];
                proof {
                    assert(ns[from as int].links[k as int] == l@);
                }
                // An empty target is a link to a heading of the same note.
                if !l.target.as_str().is_empty() {
                    let stem = target_stem(l.target.as_str());
                    let key = to_lower(stem.as_str());
                    match find_named(&keys, key.as_str()) {
                        Some(to) => {
                            proof {
                                assert(keys@.len() == key_views(keys@).len());
                            }
                            if to != from {
                                let m: usize = back[to].len();
                                let known = m > 0 && back[to][m - 1] == from;
                                let ghost before = back@;
                                proof {
                                    lemma_linkers_below(ns, to as int, from as int);
                                    if !leads(ns, from as int, to as int, k as int) {
                                        assert(!known);
                                    } else {
                                        assert(before[to as int]@.last() == from);
                                    }
                                }
                                if !known {
                                    let mut list: Vec<usize> = back[to].clone();
                                    proof {
                                        assert(list@ =~= before[to as int]@);
                                    }
                                    list.push(from);
                                    back.set(to, list);
                                    proof {
                                        assert(back@[to as int]@ =~= linkers(
                                            ns,
                                            to as int,
                                            from as int,
                                        ).push(from));
                                    }
                                }
                                proof {
                                    assert forall|t: int| 0 <= t < n implies (
                                    #[trigger] back@[t])@ == (if leads(
                                        ns,
                                        from as int,
                                        t,
                                        k as int + 1,
                                    ) {
                                        linkers(ns, t, from as int).push(from)
                                    } else {
                                        linkers(ns, t, from as int)
                                    }) by {
                                        if t != to {
                                            assert(back@[t]@ == before[t]@);
                                        }
                                    }
                                }
                            }
                        },
                        None => {
                            let ghost had = missing_views(unresolved@);
                            unresolved.push((from, l.target.clone()));
                            proof {
                                assert(missing_views(unresolved@) =~= had.push(
                                    (from, l.target@),
                                ));
                                assert(had.push((from, l.target@)) =~= start + missing_in(
                                    ns,
                                    from as int,
                                    k as int + 1,
                                ));
                            }
                        },
                    }
                }
                k = k + 1;
            }
            proof {
                assert forall|to: int| 0 <= to < n implies (#[trigger] back@[to])@ == linkers(
                    ns,
                    to,
                    from as int + 1,
                ) by {
                    assert(links_to(ns, from as int, to) == leads(ns, from as int, to, k as int));
                }
            }
            from = from + 1;
        }
        self.keys = keys;
        self.back = back;
        self.unresolved = unresolved;
    }
}

/// Every note among the first `n` that links here is among the first `n`.
proof fn lemma_linkers_below(ns: Seq<NoteView>, to: int, n: int)
    requires
        n <= usize::MAX,
    ensures
        forall|i: int| 0 <= i < linkers(ns, to, n).len() ==> #[trigger] linkers(ns, to, n)[i] < n,
        forall|i: int, j: int|
            0 <= i < j < linkers(ns, to, n).len() ==> #[trigger] linkers(ns, to, n)[i]
                < #[trigger] linkers(ns, to, n)[j],
    decreases n,
{
    if n > 0 {
        lemma_linkers_below(ns, to, n - 1);
        let a = linkers(ns, to, n - 1);
        let b = linkers(ns, to, n);
        assert forall|i: int| 0 <= i < b.len() implies #[trigger] b[i] < n by {
            if i < a.len() {
                assert(b[i] == a[i]);
            }
        }
        assert forall|i: int, j: int| 0 <= i < j < b.len() implies #[trigger] b[i]
            < #[trigger] b[j] by {
            assert(b[i] == a[i]);
            if j < a.len() {
                assert(b[j] == a[j]);
            }
        }
    }
}

// -- search ------------------------------------------------------------------

/// Whether any of the texts, lowered, holds `q`.
pub open spec fn any_holds(tags: Seq<Seq<char>>, q: Seq<char>) -> bool {
    exists|i: int| 0 <= i < tags.len() && occurs(#[trigger] tags[i], q)
}

/// How well a note with these lowered names answers a lowered query: exactly, from its start,
/// somewhere inside, by a tag, or not at all.
pub open spec fn rank_of(
    title: Seq<char>,
    stem: Seq<char>,
    tags: Seq<Seq<char>>,
    q: Seq<char>,
) -> Option<u8> {
    if q.len() == 0 || title == q || stem == q {
        Some(0)
    } else if begins(title, q) || begins(stem, q) {
        Some(1)
    } else if occurs(title, q) || occurs(stem, q) {
        Some(2)
    } else if any_holds(tags, q) {
        Some(3)
    } else {
        None
    }
}

/// How well a note with these lowered names answers a lowered query.
pub fn rank_lowered(title: &str, stem: &str, tags: &Vec<String>, q: &str) -> (r: Option<u8>)
    ensures
        r == rank_of(title@, stem@, texts(tags@), q@),
{
    if q.is_empty() || same(title, q) || same(stem, q) {
        return Some(0);
    }
    if starts_with(title, q) || starts_with(stem, q) {
        return Some(1);
    }
    if contains(title, q) || contains(stem, q) {
        return Some(2);
    }
    if any_tag_holds(tags, q) {
        Some(3)
    } else {
        None
    }
}

/// Whether any of the texts holds `q`.
fn any_tag_holds(tags: &Vec<String>, q: &str) -> (r: bool)
    ensures
        r == any_holds(texts(tags@), q@),
{
    let mut i: usize = 0;
    while i < tags.len()
        invariant
            i <= tags@.len(),
            forall|j: int| 0 <= j < i ==> !occurs(#[trigger] texts(tags@)[j], q@),
        decreases tags@.len() - i,
    {
        if contains(tags[i].as_str(), q) {
            proof {
                assert(occurs(texts(tags@)[i as int], q@));
            }
            return true;
        }
        i = i + 1;
    }
    false
}

/// Texts, lowered.
pub open spec fn lowered(s: Seq<Seq<char>>) -> Seq<Seq<char>> {
    Seq::new(s.len(), |i: int| lowercase(s[i]))
}

/// How well a note answers a lowered query.
pub open spec fn note_rank(n: NoteView, q: Seq<char>) -> Option<u8> {
    rank_of(lowercase(n.title), lowercase(n.stem_spec()), lowered(n.tags), q)
}

/// Whether one hit comes before another: the better match, then the newer note, then the
/// earlier one.
pub open spec fn hit_before(ns: Seq<NoteView>, q: Seq<char>, a: usize, b: usize) -> bool {
    let ra = note_rank(ns[a as int], q)->Some_0;
    let rb = note_rank(ns[b as int], q)->Some_0;
    let ma = ns[a as int].mtime;
    let mb = ns[b as int].mtime;
    ra < rb || (ra == rb && (ma > mb || (ma == mb && a < b)))
}

/// The notes that answer a query, in order: all that do, and no others.
pub open spec fn hits(ns: Seq<NoteView>, q: Seq<char>, r: Seq<usize>) -> bool {
    &&& forall|x: usize| #[trigger] r.contains(x) <==> x < ns.len() && note_rank(ns[x as int], q) is Some
    &&& forall|i: int, j: int|
        0 <= i < j < r.len() ==> hit_before(ns, q, #[trigger] r[i], #[trigger] r[j])
}

impl Index {
    /// Notes whose title, stem or tags contain `q`, best matches first; all of them, newest
    /// first, for an empty query.
    pub fn search(&self, q: &str) -> (r: Vec<NoteId>)
        ensures
            hits(self.view_notes(), lowercase(trimmed(q@)), r@),
    {
        let q = trim(q);
        let low = to_lower(q.as_str());
        self.search_lowered(low.as_str())
    }

    /// [`Index::search`], for a query that has been trimmed and lowered.
    pub fn search_lowered(&self, q: &str) -> (r: Vec<NoteId>)
        ensures
            hits(self.view_notes(), q@, r@),
    {
        let ghost ns = self.view_notes();
        let mut out: Vec<NoteId> = Vec::new();
        let mut ranks: Vec<u8> = Vec::new();
        let mut i: usize = 0;
        while i < self.notes.len()
            invariant
                i <= self.notes@.len(),
                ns == self.view_notes(),
                ranks@.len() == out@.len(),
                forall|k: int|
                    0 <= k < out@.len() ==> #[trigger] out@[k] < i && note_rank(
                        ns[out@[k] as int],
                        q@,
                    ) == Some(ranks@[k]),
                forall|x: usize|
                    x < i && note_rank(ns[x as int], q@) is Some ==> #[trigger] out@.contains(x),
                forall|a: int, b: int|
                    0 <= a < b < out@.len() ==> hit_before(
                        ns,
                        q@,
                        #[trigger] out@[a],
                        #[trigger] out@[b],
                    ),
            decreases self.notes@.len() - i,
        {
            let n = &self.notes[i];
            proof {
                assert(ns[i as int] == n@);
            }
            let title = to_lower(n.title.as_str());
            let stem = to_lower(n.stem().as_str());
            let mut tags: Vec<String> = Vec::new();
            let mut t: usize = 0;
            while t < n.tags.len()
                invariant
                    t <= n.tags@.len(),
                    tags@.len() == t,
                    forall|j: int| 0 <= j < t ==> (#[trigger] tags@[j])@ == lowercase(n.tags@[j]@),
                decreases n.tags@.len() - t,
            {
                tags.push(to_lower(n.tags[t].as_str()));
                t = t + 1;
            }
            proof {
                assert(texts(tags@) =~= lowered(n@.tags));
            }
            let ghost had = out@;
            let ghost had_ranks = ranks@;
            match rank_lowered(title.as_str(), stem.as_str(), &tags, q) {
                Some(rank) => {
                    // Behind every hit that is as good and as new, so that ties keep their order.
                    let mut k: usize = 0;
                    while k < out.len() && (ranks[k] < rank || (ranks[k] == rank
                        && self.notes[out[k]].mtime >= n.mtime))
                        invariant
                            k <= out@.len(),
                            i < self.notes@.len(),
                            ns == self.view_notes(),
                            ns[i as int] == n@,
                            out@ == had,
                            ranks@.len() == out@.len(),
                            note_rank(ns[i as int], q@) == Some(rank),
                            forall|k: int|
                                0 <= k < out@.len() ==> #[trigger] out@[k] < i && note_rank(
                                    ns[out@[k] as int],
                                    q@,
                                ) == Some(ranks@[k]),
                            forall|a: int|
                                0 <= a < k ==> hit_before(ns, q@, #[trigger] had[a], i),
                        decreases out@.len() - k,
                    {
                        proof {
                            assert(ns[had[k as int] as int] == self.notes@[had[k as int] as int]@);
                        }
                        k = k + 1;
                    }
                    proof {
                        if k < had.len() {
                            assert(ns[had[k as int] as int] == self.notes@[had[k as int] as int]@);
                            assert(hit_before(ns, q@, i, had[k as int]));
                        }
                    }
                    out.insert(k, i);
                    ranks.insert(k, rank);
                    proof {
                        had.insert_ensures(k as int, i);
                        let now = out@;
                        assert forall|a: int| 0 <= a < now.len() implies #[trigger] now[a] < i + 1
                            && note_rank(ns[now[a] as int], q@) == Some(ranks@[a]) by {
                            if a < k {
                                assert(now[a] == had[a]);
                                assert(ranks@[a] == had_ranks[a]);
                            } else if a > k {
                                assert(now[a] == had[a - 1]);
                                assert(ranks@[a] == had_ranks[a - 1]);
                            }
                        }
                        assert forall|x: usize|
                            x < i + 1 && note_rank(ns[x as int], q@) is Some implies #[trigger] now.contains(
                            x,
                        ) by {
                            if x == i {
                                assert(now[k as int] == x);
                            } else {
                                assert(had.contains(x));
                                let a = choose|a: int| 0 <= a < had.len() && had[a] == x;
                                if a < k {
                                    assert(now[a] == x);
                                } else {
                                    assert(now[a + 1] == x);
                                }
                            }
                        }
                        assert forall|a: int, b: int| 0 <= a < b < now.len() implies hit_before(
                            ns,
                            q@,
                            #[trigger] now[a],
                            #[trigger] now[b],
                        ) by {
                            if b < k {
                                assert(now[a] == had[a] && now[b] == had[b]);
                            } else if b == k {
                                assert(now[a] == had[a]);
                            } else if a < k {
                                assert(now[a] == had[a] && now[b] == had[b - 1]);
                            } else if a == k {
                                assert(now[b] == had[b - 1]);
                                if b - 1 > k {
                                    assert(hit_before(ns, q@, had[k as int], had[b - 1]));
                                }
                            } else {
                                assert(now[a] == had[a - 1] && now[b] == had[b - 1]);
                            }
                        }
                    }
                },
                None => {},
            }
            i = i + 1;
        }
        proof {
            assert forall|x: usize| #[trigger] out@.contains(x) implies x < ns.len() && note_rank(
                ns[x as int],
                q@,
            ) is Some by {
                let a = choose|a: int| 0 <= a < out@.len() && out@[a] == x;
                assert(out@[a] < i);
            }
        }
        out
    }
}

// -- the graph ---------------------------------------------------------------

/// One note of the graph, or a note somebody meant to write.
#[derive(Debug, Clone, PartialEq, Eq)]
pub struct GraphNode {
    pub path: String,
    pub label: String,
    pub degree: u16,
    pub group: String,
    pub is_ghost: bool,
}

/// A node, as values.
pub struct GraphNodeView {
    pub path: Seq<char>,
    pub label: Seq<char>,
    pub degree: u16,
    pub group: Seq<char>,
    pub is_ghost: bool,
}

impl View for GraphNode {
    type V = GraphNodeView;

    open spec fn view(&self) -> GraphNodeView {
        GraphNodeView {
            path: self.path@,
            label: self.label@,
            degree: self.degree,
            group: self.group@,
            is_ghost: self.is_ghost,
        }
    }
}

/// The link graph: the ghosts first, then the notes, and the links between them.
#[derive(Debug, Clone, PartialEq, Eq)]
pub struct VaultGraph {
    pub nodes: Vec<GraphNode>,
    pub edges: Vec<(u16, u16)>,
}

/// Nodes, as values.
pub open spec fn node_views(v: Seq<GraphNode>) -> Seq<GraphNodeView> {
    Seq::new(v.len(), |i: int| v[i]@)
}

/// A link that leads somewhere else: to another note, or to one that is not written.
pub struct RefView {
    pub from: int,
    pub to: Option<int>,
    pub key: Seq<char>,
    pub label: Seq<char>,
}

/// The link `k` of a note, unless it stays in the note.
pub open spec fn ref_of(ns: Seq<NoteView>, from: int, k: int) -> Option<RefView> {
    let t = ns[from].links[k].target;
    let to = resolved(ns, t);
    if t.len() == 0 || to == Some(from) {
        None
    } else {
        Some(RefView { from, to, key: key_of(t), label: t })
    }
}

/// The first `k` links of a note that lead somewhere else.
pub open spec fn refs_in(ns: Seq<NoteView>, from: int, k: int) -> Seq<RefView>
    decreases k,
{
    if k <= 0 {
        Seq::empty()
    } else {
        match ref_of(ns, from, k - 1) {
            Some(r) => refs_in(ns, from, k - 1).push(r),
            None => refs_in(ns, from, k - 1),
        }
    }
}

/// The links of the first `n` notes that lead somewhere else, in order.
pub open spec fn refs(ns: Seq<NoteView>, n: int) -> Seq<RefView>
    decreases n,
{
    if n <= 0 {
        Seq::empty()
    } else {
        refs(ns, n - 1) + refs_in(ns, n - 1, ns[n - 1].links.len() as int)
    }
}

/// A note that somebody meant to write.
pub struct GhostView {
    pub key: Seq<char>,
    pub label: Seq<char>,
}

/// A ghost of this name.
pub open spec fn ghost_named(key: Seq<char>) -> spec_fn(GhostView) -> bool {
    |g: GhostView| g.key == key
}

/// The unwritten notes, each once, in the order they are first meant. Several links to the
/// same one share it.
pub open spec fn ghosts(rs: Seq<RefView>) -> Seq<GhostView>
    decreases rs.len(),
{
    if rs.len() == 0 {
        Seq::empty()
    } else {
        let before = ghosts(rs.drop_last());
        let r = rs.last();
        if r.to is None && first_where(before, ghost_named(r.key)) == before.len() {
            before.push(GhostView { key: r.key, label: r.label })
        } else {
            before
        }
    }
}

/// A link from this note or to it.
pub open spec fn touches(i: int) -> spec_fn(RefView) -> bool {
    |r: RefView| r.from == i || r.to == Some(i)
}

/// A link to the unwritten note of this name.
pub open spec fn means_ghost(key: Seq<char>) -> spec_fn(RefView) -> bool {
    |r: RefView| r.to is None && r.key == key
}

/// A number of links, as far as a node can say it.
pub open spec fn capped(n: nat) -> u16 {
    if n < 0xffff {
        n as u16
    } else {
        0xffff
    }
}

/// The colour of a note: its first tag, or its folder, or a dot.
pub open spec fn group_of(n: NoteView) -> Seq<char> {
    if n.tags.len() > 0 {
        n.tags[0]
    } else {
        match parent(n.path) {
            Some(p) if p.len() > 0 => p,
            _ => "·"@,
        }
    }
}

/// The nodes of the graph: the ghosts, then the notes.
pub open spec fn nodes_of(ns: Seq<NoteView>, rs: Seq<RefView>) -> Seq<GraphNodeView> {
    let gs = ghosts(rs);
    Seq::new(
        gs.len() + ns.len(),
        |i: int|
            if i < gs.len() {
                GraphNodeView {
                    path: Seq::empty(),
                    label: gs[i].label,
                    degree: (count_where(rs, means_ghost(gs[i].key)) % 0x10000) as u16,
                    group: Seq::empty(),
                    is_ghost: true,
                }
            } else {
                let n = ns[i - gs.len()];
                GraphNodeView {
                    path: n.path,
                    label: n.title,
                    degree: capped(count_where(rs, touches(i - gs.len()))),
                    group: group_of(n),
                    is_ghost: false,
                }
            },
    )
}

/// A node's number, as an edge writes it.
pub open spec fn node_number(i: int) -> u16 {
    (i % 0x10000) as u16
}

/// The edge that a link makes.
pub open spec fn edge_of(gs: Seq<GhostView>, r: RefView) -> (u16, u16) {
    (
        node_number(r.from + gs.len()),
        match r.to {
            Some(to) => node_number(to + gs.len()),
            None => node_number(first_where(gs, ghost_named(r.key))),
        },
    )
}

/// Whether one edge comes before another.
pub open spec fn edge_before(a: (u16, u16), b: (u16, u16)) -> bool {
    a.0 < b.0 || (a.0 == b.0 && a.1 < b.1)
}

/// Whether a list of edges is the links', each once and in order.
pub open spec fn edges_of(rs: Seq<RefView>, es: Seq<(u16, u16)>) -> bool {
    let gs = ghosts(rs);
    &&& forall|i: int, j: int|
        0 <= i < j < es.len() ==> edge_before(#[trigger] es[i], #[trigger] es[j])
    &&& forall|i: int| 0 <= i < rs.len() ==> es.contains(edge_of(gs, #[trigger] rs[i]))
    &&& forall|k: int|
        0 <= k < es.len() ==> exists|i: int|
            0 <= i < rs.len() && #[trigger] edge_of(gs, rs[i]) == #[trigger] es[k]
}

/// A link, by the numbers of its ends: a ghost's, or a note's.
#[derive(Debug, Clone, Copy, PartialEq, Eq, Structural)]
struct Ref {
    from: usize,
    to: usize,
    is_ghost: bool,
}

/// Whether a link, by numbers, is the link.
spec fn ref_matches(r: Ref, v: RefView, gs: Seq<GhostView>) -> bool {
    &&& r.from == v.from
    &&& r.is_ghost == (v.to is None)
    &&& (if r.is_ghost {
        r.to < gs.len() && r.to == first_where(gs, ghost_named(v.key))
    } else {
        v.to == Some(r.to as int)
    })
}

/// What has been gathered of the graph.
struct Gathered {
    refs: Vec<Ref>,
    keys: Vec<String>,
    labels: Vec<String>,
}

spec fn ghost_views(keys: Seq<String>, labels: Seq<String>) -> Seq<GhostView> {
    Seq::new(keys.len(), |i: int| GhostView { key: keys[i]@, label: labels[i]@ })
}

spec fn gathered(g: Gathered, rs: Seq<RefView>) -> bool {
    &&& g.keys@.len() == g.labels@.len()
    &&& ghost_views(g.keys@, g.labels@) == ghosts(rs)
    &&& g.refs@.len() == rs.len()
    &&& forall|i: int|
        0 <= i < rs.len() ==> ref_matches(#[trigger] g.refs@[i], rs[i], ghosts(rs))
}

/// One more ghost does not change which number an earlier one has.
proof fn lemma_ghost_number_stays(gs: Seq<GhostView>, more: Seq<GhostView>, key: Seq<char>)
    requires
        gs.len() <= more.len(),
        more.take(gs.len() as int) == gs,
        first_where(gs, ghost_named(key)) < gs.len(),
    ensures
        first_where(more, ghost_named(key)) == first_where(gs, ghost_named(key)),
{
    let p = ghost_named(key);
    lemma_first_where(gs, p);
    let k = first_where(gs, p);
    assert forall|i: int| 0 <= i < k implies !p(#[trigger] more[i]) by {
        assert(more[i] == gs[i]);
    }
    assert(more[k] == gs[k]);
    lemma_first_where_is(more, p, k);
}

/// The number of the ghost of this name.
fn ghost_number(keys: &Vec<String>, labels: &Vec<String>, key: &str) -> (r: usize)
    requires
        keys@.len() == labels@.len(),
    ensures
        r <= keys@.len(),
        r == first_where(ghost_views(keys@, labels@), ghost_named(key@)),
{
    let ghost gs = ghost_views(keys@, labels@);
    let mut i: usize = 0;
    while i < keys.len() && !same(keys[i].as_str(), key)
        invariant
            i <= keys@.len(),
            gs == ghost_views(keys@, labels@),
            forall|j: int| 0 <= j < i ==> !ghost_named(key@)(#[trigger] gs[j]),
        decreases keys@.len() - i,
    {
        i = i + 1;
    }
    proof {
        lemma_first_where_is(gs, ghost_named(key@), i as int);
    }
    i
}

impl Index {
    /// Every link that leads somewhere else, and every note that is not written.
    fn gather(&self) -> (r: Gathered)
        requires
            self.wf(),
        ensures
            gathered(r, refs(self.view_notes(), self.notes@.len() as int)),
            forall|i: int|
                0 <= i < r.refs@.len() ==> (#[trigger] r.refs@[i]).from < self.notes@.len() && (
                r.refs@[i].is_ghost || r.refs@[i].to < self.notes@.len()),
    {
        let ghost ns = self.view_notes();
        let mut g = Gathered { refs: Vec::new(), keys: Vec::new(), labels: Vec::new() };
        let mut from: usize = 0;
        proof {
            assert(ghost_views(g.keys@, g.labels@) =~= ghosts(refs(ns, 0)));
        }
        while from < self.notes.len()
            invariant
                from <= self.notes@.len(),
                self.wf(),
                ns == self.view_notes(),
                gathered(g, refs(ns, from as int)),
                forall|i: int|
                    0 <= i < g.refs@.len() ==> (#[trigger] g.refs@[i]).from < self.notes@.len()
                        && (g.refs@[i].is_ghost || g.refs@[i].to < self.notes@.len()),
            decreases self.notes@.len() - from,
        {
            let note = &self.notes[from];
            let ghost start = refs(ns, from as int);
            let mut k: usize = 0;
            proof {
                assert(ns[from as int] == note@);
                assert(start + refs_in(ns, from as int, 0) =~= start);
            }
            while k < note.links.len()
                invariant
                    from < self.notes@.len(),
                    self.wf(),
                    ns == self.view_notes(),
                    ns[from as int] == note@,
                    k <= note.links@.len(),
                    gathered(g, start + refs_in(ns, from as int, k as int)),
                    forall|i: int|
                        0 <= i < g.refs@.len() ==> (#[trigger] g.refs@[i]).from < self.notes@.len()
                            && (g.refs@[i].is_ghost || g.refs@[i].to < self.notes@.len()),
                decreases note.links@.len() - k,
            {
                let l = &note.links[k];
                let ghost so_far = start + refs_in(ns, from as int, k as int);
                let ghost g0 = g;
                proof {
                    assert(ns[from as int].links[k as int] == l@);
                }
                if !l.target.as_str().is_empty() {
                    match self.resolve(l.target.as_str()) {
                        Some(to) => {
                            if to != from {
                                g.refs.push(Ref { from, to, is_ghost: false });
                                proof {
                                    let r = ref_of(ns, from as int, k as int)->Some_0;
                                    let now = start + refs_in(ns, from as int, k as int + 1);
                                    assert(now =~= so_far.push(r));
                                    assert(now.drop_last() =~= so_far);
                                    assert(ghosts(now) == ghosts(so_far));
                                }
                            }
                        },
                        None => {
                            let stem = target_stem(l.target.as_str());
                            let key = to_lower(stem.as_str());
                            let at: usize = ghost_number(&g.keys, &g.labels, key.as_str());
                            let ghost gs = ghosts(so_far);
                            let ghost r = ref_of(ns, from as int, k as int)->Some_0;
                            let ghost now = start + refs_in(ns, from as int, k as int + 1);
                            proof {
                                assert(now =~= so_far.push(r));
                                assert(now.drop_last() =~= so_far);
                            }
                            if at == g.keys.len() {
                                g.keys.push(key);
                                g.labels.push(l.target.clone());
                            }
                            g.refs.push(Ref { from, to: at, is_ghost: true });
                            proof {
                                let more = ghosts(now);
                                assert(ghost_views(g.keys@, g.labels@) =~= more);
                                assert(more.take(gs.len() as int) =~= gs);
                                if at == gs.len() {
                                    assert forall|i: int| 0 <= i < at implies !ghost_named(r.key)(
                                        #[trigger] more[i],
                                    ) by {
                                        lemma_first_where(gs, ghost_named(r.key));
                                        assert(more[i] == gs[i]);
                                    }
                                    lemma_first_where_is(more, ghost_named(r.key), at as int);
                                }
                                assert forall|i: int| 0 <= i < now.len() implies ref_matches(
                                    #[trigger] g.refs@[i],
                                    now[i],
                                    more,
                                ) by {
                                    if i < so_far.len() {
                                        assert(g.refs@[i] == g0.refs@[i]);
                                        assert(ref_matches(g0.refs@[i], so_far[i], gs));
                                        if g.refs@[i].is_ghost {
                                            lemma_ghost_number_stays(gs, more, so_far[i].key);
                                        }
                                    }
                                }
                            }
                        },
                    }
                }
                proof {
                    if ref_of(ns, from as int, k as int) is None {
                        assert(refs_in(ns, from as int, k as int + 1) =~= refs_in(
                            ns,
                            from as int,
                            k as int,
                        ));
                    }
                }
                k = k + 1;
            }
            from = from + 1;
        }
        g
    }
}

/// No two ghosts have one name.
pub proof fn lemma_ghosts_distinct(rs: Seq<RefView>)
    ensures
        forall|i: int, j: int|
            0 <= i < j < ghosts(rs).len() ==> (#[trigger] ghosts(rs)[i]).key != (
            #[trigger] ghosts(rs)[j]).key,
    decreases rs.len(),
{
    if rs.len() > 0 {
        lemma_ghosts_distinct(rs.drop_last());
        let before = ghosts(rs.drop_last());
        let now = ghosts(rs);
        let p = ghost_named(rs.last().key);
        lemma_first_where(before, p);
        assert forall|i: int, j: int| 0 <= i < j < now.len() implies (#[trigger] now[i]).key != (
        #[trigger] now[j]).key by {
            assert(now[i] == before[i]);
            if j < before.len() {
                assert(now[j] == before[j]);
            } else {
                assert(!p(before[i]));
            }
        }
    }
}

/// A node's number, as an edge writes it.
fn number_node(i: usize, shift: usize) -> (r: u16)
    ensures
        r == node_number(i + shift),
{
    ((i as u128 + shift as u128) % 0x10000) as u16
}

/// Put an edge in its place, unless it is there.
fn insert_edge(es: &mut Vec<(u16, u16)>, e: (u16, u16))
    requires
        forall|i: int, j: int|
            0 <= i < j < old(es)@.len() ==> edge_before(
                #[trigger] old(es)@[i],
                #[trigger] old(es)@[j],
            ),
    ensures
        forall|i: int, j: int|
            0 <= i < j < final(es)@.len() ==> edge_before(
                #[trigger] final(es)@[i],
                #[trigger] final(es)@[j],
            ),
        forall|x: (u16, u16)| #[trigger]
            final(es)@.contains(x) <==> (old(es)@.contains(x) || x == e),
{
    let ghost had = es@;
    let mut k: usize = 0;
    while k < es.len() && (es[k].0 < e.0 || (es[k].0 == e.0 && es[k].1 < e.1))
        invariant
            k <= es@.len(),
            es@ == had,
            forall|j: int| 0 <= j < k ==> edge_before(#[trigger] had[j], e),
        decreases es@.len() - k,
    {
        k = k + 1;
    }
    if k < es.len() && es[k].0 == e.0 && es[k].1 == e.1 {
        proof {
            assert(had[k as int] == e);
        }
        return;
    }
    es.insert(k, e);
    proof {
        had.insert_ensures(k as int, e);
        let now = es@;
        assert forall|a: int, b: int| 0 <= a < b < now.len() implies edge_before(
            #[trigger] now[a],
            #[trigger] now[b],
        ) by {
            if b < k {
                assert(now[a] == had[a] && now[b] == had[b]);
            } else if b == k {
                assert(now[a] == had[a]);
            } else if a < k {
                assert(now[a] == had[a] && now[b] == had[b - 1]);
            } else if a == k {
                assert(now[b] == had[b - 1]);
                if b - 1 > k {
                    assert(edge_before(had[k as int], had[b - 1]));
                }
            } else {
                assert(now[a] == had[a - 1] && now[b] == had[b - 1]);
            }
        }
        assert forall|x: (u16, u16)| #[trigger]
            now.contains(x) <==> (had.contains(x) || x == e) by {
            if had.contains(x) {
                let j = choose|j: int| 0 <= j < had.len() && had[j] == x;
                if j < k {
                    assert(now[j] == x);
                } else {
                    assert(now[j + 1] == x);
                }
            }
            if x == e {
                assert(now[k as int] == x);
            }
            if now.contains(x) && x != e {
                let j = choose|j: int| 0 <= j < now.len() && now[j] == x;
                if j < k {
                    assert(had[j] == x);
                } else {
                    assert(had[j - 1] == x);
                }
            }
        }
    }
}

/// How many links touch each note, and how many each ghost.
fn count_degrees(g: &Gathered, n: usize, Ghost(rs): Ghost<Seq<RefView>>) -> (r: (
    Vec<u16>,
    Vec<u16>,
))
    requires
        gathered(*g, rs),
        forall|i: int|
            0 <= i < g.refs@.len() ==> (#[trigger] g.refs@[i]).from < n && (g.refs@[i].is_ghost
                || (g.refs@[i].to < n && g.refs@[i].to != g.refs@[i].from)),
    ensures
        r.0@.len() == n,
        r.1@.len() == g.keys@.len(),
        forall|i: int|
            0 <= i < n ==> #[trigger] r.0@[i] == capped(count_where(rs, touches(i))),
        forall|i: int|
            0 <= i < r.1@.len() ==> #[trigger] r.1@[i] == (count_where(
                rs,
                means_ghost(ghosts(rs)[i].key),
            ) % 0x10000) as u16,
{
    let ghost gs = ghosts(rs);
    let mut degree: Vec<u16> = Vec::new();
    let mut i: usize = 0;
    proof {
        assert(rs.take(0) =~= Seq::<RefView>::empty());
    }
    while i < n
        invariant
            i <= n,
            degree@.len() == i,
            forall|j: int| 0 <= j < i ==> #[trigger] degree@[j] == 0,
        decreases n - i,
    {
        degree.push(0);
        i = i + 1;
    }
    let mut meant: Vec<u16> = Vec::new();
    let mut i: usize = 0;
    while i < g.keys.len()
        invariant
            i <= g.keys@.len(),
            meant@.len() == i,
            forall|j: int| 0 <= j < i ==> #[trigger] meant@[j] == 0,
        decreases g.keys@.len() - i,
    {
        meant.push(0);
        i = i + 1;
    }
    let mut k: usize = 0;
    proof {
        assert(gs.len() == g.keys@.len());
        assert forall|j: int| 0 <= j < n implies #[trigger] degree@[j] == capped(
            count_where(rs.take(0), touches(j)),
        ) by {}
        assert forall|j: int| 0 <= j < meant@.len() implies #[trigger] meant@[j] == (count_where(
            rs.take(0),
            means_ghost(gs[j].key),
        ) % 0x10000) as u16 by {}
    }
    while k < g.refs.len()
        invariant
            k <= g.refs@.len(),
            gathered(*g, rs),
            gs == ghosts(rs),
            forall|i: int|
                0 <= i < g.refs@.len() ==> (#[trigger] g.refs@[i]).from < n && (
                g.refs@[i].is_ghost || (g.refs@[i].to < n && g.refs@[i].to != g.refs@[i].from)),
            degree@.len() == n,
            meant@.len() == gs.len(),
            forall|j: int|
                0 <= j < n ==> #[trigger] degree@[j] == capped(
                    count_where(rs.take(k as int), touches(j)),
                ),
            forall|j: int|
                0 <= j < meant@.len() ==> #[trigger] meant@[j] == (count_where(
                    rs.take(k as int),
                    means_ghost(gs[j].key),
                ) % 0x10000) as u16,
        decreases g.refs@.len() - k,
    {
        let r = g.refs[k];
        let ghost v = rs[k as int];
        let ghost degree0 = degree@;
        let ghost meant0 = meant@;
        proof {
            assert(ref_matches(r, v, gs));
            assert(g.refs@[k as int] == r);
        }
        let d: u16 = degree[r.from];
        degree.set(r.from, d.saturating_add(1));
        if r.is_ghost {
            let m: u16 = meant[r.to];
            meant.set(r.to, m.wrapping_add(1));
        } else {
            let d: u16 = degree[r.to];
            degree.set(r.to, d.saturating_add(1));
        }
        proof {
            assert forall|j: int| 0 <= j < n implies #[trigger] degree@[j] == capped(
                count_where(rs.take(k as int + 1), touches(j)),
            ) by {
                lemma_count_take(rs, touches(j), k as int);
                assert(degree0[j] == capped(count_where(rs.take(k as int), touches(j))));
            }
            lemma_ghosts_distinct(rs);
            lemma_first_where(gs, ghost_named(v.key));
            assert forall|j: int| 0 <= j < meant@.len() implies #[trigger] meant@[j] == (
            count_where(rs.take(k as int + 1), means_ghost(gs[j].key)) % 0x10000) as u16 by {
                lemma_count_take(rs, means_ghost(gs[j].key), k as int);
                assert(meant0[j] == (count_where(rs.take(k as int), means_ghost(gs[j].key))
                    % 0x10000) as u16);
                if r.is_ghost {
                    assert(ghost_named(v.key)(gs[r.to as int]));
                    if j != r.to {
                        assert(gs[j].key != gs[r.to as int].key);
                    }
                }
            }
        }
        k = k + 1;
    }
    proof {
        assert(rs.take(rs.len() as int) =~= rs);
    }
    (degree, meant)
}

/// No link gathered from a note leads back to it.
proof fn lemma_refs_leave(ns: Seq<NoteView>, n: int)
    requires
        0 <= n <= ns.len(),
    ensures
        forall|i: int|
            0 <= i < refs(ns, n).len() ==> (#[trigger] refs(ns, n)[i]).to != Some(
                refs(ns, n)[i].from,
            ) && 0 <= refs(ns, n)[i].from < n,
    decreases n,
{
    if n > 0 {
        lemma_refs_leave(ns, n - 1);
        lemma_refs_in_leave(ns, n - 1, ns[n - 1].links.len() as int);
        let a = refs(ns, n - 1);
        let b = refs_in(ns, n - 1, ns[n - 1].links.len() as int);
        let c = refs(ns, n);
        assert forall|i: int| 0 <= i < c.len() implies (#[trigger] c[i]).to != Some(c[i].from) && 0
            <= c[i].from < n by {
            if i < a.len() {
                assert(c[i] == a[i]);
            } else {
                assert(c[i] == b[i - a.len()]);
            }
        }
    }
}

proof fn lemma_refs_in_leave(ns: Seq<NoteView>, from: int, k: int)
    ensures
        forall|i: int|
            0 <= i < refs_in(ns, from, k).len() ==> (#[trigger] refs_in(ns, from, k)[i]).to != Some(
                from,
            ) && refs_in(ns, from, k)[i].from == from,
    decreases k,
{
    if k > 0 {
        lemma_refs_in_leave(ns, from, k - 1);
        let a = refs_in(ns, from, k - 1);
        let c = refs_in(ns, from, k);
        assert forall|i: int| 0 <= i < c.len() implies (#[trigger] c[i]).to != Some(from)
            && c[i].from == from by {
            if i < a.len() {
                assert(c[i] == a[i]);
            }
        }
    }
}

/// The edges of the gathered links, each once and in order.
fn make_edges(g: &Gathered, Ghost(rs): Ghost<Seq<RefView>>) -> (es: Vec<(u16, u16)>)
    requires
        gathered(*g, rs),
    ensures
        edges_of(rs, es@),
{
    let ghost gs = ghosts(rs);
    let shift: usize = g.keys.len();
    let mut es: Vec<(u16, u16)> = Vec::new();
    let mut k: usize = 0;
    while k < g.refs.len()
        invariant
            k <= g.refs@.len(),
            gathered(*g, rs),
            gs == ghosts(rs),
            shift == gs.len(),
            forall|i: int, j: int|
                0 <= i < j < es@.len() ==> edge_before(#[trigger] es@[i], #[trigger] es@[j]),
            forall|i: int| 0 <= i < k ==> es@.contains(edge_of(gs, #[trigger] rs[i])),
            forall|x: (u16, u16)| #[trigger]
                es@.contains(x) ==> exists|i: int| 0 <= i < k && #[trigger] edge_of(gs, rs[i]) == x,
        decreases g.refs@.len() - k,
    {
        let r = g.refs[k];
        proof {
            assert(g.refs@[k as int] == r);
            assert(ref_matches(r, rs[k as int], gs));
        }
        let a: u16 = number_node(r.from, shift);
        let b: u16 = if r.is_ghost {
            number_node(r.to, 0)
        } else {
            number_node(r.to, shift)
        };
        let ghost had = es@;
        insert_edge(&mut es, (a, b));
        proof {
            assert(edge_of(gs, rs[k as int]) == (a, b));
            assert forall|x: (u16, u16)| #[trigger] es@.contains(x) implies exists|i: int|
                0 <= i < k + 1 && #[trigger] edge_of(gs, rs[i]) == x by {
                if had.contains(x) {
                    let i = choose|i: int| 0 <= i < k && #[trigger] edge_of(gs, rs[i]) == x;
                    assert(edge_of(gs, rs[i]) == x);
                } else {
                    assert(edge_of(gs, rs[k as int]) == x);
                }
            }
        }
        k = k + 1;
    }
    proof {
        assert forall|m: int| 0 <= m < es@.len() implies exists|i: int|
            0 <= i < rs.len() && #[trigger] edge_of(gs, rs[i]) == #[trigger] es@[m] by {
            assert(es@.contains(es@[m]));
        }
    }
    es
}

/// The colour of a note.
fn group_for(n: &Note) -> (r: String)
    ensures
        r@ == group_of(n@),
{
    if n.tags.len() > 0 {
        return n.tags[0].clone();
    }
    match parent_in(n.path.as_str()) {
        Some(p) => if p.as_str().is_empty() {
            owned("·")
        } else {
            p
        },
        None => owned("·"),
    }
}

impl Index {
    /// The link graph: every note, every link between them, and every note somebody meant to
    /// write. A vault's unwritten notes are the shape of what it is missing.
    pub fn graph(&self) -> (r: VaultGraph)
        requires
            self.wf(),
        ensures
            node_views(r.nodes@) == nodes_of(
                self.view_notes(),
                refs(self.view_notes(), self.notes@.len() as int),
            ),
            edges_of(refs(self.view_notes(), self.notes@.len() as int), r.edges@),
    {
        let ghost ns = self.view_notes();
        let ghost rs = refs(ns, ns.len() as int);
        let ghost gs = ghosts(rs);
        let n: usize = self.notes.len();
        let g = self.gather();
        proof {
            lemma_refs_leave(ns, ns.len() as int);
            assert forall|i: int| 0 <= i < g.refs@.len() implies (#[trigger] g.refs@[i]).from < n
                && (g.refs@[i].is_ghost || (g.refs@[i].to < n && g.refs@[i].to
                != g.refs@[i].from)) by {
                assert(ref_matches(g.refs@[i], rs[i], gs));
                assert(rs[i].to != Some(rs[i].from));
            }
        }
        let (degree, meant) = count_degrees(&g, n, Ghost(rs));
        let edges = make_edges(&g, Ghost(rs));
        let ghost want = nodes_of(ns, rs);
        let mut nodes: Vec<GraphNode> = Vec::new();
        let mut i: usize = 0;
        while i < g.keys.len()
            invariant
                i <= g.keys@.len(),
                gathered(g, rs),
                gs == ghosts(rs),
                gs.len() == g.keys@.len(),
                want == nodes_of(ns, rs),
                meant@.len() == gs.len(),
                forall|i: int|
                    0 <= i < meant@.len() ==> #[trigger] meant@[i] == (count_where(
                        rs,
                        means_ghost(gs[i].key),
                    ) % 0x10000) as u16,
                nodes@.len() == i,
                forall|j: int| 0 <= j < i ==> (#[trigger] nodes@[j])@ == want[j],
            decreases g.keys@.len() - i,
        {
            proof {
                assert(ghost_views(g.keys@, g.labels@)[i as int] == gs[i as int]);
                assert(meant@[i as int] == (count_where(rs, means_ghost(gs[i as int].key))
                    % 0x10000) as u16);
            }
            let node = GraphNode {
                path: String::new(),
                label: g.labels[i].clone(),
                degree: meant[i],
                group: String::new(),
                is_ghost: true,
            };
            proof {
                assert(node@ == want[i as int]);
            }
            nodes.push(node);
            i = i + 1;
        }
        let count: usize = g.keys.len();
        let mut i: usize = 0;
        while i < n
            invariant
                i <= n,
                n == self.notes@.len(),
                ns == self.view_notes(),
                gs == ghosts(rs),
                count == gs.len(),
                want == nodes_of(ns, rs),
                degree@.len() == n,
                forall|j: int|
                    0 <= j < n ==> #[trigger] degree@[j] == capped(count_where(rs, touches(j))),
                nodes@.len() == count + i,
                forall|j: int| 0 <= j < count + i ==> (#[trigger] nodes@[j])@ == want[j],
            decreases n - i,
        {
            let note = &self.notes[i];
            proof {
                assert(ns[i as int] == note@);
                assert(degree@[i as int] == capped(count_where(rs, touches(i as int))));
            }
            let node = GraphNode {
                path: note.path.clone(),
                label: note.title.clone(),
                degree: degree[i],
                group: group_for(note),
                is_ghost: false,
            };
            proof {
                assert(node@ == want[count + i]);
            }
            nodes.push(node);
            i = i + 1;
        }
        proof {
            assert(node_views(nodes@) =~= want);
        }
        VaultGraph { nodes, edges }
    }
}

// -- keeping up with the files -----------------------------------------------

/// A markdown file of the vault, as a walk finds it.
#[derive(Debug, Clone, PartialEq, Eq)]
pub struct Found {
    /// Relative to the vault root.
    pub path: String,
    pub mtime: u64,
    pub size: u64,
}

/// A file, as values.
pub struct FoundView {
    pub path: Seq<char>,
    pub mtime: u64,
    pub size: u64,
}

impl View for Found {
    type V = FoundView;

    open spec fn view(&self) -> FoundView {
        FoundView { path: self.path@, mtime: self.mtime, size: self.size }
    }
}

/// Files, as values.
pub open spec fn found_views(v: Seq<Found>) -> Seq<FoundView> {
    Seq::new(v.len(), |i: int| v[i]@)
}

/// Texts that may be missing, as values.
pub open spec fn read_views(v: Seq<Option<String>>) -> Seq<Option<Seq<char>>> {
    Seq::new(v.len(), |i: int| opt_text(v[i]))
}

/// A note at this path.
pub open spec fn note_at(path: Seq<char>) -> spec_fn(NoteView) -> bool {
    |n: NoteView| n.path == path
}

/// Whether a file is as the notes have it.
pub open spec fn unchanged(ns: Seq<NoteView>, f: FoundView) -> bool {
    let i = first_where(ns, note_at(f.path));
    i < ns.len() && ns[i].mtime == f.mtime && ns[i].size == f.size
}

/// The note that a file's text makes.
pub open spec fn note_from(f: FoundView, text: Seq<char>) -> NoteView {
    let stem = match file_stem(f.path) {
        Some(s) => s,
        None => Seq::empty(),
    };
    NoteView { path: f.path, mtime: f.mtime, size: f.size, ..parsed(text, stem) }
}

/// How far a pass over the files has got.
pub struct PassView {
    pub notes: Seq<NoteView>,
    pub taken: nat,
    pub changed: bool,
}

/// What one file does: nothing where it is unchanged or the budget is spent, and otherwise it
/// is read in place of what was there. A file that cannot be read still spends the budget.
pub open spec fn pass_step(
    p: PassView,
    f: FoundView,
    text: Option<Seq<char>>,
    budget: nat,
) -> PassView {
    let i = first_where(p.notes, note_at(f.path));
    if unchanged(p.notes, f) || p.taken >= budget {
        p
    } else {
        PassView {
            notes: match text {
                None => p.notes,
                Some(t) => if i < p.notes.len() {
                    p.notes.update(i, note_from(f, t))
                } else {
                    p.notes.push(note_from(f, t))
                },
            },
            taken: p.taken + 1,
            changed: true,
        }
    }
}

/// What the first `n` files do.
pub open spec fn pass(
    ns: Seq<NoteView>,
    found: Seq<FoundView>,
    read: Seq<Option<Seq<char>>>,
    budget: nat,
    n: int,
) -> PassView
    decreases n,
{
    if n <= 0 {
        PassView { notes: ns, taken: 0, changed: false }
    } else {
        pass_step(pass(ns, found, read, budget, n - 1), found[n - 1], read[n - 1], budget)
    }
}

/// Whether a file is still there.
pub open spec fn still_there(found: Seq<FoundView>) -> spec_fn(NoteView) -> bool {
    |n: NoteView| exists|i: int| 0 <= i < found.len() && (#[trigger] found[i]).path == n.path
}

/// What a whole pass leaves: the notes whose files are still there, and whether anything
/// moved.
pub open spec fn refreshed(
    ns: Seq<NoteView>,
    found: Seq<FoundView>,
    read: Seq<Option<Seq<char>>>,
    budget: nat,
) -> (Seq<NoteView>, bool) {
    let p = pass(ns, found, read, budget, found.len() as int);
    let kept = pick(p.notes, still_there(found), |n: NoteView| n);
    (kept, p.changed || kept.len() != p.notes.len())
}

/// The files a pass will read, by number: the first `budget` of those that are not as the
/// notes have them.
pub open spec fn wanted_of(
    ns: Seq<NoteView>,
    found: Seq<FoundView>,
    budget: nat,
    n: int,
) -> Seq<usize>
    decreases n,
{
    if n <= 0 {
        Seq::empty()
    } else {
        let before = wanted_of(ns, found, budget, n - 1);
        if !unchanged(ns, found[n - 1]) && before.len() < budget {
            before.push((n - 1) as usize)
        } else {
            before
        }
    }
}

/// Where the note at this path is, or the number of notes.
fn position(notes: &Vec<Note>, path: &str) -> (r: usize)
    ensures
        r <= notes@.len(),
        r == first_where(note_views(notes@), note_at(path@)),
{
    let ghost ns = note_views(notes@);
    let mut i: usize = 0;
    while i < notes.len() && !same(notes[i].path.as_str(), path)
        invariant
            i <= notes@.len(),
            ns == note_views(notes@),
            forall|j: int| 0 <= j < i ==> !note_at(path@)(#[trigger] ns[j]),
        decreases notes@.len() - i,
    {
        i = i + 1;
    }
    proof {
        lemma_first_where_is(ns, note_at(path@), i as int);
    }
    i
}

/// Whether a file is still there.
fn is_there(found: &Vec<Found>, n: &Note) -> (r: bool)
    ensures
        r == still_there(found_views(found@))(n@),
{
    let ghost fs = found_views(found@);
    let mut i: usize = 0;
    while i < found.len()
        invariant
            i <= found@.len(),
            fs == found_views(found@),
            forall|j: int| 0 <= j < i ==> (#[trigger] fs[j]).path != n@.path,
        decreases found@.len() - i,
    {
        if same(found[i].path.as_str(), n.path.as_str()) {
            proof {
                assert(fs[i as int].path == n@.path);
            }
            return true;
        }
        i = i + 1;
    }
    false
}

impl Index {
    /// The files that a refresh will read, by their number in `found`.
    pub fn wanted(&self, found: &Vec<Found>, budget: usize) -> (r: Vec<usize>)
        ensures
            r@ == wanted_of(
                self.view_notes(),
                found_views(found@),
                budget as nat,
                found@.len() as int,
            ),
            r@.len() <= budget,
    {
        let ghost ns = self.view_notes();
        let ghost fs = found_views(found@);
        let mut out: Vec<usize> = Vec::new();
        let mut i: usize = 0;
        while i < found.len()
            invariant
                i <= found@.len(),
                ns == self.view_notes(),
                fs == found_views(found@),
                out@ == wanted_of(ns, fs, budget as nat, i as int),
                out@.len() <= budget,
            decreases found@.len() - i,
        {
            let f = &found[i];
            proof {
                assert(fs[i as int] == f@);
            }
            let k: usize = position(&self.notes, f.path.as_str());
            let same_file = k < self.notes.len() && self.notes[k].mtime == f.mtime
                && self.notes[k].size == f.size;
            if !same_file && out.len() < budget {
                out.push(i);
            }
            i = i + 1;
        }
        out
    }

    /// Take what a walk found, with the texts of the files that were wanted (`None` where one
    /// was not wanted or could not be read).
    ///
    /// Gives whether anything moved. `budget` caps files taken per call: a cold vault must not
    /// stall the terminal. Deletions are done every pass regardless: a note that is gone
    /// should not keep answering searches.
    #[verifier::spinoff_prover]
    #[verifier::rlimit(40)]
    pub fn refresh(&mut self, found: &Vec<Found>, read: &Vec<Option<String>>, budget: usize) -> (r:
        bool)
        requires
            old(self).wf(),
            read@.len() == found@.len(),
        ensures
            final(self).root == old(self).root,
            (final(self).view_notes(), r) == refreshed(
                old(self).view_notes(),
                found_views(found@),
                read_views(read@),
                budget as nat,
            ),
            final(self).wf(),
    {
        let ghost start = self.view_notes();
        let ghost fs = found_views(found@);
        let ghost rd = read_views(read@);
        let mut notes: Vec<Note> = Vec::new();
        core::mem::swap(&mut self.notes, &mut notes);
        let mut changed = false;
        let mut taken: usize = 0;
        let mut i: usize = 0;
        while i < found.len()
            invariant
                i <= found@.len(),
                read@.len() == found@.len(),
                fs == found_views(found@),
                rd == read_views(read@),
                taken <= i,
                pass(start, fs, rd, budget as nat, i as int) == (PassView {
                    notes: note_views(notes@),
                    taken: taken as nat,
                    changed,
                }),
            decreases found@.len() - i,
        {
            let f = &found[i];
            let ghost before = note_views(notes@);
            proof {
                assert(fs[i as int] == f@);
                assert(rd[i as int] == opt_text(read@[i as int]));
            }
            let k: usize = position(&notes, f.path.as_str());
            let same_file = k < notes.len() && notes[k].mtime == f.mtime && notes[k].size
                == f.size;
            if !same_file && taken < budget {
                taken = taken + 1;
                changed = true;
                match &read[i] {
                    None => {},
                    Some(text) => {
                        let stem = match stem_in(f.path.as_str()) {
                            Some(s) => s,
                            None => String::new(),
                        };
                        let mut note = parse(text.as_str(), stem.as_str());
                        note.path = f.path.clone();
                        note.mtime = f.mtime;
                        note.size = f.size;
                        proof {
                            assert(note@ == note_from(f@, text@));
                        }
                        if k < notes.len() {
                            notes.set(k, note);
                            proof {
                                assert(note_views(notes@) =~= before.update(k as int, note@));
                            }
                        } else {
                            notes.push(note);
                            proof {
                                assert(note_views(notes@) =~= before.push(note@));
                            }
                        }
                    },
                }
            }
            i = i + 1;
        }
        let ghost all = note_views(notes@);
        let ghost id = |n: NoteView| n;
        let before: usize = notes.len();
        let mut k: usize = 0;
        let ghost mut at: int = 0;
        proof {
            assert(pick(all.take(0), still_there(fs), id) + all.skip(0) =~= all);
        }
        while k < notes.len()
            invariant
                0 <= at <= all.len(),
                fs == found_views(found@),
                id == (|n: NoteView| n),
                k == pick(all.take(at), still_there(fs), id).len(),
                note_views(notes@) == pick(all.take(at), still_there(fs), id) + all.skip(at),
            decreases notes@.len() - k,
        {
            let ghost now = note_views(notes@);
            let ghost kept = pick(all.take(at), still_there(fs), id);
            proof {
                assert(now.len() == kept.len() + all.skip(at).len());
                assert(at < all.len());
                assert(now[k as int] == all.skip(at)[0]);
                assert(now[k as int] == all[at]);
                assert(now[k as int] == notes@[k as int]@);
                lemma_pick_take(all, still_there(fs), id, at);
            }
            if is_there(found, &notes[k]) {
                proof {
                    assert(now =~= kept.push(all[at]) + all.skip(at + 1));
                }
                k = k + 1;
            } else {
                let ghost held = notes@;
                notes.remove(k);
                proof {
                    let less = note_views(notes@);
                    assert(less.len() == now.len() - 1);
                    assert forall|i: int| 0 <= i < less.len() implies #[trigger] less[i] == (kept
                        + all.skip(at + 1))[i] by {
                        if i < k {
                            assert(notes@[i] == held[i]);
                            assert(now[i] == kept[i]);
                        } else {
                            assert(notes@[i] == held[i + 1]);
                            assert(now[i + 1] == all.skip(at)[i + 1 - k]);
                        }
                    }
                    assert(less =~= kept + all.skip(at + 1));
                }
            }
            proof {
                at = at + 1;
            }
        }
        proof {
            assert(all.skip(at).len() == 0);
            assert(all.take(at) =~= all);
            assert(note_views(notes@) =~= pick(all, still_there(fs), id));
        }
        if notes.len() != before {
            changed = true;
        }
        self.notes = notes;
        if changed {
            self.reindex();
        } else {
            proof {
                lemma_untouched(start, fs, rd, budget as nat, fs.len() as int);
                assert(note_views(self.notes@) == pick(all, still_there(fs), id));
                lemma_pick_all(all, still_there(fs));
            }
        }
        changed
    }
}

/// A pass that changed nothing left every note as it was.
proof fn lemma_untouched(
    ns: Seq<NoteView>,
    found: Seq<FoundView>,
    read: Seq<Option<Seq<char>>>,
    budget: nat,
    n: int,
)
    requires
        !pass(ns, found, read, budget, n).changed,
    ensures
        pass(ns, found, read, budget, n).notes == ns,
    decreases n,
{
    if n > 0 {
        lemma_untouched(ns, found, read, budget, n - 1);
    }
}

/// Where as many are picked as there are, all of them are.
pub proof fn lemma_pick_all(s: Seq<NoteView>, p: spec_fn(NoteView) -> bool)
    ensures
        pick(s, p, |n: NoteView| n).len() <= s.len(),
        pick(s, p, |n: NoteView| n).len() == s.len() ==> pick(
            s,
            p,
            |n: NoteView| n,
        ) == s,
    decreases s.len(),
{
    if s.len() > 0 {
        lemma_pick_all(s.drop_last(), p);
        assert(s =~= s.drop_last().push(s.last()));
    } else {
        assert(pick(s, p, |n: NoteView| n) =~= s);
    }
}

/// What to do with an entry of a directory.
#[derive(Debug, Clone, Copy, PartialEq, Eq, Structural)]
pub enum Visit {
    /// Never worth walking into, or not a note.
    Skip,
    /// A directory to walk.
    Descend,
    /// A note.
    Take,
}

/// Directories never worth walking into.
pub open spec fn is_skipped(name: Seq<char>) -> bool {
    ||| name == ".obsidian"@
    ||| name == ".git"@
    ||| name == ".horde"@
    ||| name == "node_modules"@
    ||| name == ".trash"@
    ||| name == "target"@
}

/// What to do with an entry of a directory.
pub open spec fn visited(name: Seq<char>, is_dir: bool) -> Visit {
    if (begins(name, "."@) && is_dir) || is_skipped(name) {
        Visit::Skip
    } else if is_dir {
        Visit::Descend
    } else if extension(name) == Some("md"@) {
        Visit::Take
    } else {
        Visit::Skip
    }
}

/// What to do with an entry of a directory, by its name.
pub fn visit(name: &str, is_dir: bool) -> (r: Visit)
    ensures
        r == visited(name@, is_dir),
{
    let skipped = same(name, ".obsidian") || same(name, ".git") || same(name, ".horde") || same(
        name,
        "node_modules",
    ) || same(name, ".trash") || same(name, "target");
    if (is_dir && starts_with(name, ".")) || skipped {
        return Visit::Skip;
    }
    if is_dir {
        return Visit::Descend;
    }
    match extension_in(name) {
        Some(e) => if same(e.as_str(), "md") {
            Visit::Take
        } else {
            Visit::Skip
        },
        None => Visit::Skip,
    }
}

/// A directory that has declared itself a vault: by somebody else's marker, or by ours.
pub fn is_vault(has_obsidian_dir: bool, has_marker: bool) -> (r: bool)
    ensures
        r == (has_obsidian_dir || has_marker),
{
    has_obsidian_dir || has_marker
}

/// Where a space's notes live, if anywhere: the directory itself where it is a vault, or else
/// the configured one under it where that is a directory.
///
/// Deliberately not a scan of the children: adopting any vault that happens to sit under the
/// directory you opened is a surprise.
pub fn locate(cwd: &str, dir: &str, cwd_is_vault: bool, configured_is_dir: bool) -> (r: Option<
    String,
>)
    ensures
        opt_text(r) == (if cwd_is_vault {
            Some(cwd@)
        } else if configured_is_dir {
            Some(join_path(cwd@, dir@))
        } else {
            None
        }),
{
    if cwd_is_vault {
        Some(owned(cwd))
    } else if configured_is_dir {
        Some(join_paths(cwd, dir))
    } else {
        None
    }
}

/// What the marker file says.
pub const MARKER_TEXT: &'static str =
    "# horde vault\n\nThis file marks the directory as a vault, so horde finds it\nwithout being told where it is. Plain markdown lives alongside it; delete this\nand horde stops treating the directory as one.\n";

/// What the first note of a new vault says.
pub const WELCOME_TEXT: &'static str =
    "# Welcome\n\nThis is a horde vault: plain markdown files, nothing else.\n\n- Link notes with `[[double brackets]]`. A link to a note that does not exist\n  yet is fine — it shows on the graph as a note waiting to be written.\n- Tag them in frontmatter: `tags: [one, two]`.\n- Everything here opens in any editor, and in Obsidian, unchanged.\n";

/// What creating a vault takes.
#[derive(Debug, Clone, Copy, PartialEq, Eq, Structural)]
pub struct InitPlan {
    pub write_marker: bool,
    pub write_welcome: bool,
    /// Whether there was no vault here.
    pub fresh: bool,
}

/// What creating a vault in a directory takes. Running it on an existing vault adopts it
/// rather than overwriting anything.
pub fn init(has_obsidian_dir: bool, has_marker: bool, has_welcome: bool) -> (r: InitPlan)
    ensures
        r.fresh == !(has_obsidian_dir || has_marker),
        r.write_marker == (!has_marker && !has_obsidian_dir),
        r.write_welcome == (r.fresh && !has_welcome),
{
    let fresh = !is_vault(has_obsidian_dir, has_marker);
    InitPlan {
        write_marker: !has_marker && !has_obsidian_dir,
        write_welcome: fresh && !has_welcome,
        fresh,
    }
}

// -- laws --------------------------------------------------------------------

proof fn lemma_by_stem(keys: Seq<KeysView>, key: Seq<char>, n: int)
    requires
        0 <= n <= keys.len(),
    ensures
        match by_stem(keys, key, n) {
            Some(i) => 0 <= i < n && keys[i].stem == key,
            None => forall|i: int| 0 <= i < n ==> (#[trigger] keys[i]).stem != key,
        },
    decreases n,
{
    if n > 0 && keys[n - 1].stem != key {
        lemma_by_stem(keys, key, n - 1);
    }
}

/// A filename beats an alias: where any file has the name, the name means a file of that name,
/// whatever aliases there are.
pub proof fn law_filename_beats_alias(ns: Seq<NoteView>, target: Seq<char>, i: int)
    requires
        0 <= i < ns.len(),
        lowercase(ns[i].stem_spec()) == key_of(target),
    ensures
        resolved(ns, target) matches Some(k) && 0 <= k < ns.len() && lowercase(ns[k].stem_spec())
            == key_of(target),
{
    let keys = all_keys(ns);
    lemma_by_stem(keys, key_of(target), keys.len() as int);
    assert(keys[i].stem == key_of(target));
}

/// What is resolved is there, and answers to the name.
pub proof fn law_resolved_note_answers_to_the_name(ns: Seq<NoteView>, target: Seq<char>)
    ensures
        resolved(ns, target) matches Some(k) ==> 0 <= k < ns.len() && (keys_of(ns[k]).stem
            == key_of(target) || keys_of(ns[k]).aliases.contains(key_of(target))),
        resolved(ns, target) is None ==> forall|i: int|
            0 <= i < ns.len() ==> (#[trigger] keys_of(ns[i])).stem != key_of(target)
                && !keys_of(ns[i]).aliases.contains(key_of(target)),
{
    let keys = all_keys(ns);
    let key = key_of(target);
    lemma_by_stem(keys, key, keys.len() as int);
    lemma_first_where(keys, has_alias(key));
    if resolved(ns, target) is None {
        assert forall|i: int| 0 <= i < ns.len() implies (#[trigger] keys_of(ns[i])).stem != key
            && !keys_of(ns[i]).aliases.contains(key) by {
            assert(keys[i] == keys_of(ns[i]));
            assert(!has_alias(key)(keys[i]));
        }
    } else {
        let k = resolved(ns, target)->Some_0;
        assert(keys[k] == keys_of(ns[k]));
        if by_stem(keys, key, keys.len() as int) is None {
            assert(has_alias(key)(keys[k]));
        }
    }
}

/// Two targets whose names differ only in case, or in folder, or in a real extension, mean the
/// same note.
pub proof fn law_resolution_goes_by_the_lowered_stem(
    ns: Seq<NoteView>,
    a: Seq<char>,
    b: Seq<char>,
)
    requires
        lowercase(stem_of_target(a)) == lowercase(stem_of_target(b)),
    ensures
        resolved(ns, a) == resolved(ns, b),
{
}

proof fn lemma_linkers_complete(ns: Seq<NoteView>, to: int, n: int, from: int)
    requires
        0 <= from < n <= usize::MAX,
    ensures
        linkers(ns, to, n).contains(from as usize) <==> links_to(ns, from, to),
    decreases n,
{
    let a = linkers(ns, to, n - 1);
    let b = linkers(ns, to, n);
    lemma_linkers_below(ns, to, n - 1);
    if from == n - 1 {
        if links_to(ns, from, to) {
            assert(b[b.len() - 1] == from as usize);
        } else if b.contains(from as usize) {
            let i = choose|i: int| 0 <= i < b.len() && b[i] == from as usize;
            assert(a[i] < n - 1);
        }
    } else {
        lemma_linkers_complete(ns, to, n - 1, from);
        if a.contains(from as usize) {
            let i = choose|i: int| 0 <= i < a.len() && a[i] == from as usize;
            assert(b[i] == a[i]);
        }
        if b.contains(from as usize) {
            let i = choose|i: int| 0 <= i < b.len() && b[i] == from as usize;
            assert(i < a.len());
            assert(a[i] == b[i]);
        }
    }
}

proof fn lemma_leads_elsewhere(ns: Seq<NoteView>, from: int, to: int, k: int)
    ensures
        leads(ns, from, to, k) ==> from != to,
    decreases k,
{
    if k > 0 {
        lemma_leads_elsewhere(ns, from, to, k - 1);
    }
}

/// A link makes a backlink: a note is among another's backlinks exactly where it links to it,
/// it is there once, and never for a link to itself.
pub proof fn law_a_link_makes_a_backlink(ns: Seq<NoteView>, from: int, to: int)
    requires
        0 <= from < ns.len() <= usize::MAX,
        0 <= to < ns.len(),
    ensures
        linkers(ns, to, ns.len() as int).contains(from as usize) <==> links_to(ns, from, to),
        linkers(ns, to, ns.len() as int).no_duplicates(),
        links_to(ns, from, to) ==> from != to,
{
    lemma_linkers_complete(ns, to, ns.len() as int, from);
    lemma_linkers_below(ns, to, ns.len() as int);
    lemma_leads_elsewhere(ns, from, to, ns[from].links.len() as int);
    let l = linkers(ns, to, ns.len() as int);
    assert forall|i: int, j: int| 0 <= i < l.len() && 0 <= j < l.len() && i != j implies l[i]
        != l[j] by {
        if i < j {
            assert(l[i] < l[j]);
        } else {
            assert(l[j] < l[i]);
        }
    }
}

proof fn lemma_ghost_for(rs: Seq<RefView>, i: int)
    requires
        0 <= i < rs.len(),
        rs[i].to is None,
    ensures
        first_where(ghosts(rs), ghost_named(rs[i].key)) < ghosts(rs).len(),
    decreases rs.len(),
{
    let before = ghosts(rs.drop_last());
    let now = ghosts(rs);
    let key = rs[i].key;
    lemma_first_where(now, ghost_named(key));
    lemma_first_where(before, ghost_named(key));
    if i < rs.len() - 1 {
        assert(rs.drop_last()[i] == rs[i]);
        lemma_ghost_for(rs.drop_last(), i);
        let k = first_where(before, ghost_named(key));
        assert(now[k] == before[k]);
        assert(ghost_named(key)(now[k]));
        if first_where(now, ghost_named(key)) == now.len() {
            assert(!ghost_named(key)(now[k]));
        }
    } else {
        let k = first_where(before, ghost_named(key));
        if k == before.len() {
            assert(now[k].key == key);
            assert(ghost_named(key)(now[k]));
        } else {
            assert(now == before);
        }
        if first_where(now, ghost_named(key)) == now.len() {
            assert(!ghost_named(key)(now[k]));
        }
    }
}

/// The graph has a node per note and one per unwritten note: links to the same missing target
/// share a ghost, and every link to one has it.
pub proof fn law_graph_has_a_node_per_note_and_ghost(ns: Seq<NoteView>)
    ensures
        ({
            let rs = refs(ns, ns.len() as int);
            let gs = ghosts(rs);
            let nodes = nodes_of(ns, rs);
            &&& nodes.len() == ns.len() + gs.len()
            &&& forall|i: int, j: int|
                0 <= i < j < gs.len() ==> (#[trigger] gs[i]).key != (#[trigger] gs[j]).key
            &&& forall|i: int|
                0 <= i < rs.len() && (#[trigger] rs[i]).to is None ==> first_where(
                    gs,
                    ghost_named(rs[i].key),
                ) < gs.len()
            &&& forall|i: int|
                0 <= i < nodes.len() ==> (#[trigger] nodes[i]).is_ghost == (i < gs.len())
        }),
{
    let rs = refs(ns, ns.len() as int);
    lemma_ghosts_distinct(rs);
    assert forall|i: int| 0 <= i < rs.len() && (#[trigger] rs[i]).to is None implies first_where(
        ghosts(rs),
        ghost_named(rs[i].key),
    ) < ghosts(rs).len() by {
        lemma_ghost_for(rs, i);
    }
}

proof fn lemma_refs_in_range(ns: Seq<NoteView>, n: int, i: int)
    requires
        0 <= n <= ns.len(),
        0 <= i < refs(ns, n).len(),
    ensures
        refs(ns, n)[i].to matches Some(t) ==> 0 <= t < ns.len(),
    decreases n,
{
    let a = refs(ns, n - 1);
    if i < a.len() {
        assert(refs(ns, n)[i] == a[i]);
        lemma_refs_in_range(ns, n - 1, i);
    } else {
        let m = ns[n - 1].links.len() as int;
        assert(refs(ns, n)[i] == refs_in(ns, n - 1, m)[i - a.len()]);
        lemma_refs_in_resolved(ns, n - 1, m, i - a.len());
    }
}

proof fn lemma_refs_in_resolved(ns: Seq<NoteView>, from: int, k: int, i: int)
    requires
        0 <= i < refs_in(ns, from, k).len(),
    ensures
        refs_in(ns, from, k)[i].to matches Some(t) ==> 0 <= t < ns.len(),
    decreases k,
{
    let a = refs_in(ns, from, k - 1);
    if i < a.len() {
        assert(refs_in(ns, from, k)[i] == a[i]);
        lemma_refs_in_resolved(ns, from, k - 1, i);
    } else {
        law_resolved_note_answers_to_the_name(ns, ns[from].links[k - 1].target);
    }
}

/// Every edge joins two nodes of the graph and starts at a note, as long as the nodes can be
/// numbered.
pub proof fn law_edges_join_nodes(ns: Seq<NoteView>, es: Seq<(u16, u16)>, k: int)
    requires
        edges_of(refs(ns, ns.len() as int), es),
        nodes_of(ns, refs(ns, ns.len() as int)).len() <= 0x10000,
        0 <= k < es.len(),
    ensures
        es[k].0 < nodes_of(ns, refs(ns, ns.len() as int)).len(),
        es[k].1 < nodes_of(ns, refs(ns, ns.len() as int)).len(),
        es[k].0 >= ghosts(refs(ns, ns.len() as int)).len(),
        es[k].0 != es[k].1,
{
    let rs = refs(ns, ns.len() as int);
    let gs = ghosts(rs);
    let i = choose|i: int| 0 <= i < rs.len() && #[trigger] edge_of(gs, rs[i]) == es[k];
    lemma_refs_leave(ns, ns.len() as int);
    assert(rs[i].to != Some(rs[i].from) && 0 <= rs[i].from < ns.len());
    lemma_refs_in_range(ns, ns.len() as int, i);
    if rs[i].to is None {
        lemma_ghost_for(rs, i);
        lemma_first_where(gs, ghost_named(rs[i].key));
    }
}

/// An exact name ranks above everything else: where any note is named exactly so, the first
/// hit is.
pub proof fn law_exact_name_comes_first(ns: Seq<NoteView>, q: Seq<char>, r: Seq<usize>, x: usize)
    requires
        hits(ns, q, r),
        x < ns.len(),
        lowercase(ns[x as int].title) == q || lowercase(ns[x as int].stem_spec()) == q,
    ensures
        r.len() > 0,
        note_rank(ns[r[0] as int], q) == Some(0u8),
{
    assert(r.contains(x));
    let i = choose|i: int| 0 <= i < r.len() && r[i] == x;
    if i > 0 {
        assert(hit_before(ns, q, r[0], r[i]));
        assert(r.contains(r[0]));
    }
}

/// Nothing is found twice.
pub proof fn law_nothing_is_found_twice(ns: Seq<NoteView>, q: Seq<char>, r: Seq<usize>)
    requires
        hits(ns, q, r),
    ensures
        r.no_duplicates(),
{
    assert forall|i: int, j: int| 0 <= i < r.len() && 0 <= j < r.len() && i != j implies r[i]
        != r[j] by {
        if i < j {
            assert(hit_before(ns, q, r[i], r[j]));
        } else {
            assert(hit_before(ns, q, r[j], r[i]));
        }
    }
}

/// A note whose file is gone is gone from the index, whatever the budget.
pub proof fn law_deleted_files_are_forgotten(
    ns: Seq<NoteView>,
    found: Seq<FoundView>,
    read: Seq<Option<Seq<char>>>,
    budget: nat,
    i: int,
)
    requires
        0 <= i < refreshed(ns, found, read, budget).0.len(),
    ensures
        still_there(found)(refreshed(ns, found, read, budget).0[i]),
{
    let p = pass(ns, found, read, budget, found.len() as int);
    let k = lemma_pick_sound(p.notes, still_there(found), |n: NoteView| n, i);
}

/// A pass never takes more files than its budget.
pub proof fn law_a_pass_keeps_to_its_budget(
    ns: Seq<NoteView>,
    found: Seq<FoundView>,
    read: Seq<Option<Seq<char>>>,
    budget: nat,
    n: int,
)
    ensures
        pass(ns, found, read, budget, n).taken <= budget,
    decreases n,
{
    if n > 0 {
        law_a_pass_keeps_to_its_budget(ns, found, read, budget, n - 1);
    }
}

proof fn lemma_quiet_pass(
    ns: Seq<NoteView>,
    found: Seq<FoundView>,
    read: Seq<Option<Seq<char>>>,
    budget: nat,
    n: int,
)
    requires
        0 <= n <= found.len(),
        forall|i: int| 0 <= i < found.len() ==> unchanged(ns, #[trigger] found[i]),
    ensures
        pass(ns, found, read, budget, n) == (PassView { notes: ns, taken: 0, changed: false }),
    decreases n,
{
    if n > 0 {
        lemma_quiet_pass(ns, found, read, budget, n - 1);
        assert(unchanged(ns, found[n - 1]));
    }
}

proof fn lemma_pick_every(s: Seq<NoteView>, p: spec_fn(NoteView) -> bool)
    requires
        forall|i: int| 0 <= i < s.len() ==> p(#[trigger] s[i]),
    ensures
        pick(s, p, |n: NoteView| n) == s,
    decreases s.len(),
{
    if s.len() > 0 {
        let t = s.drop_last();
        assert forall|i: int| 0 <= i < t.len() implies p(#[trigger] t[i]) by {
            assert(t[i] == s[i]);
        }
        lemma_pick_every(t, p);
        assert(p(s[s.len() - 1]));
        assert(s =~= t.push(s.last()));
    } else {
        assert(pick(s, p, |n: NoteView| n) =~= s);
    }
}

/// A vault that did not move is left as it is: with every file as the index has it and no
/// note's file missing, a refresh changes nothing and says so.
pub proof fn law_a_quiet_vault_is_left_alone(
    ns: Seq<NoteView>,
    found: Seq<FoundView>,
    read: Seq<Option<Seq<char>>>,
    budget: nat,
)
    requires
        forall|i: int| 0 <= i < found.len() ==> unchanged(ns, #[trigger] found[i]),
        forall|i: int| 0 <= i < ns.len() ==> still_there(found)(#[trigger] ns[i]),
    ensures
        refreshed(ns, found, read, budget) == (ns, false),
{
    lemma_quiet_pass(ns, found, read, budget, found.len() as int);
    lemma_pick_every(ns, still_there(found));
}

/// Whether a link of a note leads to the unwritten note of this name.
pub open spec fn means(ns: Seq<NoteView>, from: int, key: Seq<char>) -> bool {
    exists|k: int|
        0 <= k < ns[from].links.len() && (#[trigger] ns[from].links[k]).target.len() > 0
            && resolved(ns, ns[from].links[k].target) is None && key_of(ns[from].links[k].target)
            == key
}

proof fn lemma_leads_at(ns: Seq<NoteView>, from: int, to: int, k: int, j: int)
    requires
        0 <= j < k,
        ns[from].links[j].target.len() > 0,
        resolved(ns, ns[from].links[j].target) == Some(to),
        to != from,
    ensures
        leads(ns, from, to, k),
    decreases k,
{
    if j < k - 1 {
        lemma_leads_at(ns, from, to, k - 1, j);
    }
}

proof fn lemma_leads_has(ns: Seq<NoteView>, from: int, to: int, k: int) -> (j: int)
    requires
        leads(ns, from, to, k),
    ensures
        0 <= j < k,
        ns[from].links[j].target.len() > 0,
        resolved(ns, ns[from].links[j].target) == Some(to),
        to != from,
    decreases k,
{
    if leads(ns, from, to, k - 1) {
        lemma_leads_has(ns, from, to, k - 1)
    } else {
        k - 1
    }
}

/// A link that leads elsewhere is among those gathered from its note.
proof fn lemma_ref_in(ns: Seq<NoteView>, from: int, k: int, j: int) -> (i: int)
    requires
        0 <= j < k,
        ref_of(ns, from, j) is Some,
    ensures
        0 <= i < refs_in(ns, from, k).len(),
        Some(refs_in(ns, from, k)[i]) == ref_of(ns, from, j),
    decreases k,
{
    if j == k - 1 {
        refs_in(ns, from, k).len() - 1
    } else {
        let i = lemma_ref_in(ns, from, k - 1, j);
        assert(refs_in(ns, from, k)[i] == refs_in(ns, from, k - 1)[i]);
        i
    }
}

/// And among those gathered from all.
proof fn lemma_ref_gathered(ns: Seq<NoteView>, n: int, from: int, j: int) -> (i: int)
    requires
        0 <= from < n <= ns.len(),
        0 <= j < ns[from].links.len(),
        ref_of(ns, from, j) is Some,
    ensures
        0 <= i < refs(ns, n).len(),
        Some(refs(ns, n)[i]) == ref_of(ns, from, j),
    decreases n,
{
    let a = refs(ns, n - 1);
    if from == n - 1 {
        let i = lemma_ref_in(ns, from, ns[from].links.len() as int, j);
        a.len() + i
    } else {
        let i = lemma_ref_gathered(ns, n - 1, from, j);
        assert(refs(ns, n)[i] == a[i]);
        i
    }
}

/// What is gathered from a note is one of its links.
proof fn lemma_ref_from(ns: Seq<NoteView>, from: int, k: int, i: int) -> (j: int)
    requires
        0 <= i < refs_in(ns, from, k).len(),
    ensures
        0 <= j < k,
        ref_of(ns, from, j) == Some(refs_in(ns, from, k)[i]),
    decreases k,
{
    let a = refs_in(ns, from, k - 1);
    if i < a.len() {
        assert(refs_in(ns, from, k)[i] == a[i]);
        lemma_ref_from(ns, from, k - 1, i)
    } else {
        k - 1
    }
}

/// What is gathered from all is a link of the note it is from.
proof fn lemma_ref_origin(ns: Seq<NoteView>, n: int, i: int) -> (j: int)
    requires
        0 <= n <= ns.len(),
        0 <= i < refs(ns, n).len(),
    ensures
        0 <= refs(ns, n)[i].from < n,
        0 <= j < ns[refs(ns, n)[i].from].links.len(),
        ref_of(ns, refs(ns, n)[i].from, j) == Some(refs(ns, n)[i]),
    decreases n,
{
    let a = refs(ns, n - 1);
    if i < a.len() {
        assert(refs(ns, n)[i] == a[i]);
        lemma_ref_origin(ns, n - 1, i)
    } else {
        let m = ns[n - 1].links.len() as int;
        assert(refs(ns, n)[i] == refs_in(ns, n - 1, m)[i - a.len()]);
        lemma_ref_from(ns, n - 1, m, i - a.len())
    }
}

/// Where there is an edge, there is a link for it.
proof fn lemma_edge_has_link(ns: Seq<NoteView>, es: Seq<(u16, u16)>, i: int, b: int)
    requires
        edges_of(refs(ns, ns.len() as int), es),
        nodes_of(ns, refs(ns, ns.len() as int)).len() <= 0x10000,
        0 <= i < ns.len(),
        0 <= b < nodes_of(ns, refs(ns, ns.len() as int)).len(),
        es.contains(((i + ghosts(refs(ns, ns.len() as int)).len()) as u16, b as u16)),
    ensures
        ({
            let gs = ghosts(refs(ns, ns.len() as int));
            if b < gs.len() {
                means(ns, i, gs[b].key)
            } else {
                links_to(ns, i, b - gs.len())
            }
        }),
{
    let n = ns.len() as int;
    let rs = refs(ns, n);
    let gs = ghosts(rs);
    let e = ((i + gs.len()) as u16, b as u16);
    let k = choose|k: int| 0 <= k < es.len() && es[k] == e;
    let r = choose|r: int| 0 <= r < rs.len() && #[trigger] edge_of(gs, rs[r]) == es[k];
    let j = lemma_ref_origin(ns, n, r);
    lemma_refs_in_range(ns, n, r);
    let v = rs[r];
    assert(v.from == i);
    match v.to {
        Some(t) => {
            assert(t + gs.len() == b);
            lemma_leads_at(ns, i, t, ns[i].links.len() as int, j);
        },
        None => {
            lemma_ghost_for(rs, r);
            lemma_first_where(gs, ghost_named(v.key));
            assert(first_where(gs, ghost_named(v.key)) == b);
            assert(ghost_named(v.key)(gs[b]));
            assert(key_of(ns[i].links[j].target) == gs[b].key);
        },
    }
}

/// Where a link means a ghost, there is an edge for it.
proof fn lemma_ghost_has_edge(ns: Seq<NoteView>, es: Seq<(u16, u16)>, i: int, b: int)
    requires
        edges_of(refs(ns, ns.len() as int), es),
        nodes_of(ns, refs(ns, ns.len() as int)).len() <= 0x10000,
        0 <= i < ns.len(),
        0 <= b < nodes_of(ns, refs(ns, ns.len() as int)).len(),
        b < ghosts(refs(ns, ns.len() as int)).len(),
        means(ns, i, ghosts(refs(ns, ns.len() as int))[b].key),
    ensures
        es.contains(((i + ghosts(refs(ns, ns.len() as int)).len()) as u16, b as u16)),
{
    let n = ns.len() as int;
    let rs = refs(ns, n);
    let gs = ghosts(rs);
    let key = gs[b].key;
    lemma_ghosts_distinct(rs);
    let j = choose|j: int|
        0 <= j < ns[i].links.len() && (#[trigger] ns[i].links[j]).target.len() > 0 && resolved(
            ns,
            ns[i].links[j].target,
        ) is None && key_of(ns[i].links[j].target) == key;
    let r = lemma_ref_gathered(ns, n, i, j);
    assert(rs[r].key == key && rs[r].to is None);
    let p = ghost_named(key);
    assert forall|x: int| 0 <= x < b implies !p(#[trigger] gs[x]) by {
        assert(gs[x].key != gs[b].key);
    }
    lemma_first_where_is(gs, p, b);
    assert(es.contains(edge_of(gs, rs[r])));
}

/// Where a note links to another, there is an edge for it.
proof fn lemma_link_has_edge(ns: Seq<NoteView>, es: Seq<(u16, u16)>, i: int, b: int)
    requires
        edges_of(refs(ns, ns.len() as int), es),
        nodes_of(ns, refs(ns, ns.len() as int)).len() <= 0x10000,
        0 <= i < ns.len(),
        0 <= b < nodes_of(ns, refs(ns, ns.len() as int)).len(),
        b >= ghosts(refs(ns, ns.len() as int)).len(),
        links_to(ns, i, b - ghosts(refs(ns, ns.len() as int)).len()),
    ensures
        es.contains(((i + ghosts(refs(ns, ns.len() as int)).len()) as u16, b as u16)),
{
    let n = ns.len() as int;
    let rs = refs(ns, n);
    let gs = ghosts(rs);
    let t = b - gs.len();
    let j = lemma_leads_has(ns, i, t, ns[i].links.len() as int);
    let r = lemma_ref_gathered(ns, n, i, j);
    assert(es.contains(edge_of(gs, rs[r])));
}

/// An edge is there exactly for a link: from a note to another one where it links to it, and from
/// a note to a ghost where one of its links means it, as long as the nodes can be numbered.
pub proof fn law_an_edge_is_there_exactly_for_a_link(
    ns: Seq<NoteView>,
    es: Seq<(u16, u16)>,
    i: int,
    b: int,
)
    requires
        edges_of(refs(ns, ns.len() as int), es),
        nodes_of(ns, refs(ns, ns.len() as int)).len() <= 0x10000,
        0 <= i < ns.len(),
        0 <= b < nodes_of(ns, refs(ns, ns.len() as int)).len(),
    ensures
        ({
            let gs = ghosts(refs(ns, ns.len() as int));
            es.contains(((i + gs.len()) as u16, b as u16)) <==> if b < gs.len() {
                means(ns, i, gs[b].key)
            } else {
                links_to(ns, i, b - gs.len())
            }
        }),
{
    let gs = ghosts(refs(ns, ns.len() as int));
    if es.contains(((i + gs.len()) as u16, b as u16)) {
        lemma_edge_has_link(ns, es, i, b);
    }
    if b < gs.len() {
        if means(ns, i, gs[b].key) {
            lemma_ghost_has_edge(ns, es, i, b);
        }
    } else if links_to(ns, i, b - gs.len()) {
        lemma_link_has_edge(ns, es, i, b);
    }
}

/// A pass that changed nothing found nothing to do.
proof fn lemma_idle_pass(
    ns: Seq<NoteView>,
    found: Seq<FoundView>,
    read: Seq<Option<Seq<char>>>,
    budget: nat,
    n: int,
)
    requires
        budget > 0,
        0 <= n <= found.len(),
        !pass(ns, found, read, budget, n).changed,
    ensures
        pass(ns, found, read, budget, n) == (PassView { notes: ns, taken: 0, changed: false }),
        forall|i: int| 0 <= i < n ==> unchanged(ns, #[trigger] found[i]),
    decreases n,
{
    if n > 0 {
        assert(!pass(ns, found, read, budget, n - 1).changed);
        lemma_idle_pass(ns, found, read, budget, n - 1);
    }
}

/// A refresh that says nothing moved has nothing left to do: the notes are as they were, every
/// file is as its note has it, and every note has its file.
pub proof fn law_a_refresh_that_changed_nothing_is_done(
    ns: Seq<NoteView>,
    found: Seq<FoundView>,
    read: Seq<Option<Seq<char>>>,
    budget: nat,
)
    requires
        budget > 0,
        !refreshed(ns, found, read, budget).1,
    ensures
        refreshed(ns, found, read, budget).0 == ns,
        forall|i: int| 0 <= i < found.len() ==> unchanged(ns, #[trigger] found[i]),
        forall|i: int| 0 <= i < ns.len() ==> still_there(found)(#[trigger] ns[i]),
{
    lemma_idle_pass(ns, found, read, budget, found.len() as int);
    lemma_pick_all(ns, still_there(found));
    assert forall|i: int| 0 <= i < ns.len() implies still_there(found)(#[trigger] ns[i]) by {
        let k = lemma_pick_sound(ns, still_there(found), |n: NoteView| n, i);
    }
}

/// A file that the notes do not have as it is.
pub open spec fn stale_in(ns: Seq<NoteView>) -> spec_fn(FoundView) -> bool {
    |f: FoundView| !unchanged(ns, f)
}

/// Every file once.
pub open spec fn each_once(found: Seq<FoundView>) -> bool {
    forall|i: int, j: int|
        0 <= i < j < found.len() ==> (#[trigger] found[i]).path != (#[trigger] found[j]).path
}

/// The note at a path.
pub open spec fn note_in(ns: Seq<NoteView>, path: Seq<char>) -> Option<NoteView> {
    let i = first_where(ns, note_at(path));
    if i < ns.len() {
        Some(ns[i])
    } else {
        None
    }
}

/// A note put at one path leaves the note at another as it was.
proof fn lemma_other_note(ns: Seq<NoteView>, n: NoteView, path: Seq<char>)
    requires
        n.path != path,
    ensures
        ({
            let i = first_where(ns, note_at(n.path));
            let after = if i < ns.len() {
                ns.update(i, n)
            } else {
                ns.push(n)
            };
            note_in(after, path) == note_in(ns, path)
        }),
{
    let p = note_at(path);
    let q = note_at(n.path);
    lemma_first_where(ns, p);
    lemma_first_where(ns, q);
    let i = first_where(ns, q);
    let k = first_where(ns, p);
    let after = if i < ns.len() {
        ns.update(i, n)
    } else {
        ns.push(n)
    };
    if i < ns.len() {
        assert(q(ns[i]));
    }
    assert forall|j: int| 0 <= j < k implies !p(#[trigger] after[j]) by {
        if j != i {
            assert(after[j] == ns[j]);
        }
    }
    if k < ns.len() {
        assert(p(ns[k]));
        assert(k != i);
        assert(after[k] == ns[k]);
        lemma_first_where_is(after, p, k);
    } else {
        assert forall|j: int| 0 <= j < after.len() implies !p(#[trigger] after[j]) by {
            if j != i && j < ns.len() {
                assert(after[j] == ns[j]);
            }
        }
        lemma_first_where_is(after, p, after.len() as int);
    }
}

/// A note put at one path leaves what the notes have of another as it was.
proof fn lemma_other_path(ns: Seq<NoteView>, n: NoteView, f: FoundView)
    requires
        n.path != f.path,
    ensures
        ({
            let i = first_where(ns, note_at(n.path));
            let after = if i < ns.len() {
                ns.update(i, n)
            } else {
                ns.push(n)
            };
            unchanged(after, f) == unchanged(ns, f)
        }),
{
    lemma_other_note(ns, n, f.path);
}

/// A note put at its own path is what the notes have of it.
proof fn lemma_own_path(ns: Seq<NoteView>, n: NoteView, f: FoundView)
    requires
        n.path == f.path,
        n.mtime == f.mtime,
        n.size == f.size,
    ensures
        ({
            let i = first_where(ns, note_at(n.path));
            let after = if i < ns.len() {
                ns.update(i, n)
            } else {
                ns.push(n)
            };
            unchanged(after, f)
        }),
{
    let q = note_at(n.path);
    lemma_first_where(ns, q);
    let i = first_where(ns, q);
    let after = if i < ns.len() {
        ns.update(i, n)
    } else {
        ns.push(n)
    };
    assert forall|j: int| 0 <= j < i implies !q(#[trigger] after[j]) by {
        assert(after[j] == ns[j]);
    }
    assert(q(after[i]));
    lemma_first_where_is(after, q, i);
}

/// A file that a pass has not come to is as it was.
proof fn lemma_not_yet(
    ns: Seq<NoteView>,
    found: Seq<FoundView>,
    read: Seq<Option<Seq<char>>>,
    budget: nat,
    n: int,
    j: int,
)
    requires
        each_once(found),
        0 <= n <= j < found.len(),
    ensures
        unchanged(pass(ns, found, read, budget, n).notes, found[j]) == unchanged(ns, found[j]),
    decreases n,
{
    if n > 0 {
        lemma_not_yet(ns, found, read, budget, n - 1, j);
        let p = pass(ns, found, read, budget, n - 1);
        if let Some(t) = read[n - 1] {
            assert(found[n - 1].path != found[j].path);
            lemma_other_path(p.notes, note_from(found[n - 1], t), found[j]);
        }
    }
}

/// Two tests that agree on a list count the same of it.
proof fn lemma_count_same(
    s: Seq<FoundView>,
    p: spec_fn(FoundView) -> bool,
    q: spec_fn(FoundView) -> bool,
)
    requires
        forall|i: int| 0 <= i < s.len() ==> p(#[trigger] s[i]) == q(s[i]),
    ensures
        count_where(s, p) == count_where(s, q),
    decreases s.len(),
{
    if s.len() > 0 {
        let t = s.drop_last();
        assert forall|i: int| 0 <= i < t.len() implies p(#[trigger] t[i]) == q(t[i]) by {
            assert(t[i] == s[i]);
        }
        lemma_count_same(t, p, q);
        assert(p(s[s.len() - 1]) == q(s[s.len() - 1]));
    }
}

/// What is wanted of the first files is wanted of more of them, and comes first.
proof fn lemma_wanted_grows(ns: Seq<NoteView>, found: Seq<FoundView>, budget: nat, n: int, m: int)
    requires
        0 <= n <= m,
    ensures
        ({
            let w = wanted_of(ns, found, budget, n);
            let all = wanted_of(ns, found, budget, m);
            &&& w.len() <= all.len()
            &&& forall|k: int| 0 <= k < w.len() ==> #[trigger] w[k] == all[k]
        }),
    decreases m - n,
{
    if n < m {
        lemma_wanted_grows(ns, found, budget, n, m - 1);
    }
}

/// Every file that a pass wants could be read.
pub open spec fn all_read(
    ns: Seq<NoteView>,
    found: Seq<FoundView>,
    read: Seq<Option<Seq<char>>>,
    budget: nat,
) -> bool {
    let w = wanted_of(ns, found, budget, found.len() as int);
    forall|k: int| 0 <= k < w.len() ==> read[#[trigger] w[k] as int] is Some
}

/// How many files a pass has taken, and how many are left of those it came to.
proof fn lemma_pass_progress(
    ns: Seq<NoteView>,
    found: Seq<FoundView>,
    read: Seq<Option<Seq<char>>>,
    budget: nat,
    n: int,
)
    requires
        each_once(found),
        found.len() <= usize::MAX,
        all_read(ns, found, read, budget),
        0 <= n <= found.len(),
    ensures
        ({
            let p = pass(ns, found, read, budget, n);
            let c = count_where(found.take(n), stale_in(ns));
            &&& p.taken == wanted_of(ns, found, budget, n).len()
            &&& p.taken == (if c <= budget {
                c
            } else {
                budget
            })
            &&& count_where(found.take(n), stale_in(p.notes)) == c - p.taken
        }),
    decreases n,
{
    if n > 0 {
        lemma_pass_progress(ns, found, read, budget, n - 1);
        let f = found[n - 1];
        let was = pass(ns, found, read, budget, n - 1);
        let p = pass(ns, found, read, budget, n);
        let before = found.take(n - 1);
        lemma_not_yet(ns, found, read, budget, n - 1, n - 1);
        lemma_count_take(found, stale_in(ns), n - 1);
        lemma_count_take(found, stale_in(p.notes), n - 1);
        let note = note_from(f, read[n - 1]->Some_0);
        if !(unchanged(was.notes, f) || was.taken >= budget) {
            let w = wanted_of(ns, found, budget, n);
            let k = w.len() - 1;
            lemma_wanted_grows(ns, found, budget, n, found.len() as int);
            assert(w[k] == n - 1);
            assert(read[wanted_of(ns, found, budget, found.len() as int)[k] as int] is Some);
            lemma_own_path(was.notes, note, f);
            assert forall|i: int| 0 <= i < before.len() implies stale_in(was.notes)(
                #[trigger] before[i],
            ) == stale_in(p.notes)(before[i]) by {
                assert(found[i].path != found[n - 1].path);
                lemma_other_path(was.notes, note, found[i]);
            }
            lemma_count_same(before, stale_in(was.notes), stale_in(p.notes));
        }
    } else {
        assert(found.take(0) =~= Seq::<FoundView>::empty());
    }
}

/// Forgetting notes of other paths changes nothing of one that stays.
proof fn lemma_first_kept(s: Seq<NoteView>, keep: spec_fn(NoteView) -> bool, q: spec_fn(NoteView) -> bool)
    requires
        forall|n: NoteView| #[trigger] q(n) ==> keep(n),
    ensures
        ({
            let r = pick(s, keep, |n: NoteView| n);
            &&& (first_where(r, q) < r.len()) == (first_where(s, q) < s.len())
            &&& first_where(s, q) < s.len() ==> r[first_where(r, q)] == s[first_where(s, q)]
        }),
    decreases s.len(),
{
    let id = |n: NoteView| n;
    let r = pick(s, keep, id);
    if s.len() > 0 {
        let t = s.drop_last();
        let u = pick(t, keep, id);
        lemma_first_kept(t, keep, q);
        lemma_first_where(s, q);
        lemma_first_where(t, q);
        lemma_first_where(u, q);
        lemma_first_where(r, q);
        let k = first_where(t, q);
        let m = first_where(u, q);
        assert forall|i: int| 0 <= i < u.len() implies #[trigger] r[i] == u[i] by {}
        if k < t.len() {
            assert(q(t[k]));
            assert forall|i: int| 0 <= i < k implies !q(#[trigger] s[i]) by {
                assert(s[i] == t[i]);
            }
            assert(q(s[k]));
            lemma_first_where_is(s, q, k);
            assert forall|i: int| 0 <= i < m implies !q(#[trigger] r[i]) by {
                assert(r[i] == u[i]);
            }
            assert(q(u[m]));
            lemma_first_where_is(r, q, m);
        } else {
            assert forall|i: int| 0 <= i < t.len() implies !q(#[trigger] s[i]) by {
                assert(s[i] == t[i]);
            }
            assert forall|i: int| 0 <= i < u.len() implies !q(#[trigger] r[i]) by {
                assert(r[i] == u[i]);
            }
            if q(s.last()) {
                assert(keep(s.last()));
                lemma_first_where_is(s, q, s.len() - 1);
                lemma_first_where_is(r, q, u.len() as int);
            } else {
                lemma_first_where_is(s, q, s.len() as int);
                lemma_first_where_is(r, q, r.len() as int);
            }
        }
    } else {
        assert(r =~= s);
    }
}

/// Every pass gets nearer: of the files that the notes do not have as they are, a pass leaves as
/// many fewer as its budget, or none, where every file that it wants can be read. So a large vault
/// arrives over several passes, and not a note of it is dropped.
pub proof fn law_every_pass_gets_nearer(
    ns: Seq<NoteView>,
    found: Seq<FoundView>,
    read: Seq<Option<Seq<char>>>,
    budget: nat,
)
    requires
        each_once(found),
        found.len() <= usize::MAX,
        all_read(ns, found, read, budget),
    ensures
        ({
            let left = count_where(found, stale_in(ns));
            count_where(found, stale_in(refreshed(ns, found, read, budget).0)) == if left <= budget {
                0
            } else {
                left - budget
            }
        }),
{
    let n = found.len() as int;
    let p = pass(ns, found, read, budget, n);
    let kept = refreshed(ns, found, read, budget).0;
    lemma_pass_progress(ns, found, read, budget, n);
    assert(found.take(n) =~= found);
    assert forall|i: int| 0 <= i < found.len() implies stale_in(p.notes)(#[trigger] found[i])
        == stale_in(kept)(found[i]) by {
        let q = note_at(found[i].path);
        assert forall|x: NoteView| #[trigger] q(x) implies still_there(found)(x) by {
            assert(found[i].path == x.path);
        }
        lemma_first_kept(p.notes, still_there(found), q);
        lemma_first_where(p.notes, q);
        lemma_first_where(kept, q);
    }
    lemma_count_same(found, stale_in(p.notes), stale_in(kept));
}

/// However far a pass is, it has not touched the note of a file that is unchanged.
proof fn lemma_pass_spares(
    ns: Seq<NoteView>,
    found: Seq<FoundView>,
    read: Seq<Option<Seq<char>>>,
    budget: nat,
    n: int,
    j: int,
)
    requires
        each_once(found),
        0 <= n <= found.len(),
        0 <= j < found.len(),
        unchanged(ns, found[j]),
    ensures
        note_in(pass(ns, found, read, budget, n).notes, found[j].path) == note_in(
            ns,
            found[j].path,
        ),
    decreases n,
{
    if n > 0 {
        lemma_pass_spares(ns, found, read, budget, n - 1, j);
        let p = pass(ns, found, read, budget, n - 1);
        let f = found[n - 1];
        if n - 1 == j {
            lemma_not_yet(ns, found, read, budget, j, j);
        } else if let Some(t) = read[n - 1] {
            assert(f.path != found[j].path);
            lemma_other_note(p.notes, note_from(f, t), found[j].path);
        }
    }
}

/// A note whose file is unchanged is not touched, whatever else a refresh does.
pub proof fn law_an_unchanged_note_is_not_touched(
    ns: Seq<NoteView>,
    found: Seq<FoundView>,
    read: Seq<Option<Seq<char>>>,
    budget: nat,
    j: int,
)
    requires
        each_once(found),
        0 <= j < found.len(),
        unchanged(ns, found[j]),
    ensures
        note_in(refreshed(ns, found, read, budget).0, found[j].path) == note_in(
            ns,
            found[j].path,
        ),
{
    let p = pass(ns, found, read, budget, found.len() as int);
    let q = note_at(found[j].path);
    lemma_pass_spares(ns, found, read, budget, found.len() as int, j);
    assert forall|x: NoteView| #[trigger] q(x) implies still_there(found)(x) by {
        assert(found[j].path == x.path);
    }
    lemma_first_kept(p.notes, still_there(found), q);
}

// -- several vaults ----------------------------------------------------------

/// The notes of a vault, and what was found of it.
pub struct Walked {
    pub notes: Seq<NoteView>,
    pub found: Seq<FoundView>,
}

/// What a vault wants of a budget.
pub open spec fn wanted_from(v: Walked, budget: nat) -> Seq<usize> {
    wanted_of(v.notes, v.found, budget, v.found.len() as int)
}

/// What the first `n` vaults leave of a budget, each being given what those before it left.
pub open spec fn left_by(vs: Seq<Walked>, budget: nat, n: int) -> nat
    decreases n,
{
    if n <= 0 {
        budget
    } else {
        let left = left_by(vs, budget, n - 1);
        (left - wanted_from(vs[n - 1], left).len()) as nat
    }
}

/// How many files the first `n` vaults want in one pass over them.
pub open spec fn wanted_in_all(vs: Seq<Walked>, budget: nat, n: int) -> nat
    decreases n,
{
    if n <= 0 {
        0
    } else {
        wanted_in_all(vs, budget, n - 1) + wanted_from(
            vs[n - 1],
            left_by(vs, budget, n - 1),
        ).len()
    }
}

proof fn lemma_wanted_within(ns: Seq<NoteView>, found: Seq<FoundView>, budget: nat, n: int)
    ensures
        wanted_of(ns, found, budget, n).len() <= budget,
    decreases n,
{
    if n > 0 {
        lemma_wanted_within(ns, found, budget, n - 1);
    }
}

/// One budget does for every vault: however many there are, a pass over all of them wants no more
/// files than it, and what is not wanted is left.
pub proof fn law_one_budget_does_for_every_vault(vs: Seq<Walked>, budget: nat, n: int)
    requires
        0 <= n <= vs.len(),
    ensures
        wanted_in_all(vs, budget, n) <= budget,
        left_by(vs, budget, n) == budget - wanted_in_all(vs, budget, n),
    decreases n,
{
    if n > 0 {
        law_one_budget_does_for_every_vault(vs, budget, n - 1);
        let v = vs[n - 1];
        lemma_wanted_within(
            v.notes,
            v.found,
            left_by(vs, budget, n - 1),
            v.found.len() as int,
        );
    }
}

impl Index {
    /// The share of a budget that this vault takes: the files to read, by number, and what is left
    /// for the next.
    pub fn share(&self, found: &Vec<Found>, budget: usize) -> (r: (Vec<usize>, usize))
        ensures
            r.0@ == wanted_from(
                (Walked { notes: self.view_notes(), found: found_views(found@) }),
                budget as nat,
            ),
            r.1 as nat == left_by(
                seq![Walked { notes: self.view_notes(), found: found_views(found@) }],
                budget as nat,
                1,
            ),
    {
        let wanted = self.wanted(found, budget);
        let left: usize = budget - wanted.len();
        proof {
            reveal_with_fuel(left_by, 2);
        }
        (wanted, left)
    }
}

} // verus!
