//! Git facts about a pane's directory, and the worktrees made for agents.
//!
//! A fleet of agents in one repository stomp each other, so each can have a worktree of its
//! own: beside the project, as a sibling named after it. Which trees belong to agents is told
//! by the branch, not the path: every one is on `horde/<name>`, so a tree you made yourself is
//! never listed and never removable.
//!
//! Running git is somebody else's work. What it printed comes in as text, and the commands to
//! run go out as arguments.

use crate::paths::{
    file_name, join_path, join_paths, name_in, parent, parent_in, place, placed_in, same_path,
    same_place,
};
use crate::seqs::{
    first_where, lemma_first_where, lemma_first_where_is, lemma_pick_complete, lemma_pick_sound,
    lemma_pick_take, pick,
};
use crate::text::{
    begins, chars_of, class, comes_before, is_ascii_letter, is_digit, lemma_drop_while_at,
    lemma_skip_while_at, lines, lines_of, opt_str, opt_text, owned, quote, quoted, same, skip_while,
    starts_with, strip_prefix, text_before, texts, trim, trim_by, trim_in, trimmed,
};
use vstd::prelude::*;
use vstd::string::*;

verus! {

/// Branches made for agents are prefixed, so `git branch` says where they came from.
pub const BRANCH_PREFIX: &'static str = "horde/";

/// How often, in milliseconds, a repository's branch and dirty state are read again.
pub const REFRESH: u64 = 5_000;

/// What git says about a directory.
#[derive(Debug, Clone, PartialEq, Eq)]
pub struct Repo {
    /// The working tree's own root.
    pub root: String,
    /// Branch name, or `detached` when there is no branch to name.
    pub branch: String,
    /// Tracked files differ from `HEAD`. Untracked files deliberately do not count.
    pub dirty: bool,
}

/// The same, as text.
pub struct RepoView {
    pub root: Seq<char>,
    pub branch: Seq<char>,
    pub dirty: bool,
}

impl View for Repo {
    type V = RepoView;

    open spec fn view(&self) -> RepoView {
        RepoView { root: self.root@, branch: self.branch@, dirty: self.dirty }
    }
}

/// A repository that may not be one, as text.
pub open spec fn opt_repo(r: Option<Repo>) -> Option<RepoView> {
    match r {
        Some(r) => Some(r@),
        None => None,
    }
}

/// What a run of git answered: what it printed, trimmed, where it succeeded.
pub fn git_reply(success: bool, stdout: &str) -> (r: Option<String>)
    ensures
        opt_text(r) == (if success {
            Some(trimmed(stdout@))
        } else {
            None
        }),
{
    if success {
        Some(trim(stdout))
    } else {
        None
    }
}

/// What to say of a run of git that failed: git's own words, or which command it was.
pub open spec fn failure_text(args: Seq<char>, stderr: Seq<char>) -> Seq<char> {
    if trimmed(stderr).len() == 0 {
        "git "@ + args + " failed"@
    } else {
        trimmed(stderr)
    }
}

/// What to say of a run of git that failed. `args` is the command, joined by spaces.
pub fn git_failure(args: &str, stderr: &str) -> (r: String)
    ensures
        r@ == failure_text(args@, stderr@),
{
    let e = trim(stderr);
    if e.as_str().is_empty() {
        let mut m = owned("git ");
        m.append(args);
        m.append(" failed");
        m
    } else {
        e
    }
}

/// What `rev-parse --show-toplevel --abbrev-ref HEAD` and a quiet diff say of a directory.
pub open spec fn probed(head: Option<Seq<char>>, clean: bool) -> Option<RepoView> {
    match head {
        None => None,
        Some(out) => {
            let ls = lines_of(out);
            if ls.len() < 2 {
                None
            } else {
                Some(
                    RepoView {
                        root: ls[0],
                        branch: if ls[1] == "HEAD"@ {
                            "detached"@
                        } else {
                            ls[1]
                        },
                        dirty: !clean,
                    },
                )
            }
        },
    }
}

/// What branch a directory is on, and whether it is dirty: `None` when it is not a repository.
///
/// `head` is what `rev-parse --show-toplevel --abbrev-ref HEAD` answered, and `clean` whether
/// `diff --quiet HEAD` succeeded.
pub fn probe(head: Option<&str>, clean: bool) -> (r: Option<Repo>)
    ensures
        opt_repo(r) == probed(opt_str(head), clean),
{
    match head {
        None => None,
        Some(out) => {
            let ls = lines(out);
            proof {
                assert(texts(ls@).len() == ls@.len());
            }
            if ls.len() < 2 {
                return None;
            }
            proof {
                assert(lines_of(out@)[0] == ls@[0]@);
                assert(lines_of(out@)[1] == ls@[1]@);
            }
            // `--abbrev-ref` says `HEAD` when there is no branch, which would read as a branch
            // called HEAD.
            let branch = if same(ls[1].as_str(), "HEAD") {
                owned("detached")
            } else {
                ls[1].clone()
            };
            Some(Repo { root: ls[0].clone(), branch, dirty: !clean })
        },
    }
}

/// The repository a worktree belongs to, from what `rev-parse --git-common-dir` answered.
pub fn main_root(common: Option<&str>) -> (r: Option<String>)
    ensures
        opt_text(r) == (match common {
            Some(c) => parent(c@),
            None => None,
        }),
{
    match common {
        Some(c) => parent_in(c),
        None => None,
    }
}

/// Whether a directory is an agent's worktree rather than a tree you made yourself.
///
/// Both halves are needed: the branch prefix says whose it is, and `.git` being a *file* says
/// that this is a linked worktree at all.
pub fn is_agent_worktree(branch: &str, dot_git_is_file: bool) -> (r: bool)
    ensures
        r == (begins(branch@, BRANCH_PREFIX@) && dot_git_is_file),
{
    starts_with(branch, BRANCH_PREFIX) && dot_git_is_file
}

// -- the cache ---------------------------------------------------------------

/// What was last read of a directory, and when.
pub struct Entry {
    pub dir: String,
    pub at: u64,
    pub repo: Option<Repo>,
}

/// The same, as values.
pub struct EntryView {
    pub dir: Seq<char>,
    pub at: u64,
    pub repo: Option<RepoView>,
}

impl View for Entry {
    type V = EntryView;

    open spec fn view(&self) -> EntryView {
        EntryView { dir: self.dir@, at: self.at, repo: opt_repo(self.repo) }
    }
}

/// Branch and dirty state per directory, read again when it is [`REFRESH`] old.
pub struct Cache {
    pub entries: Vec<Entry>,
}

impl Default for Cache {
    fn default() -> (r: Cache)
        ensures
            r@ == Map::<Seq<Seq<char>>, EntryView>::empty(),
            r.wf(),
    {
        let c = Cache { entries: Vec::new() };
        proof {
            assert(c@ =~= Map::<Seq<Seq<char>>, EntryView>::empty());
        }
        c
    }
}

/// An entry for the directory at this place, however its path is written.
pub open spec fn entry_for(at: Seq<Seq<char>>) -> spec_fn(Entry) -> bool {
    |e: Entry| place(e.dir@) == at
}

/// The places that some paths are written for.
pub open spec fn places_of(paths: Seq<Seq<char>>) -> Seq<Seq<Seq<char>>> {
    Seq::new(paths.len(), |i: int| place(paths[i]))
}

impl View for Cache {
    type V = Map<Seq<Seq<char>>, EntryView>;

    /// What is known of each directory, by its place.
    open spec fn view(&self) -> Map<Seq<Seq<char>>, EntryView> {
        Map::new(
            |at: Seq<Seq<char>>| first_where(self.entries@, entry_for(at)) < self.entries@.len(),
            |at: Seq<Seq<char>>| self.entries@[first_where(self.entries@, entry_for(at))]@,
        )
    }
}

/// Whether what is known of a directory is to be read again.
pub open spec fn is_stale(c: Map<Seq<Seq<char>>, EntryView>, dir: Seq<char>, now: u64) -> bool {
    !c.contains_key(place(dir)) || now >= c[place(dir)].at + REFRESH
}

/// What is known of a directory.
pub open spec fn peeked(c: Map<Seq<Seq<char>>, EntryView>, dir: Seq<char>) -> Option<RepoView> {
    if c.contains_key(place(dir)) {
        c[place(dir)].repo
    } else {
        None
    }
}

impl Cache {
    /// Each directory has one entry.
    pub open spec fn wf(&self) -> bool {
        forall|i: int, j: int|
            0 <= i < j < self.entries@.len() ==> place((#[trigger] self.entries@[i]).dir@) != place(
                (#[trigger] self.entries@[j]).dir@,
            )
    }

    /// Where the entry for a directory is, or the number of entries.
    fn position(&self, dir: &str) -> (r: usize)
        ensures
            r <= self.entries@.len(),
            r == first_where(self.entries@, entry_for(place(dir@))),
            r < self.entries@.len() ==> place(self.entries@[r as int].dir@) == place(dir@),
    {
        let mut i: usize = 0;
        while i < self.entries.len() && !same_path(self.entries[i].dir.as_str(), dir)
            invariant
                i <= self.entries@.len(),
                forall|j: int| 0 <= j < i ==> !entry_for(place(dir@))(#[trigger] self.entries@[j]),
            decreases self.entries@.len() - i,
        {
            i = i + 1;
        }
        proof {
            lemma_first_where_is(self.entries@, entry_for(place(dir@)), i as int);
        }
        i
    }

    /// Whether what is known of a directory is to be read again.
    pub fn needs(&self, dir: &str, now: u64) -> (r: bool)
        ensures
            r == is_stale(self@, dir@, now),
    {
        let i: usize = self.position(dir);
        if i < self.entries.len() {
            let at: u64 = self.entries[i].at;
            now >= at && now - at >= REFRESH
        } else {
            true
        }
    }

    /// The answer for a directory. Where [`Cache::needs`] said so it is the one just read,
    /// `fresh`; otherwise the one that was kept.
    pub fn get(&mut self, dir: &str, now: u64, fresh: Option<Repo>) -> (r: Option<&Repo>)
        requires
            old(self).wf(),
        ensures
            final(self).wf(),
            final(self)@ == (if is_stale(old(self)@, dir@, now) {
                old(self)@.insert(
                    place(dir@),
                    EntryView { dir: dir@, at: now, repo: opt_repo(fresh) },
                )
            } else {
                old(self)@
            }),
            (match r {
                Some(x) => Some(x@),
                None => None,
            }) == peeked(final(self)@, dir@),
    {
        let stale = self.needs(dir, now);
        let i: usize = self.position(dir);
        if stale {
            let e = Entry { dir: owned(dir), at: now, repo: fresh };
            let ghost before = self.entries@;
            let ghost was = self@;
            if i < self.entries.len() {
                self.entries.set(i, e);
            } else {
                self.entries.push(e);
            }
            proof {
                lemma_put(before, self.entries@, i as int, e);
                assert(self@ =~= was.insert(place(dir@), e@));
                lemma_first_where(before, entry_for(place(dir@)));
                let now = self.entries@;
                assert forall|a: int, b: int| 0 <= a < b < now.len() implies place(
                    (#[trigger] now[a]).dir@,
                ) != place((#[trigger] now[b]).dir@) by {
                    assert(a != i ==> now[a] == before[a]);
                    if b < before.len() {
                        assert(b != i ==> now[b] == before[b]);
                        assert(place(before[a].dir@) != place(before[b].dir@));
                        if a == i || b == i {
                            assert(entry_for(place(dir@))(before[i as int]));
                        }
                    } else {
                        assert(!entry_for(place(dir@))(before[a]));
                    }
                }
            }
        }
        self.peek(dir)
    }

    /// The kept answer, without reading anything.
    pub fn peek(&self, dir: &str) -> (r: Option<&Repo>)
        ensures
            (match r {
                Some(x) => Some(x@),
                None => None,
            }) == peeked(self@, dir@),
    {
        let i: usize = self.position(dir);
        if i < self.entries.len() {
            match &self.entries[i].repo {
                Some(x) => Some(x),
                None => None,
            }
        } else {
            None
        }
    }

    /// Forget directories nothing points at any more.
    pub fn retain(&mut self, live: &[String])
        requires
            old(self).wf(),
        ensures
            final(self).wf(),
            final(self)@ == old(self)@.restrict(places_of(texts(live@)).to_set()),
    {
        let ghost before = self.entries@;
        let ghost keep = |e: Entry| places_of(texts(live@)).contains(place(e.dir@));
        let ghost id = |e: Entry| e;
        let mut k: usize = 0;
        let ghost mut at: int = 0;
        proof {
            assert(pick(before.take(0), keep, id) + before.skip(0) =~= before);
        }
        while k < self.entries.len()
            invariant
                0 <= at <= before.len(),
                keep == (|e: Entry| places_of(texts(live@)).contains(place(e.dir@))),
                id == (|e: Entry| e),
                k == pick(before.take(at), keep, id).len(),
                self.entries@ == pick(before.take(at), keep, id) + before.skip(at),
            decreases self.entries@.len() - k,
        {
            let ghost now = self.entries@;
            let ghost kept = pick(before.take(at), keep, id);
            proof {
                assert(now.len() == kept.len() + before.skip(at).len());
                assert(at < before.len());
                assert(now[k as int] == before.skip(at)[0]);
                lemma_pick_take(before, keep, id, at);
            }
            let stays = placed_in(live, self.entries[k].dir.as_str());
            proof {
                let d = place(before[at].dir@);
                let ls = places_of(texts(live@));
                if stays {
                    let j = choose|j: int|
                        0 <= j < live@.len() && #[trigger] same_place(live@[j]@, before[at].dir@);
                    assert(ls[j] == d);
                }
                if ls.contains(d) {
                    let j = choose|j: int| 0 <= j < ls.len() && ls[j] == d;
                    assert(same_place(live@[j]@, before[at].dir@));
                }
            }
            if stays {
                proof {
                    assert(now =~= kept.push(before[at]) + before.skip(at + 1));
                }
                k = k + 1;
            } else {
                self.entries.remove(k);
                proof {
                    let less = self.entries@;
                    assert forall|i: int| 0 <= i < less.len() implies #[trigger] less[i] == (kept
                        + before.skip(at + 1))[i] by {
                        if i < k {
                            assert(less[i] == now[i]);
                        } else {
                            assert(less[i] == now[i + 1]);
                            assert(now[i + 1] == before.skip(at)[i + 1 - k]);
                        }
                    }
                    assert(less =~= kept + before.skip(at + 1));
                }
            }
            proof {
                at = at + 1;
            }
        }
        proof {
            assert(before.skip(at).len() == 0);
            assert(before.take(at) =~= before);
            assert(self.entries@ =~= pick(before, keep, id));
            lemma_kept(before, keep);
            let now = self.entries@;
            let want = old(self)@.restrict(places_of(texts(live@)).to_set());
            assert forall|d: Seq<Seq<char>>| #[trigger]
                want.contains_key(d) == self@.contains_key(d) by {
                lemma_kept_key(before, keep, places_of(texts(live@)), d);
            }
            assert forall|d: Seq<Seq<char>>| #[trigger] self@.contains_key(d) implies self@[d]
                == want[d] by {
                lemma_kept_key(before, keep, places_of(texts(live@)), d);
                assert(want.contains_key(d));
            }
            assert(self@ =~= want);
        }
    }
}

/// Writing an entry changes what is known of its own directory and of no other.
proof fn lemma_put(before: Seq<Entry>, after: Seq<Entry>, i: int, e: Entry)
    requires
        0 <= i <= before.len(),
        i == first_where(before, entry_for(place(e.dir@))),
        after == (if i < before.len() {
            before.update(i, e)
        } else {
            before.push(e)
        }),
    ensures
        first_where(after, entry_for(place(e.dir@))) == i,
        forall|d: Seq<Seq<char>>|
            d != place(e.dir@) ==> (first_where(before, #[trigger] entry_for(d)) < before.len() <==> first_where(
                after,
                entry_for(d),
            ) < after.len()),
        forall|d: Seq<Seq<char>>|
            d != place(e.dir@) && first_where(before, #[trigger] entry_for(d)) < before.len()
                ==> after[first_where(after, entry_for(d))] == before[first_where(
                before,
                entry_for(d),
            )],
{
    lemma_first_where(before, entry_for(place(e.dir@)));
    assert forall|j: int| 0 <= j < i implies !entry_for(place(e.dir@))(#[trigger] after[j]) by {
        assert(after[j] == before[j]);
    }
    lemma_first_where_is(after, entry_for(place(e.dir@)), i);
    assert forall|d: Seq<Seq<char>>| d != place(e.dir@) implies (first_where(before, #[trigger] entry_for(d))
        < before.len() <==> first_where(after, entry_for(d)) < after.len()) && (first_where(
        before,
        entry_for(d),
    ) < before.len() ==> after[first_where(after, entry_for(d))] == before[first_where(
        before,
        entry_for(d),
    )]) by {
        let p = entry_for(d);
        lemma_first_where(before, p);
        let f = first_where(before, p);
        assert forall|j: int| 0 <= j < f implies !p(#[trigger] after[j]) by {
            if j != i {
                assert(after[j] == before[j]);
            }
        }
        if f < before.len() {
            assert(p(before[f]));
            if f == i {
                assert(entry_for(place(e.dir@))(before[i]));
            }
            assert(after[f] == before[f]);
            lemma_first_where_is(after, p, f);
        } else {
            assert forall|j: int| 0 <= j < after.len() implies !p(#[trigger] after[j]) by {
                if j != i {
                    assert(after[j] == before[j]);
                }
            }
            lemma_first_where_is(after, p, after.len() as int);
        }
    }
}

/// What is kept is kept once.
proof fn lemma_kept(s: Seq<Entry>, keep: spec_fn(Entry) -> bool)
    requires
        forall|i: int, j: int|
            0 <= i < j < s.len() ==> place((#[trigger] s[i]).dir@) != place((#[trigger] s[j]).dir@),
    ensures
        ({
            let r = pick(s, keep, |e: Entry| e);
            &&& forall|i: int, j: int|
                0 <= i < j < r.len() ==> place((#[trigger] r[i]).dir@) != place((#[trigger] r[j]).dir@)
            &&& forall|i: int| 0 <= i < r.len() ==> s.contains(#[trigger] r[i])
        }),
    decreases s.len(),
{
    let id = |e: Entry| e;
    let r = pick(s, keep, id);
    if s.len() > 0 {
        let t = s.drop_last();
        assert forall|i: int, j: int| 0 <= i < j < t.len() implies place((#[trigger] t[i]).dir@) != place(
            (#[trigger] t[j]).dir@,
        ) by {
            assert(t[i] == s[i] && t[j] == s[j]);
        }
        lemma_kept(t, keep);
        let q = pick(t, keep, id);
        assert forall|i: int| 0 <= i < r.len() implies s.contains(#[trigger] r[i]) by {
            if i < q.len() {
                assert(r[i] == q[i]);
                let k = choose|k: int| 0 <= k < t.len() && t[k] == q[i];
                assert(s[k] == r[i]);
            } else {
                assert(s[s.len() - 1] == r[i]);
            }
        }
        assert forall|i: int, j: int| 0 <= i < j < r.len() implies place((#[trigger] r[i]).dir@) != place(
            (#[trigger] r[j]).dir@,
        ) by {
            assert(r[i] == q[i]);
            if j < q.len() {
                assert(r[j] == q[j]);
            } else {
                let k = choose|k: int| 0 <= k < t.len() && t[k] == q[i];
                assert(s[k] == r[i]);
                assert(place(s[k].dir@) != place(s[s.len() - 1].dir@));
            }
        }
    }
}

proof fn lemma_kept_key(
    s: Seq<Entry>,
    keep: spec_fn(Entry) -> bool,
    live: Seq<Seq<Seq<char>>>,
    d: Seq<Seq<char>>,
)
    requires
        forall|i: int, j: int|
            0 <= i < j < s.len() ==> place((#[trigger] s[i]).dir@) != place((#[trigger] s[j]).dir@),
        keep == (|e: Entry| live.contains(place(e.dir@))),
    ensures
        ({
            let r = pick(s, keep, |e: Entry| e);
            let p = entry_for(d);
            &&& (first_where(r, p) < r.len()) == (first_where(s, p) < s.len() && live.contains(d))
            &&& first_where(r, p) < r.len() ==> r[first_where(r, p)] == s[first_where(s, p)]
        }),
{
    let id = |e: Entry| e;
    let r = pick(s, keep, id);
    let p = entry_for(d);
    lemma_first_where(r, p);
    lemma_first_where(s, p);
    let f = first_where(s, p);
    let g = first_where(r, p);
    if g < r.len() {
        let i = lemma_pick_sound(s, keep, id, g);
        assert(s[i] == r[g]);
        if f == s.len() {
            assert(!p(s[i]));
        }
        if f < i {
            assert(place(s[f].dir@) != place(s[i].dir@));
        }
        if i < f {
            assert(!p(s[i]));
        }
    }
    if f < s.len() && live.contains(d) {
        let k = lemma_pick_complete(s, keep, id, f);
        assert(r[k] == s[f]);
        if g == r.len() {
            assert(!p(r[k]));
        }
    }
}

// -- worktrees ---------------------------------------------------------------

/// One worktree made for an agent.
#[derive(Debug, Clone, PartialEq, Eq)]
pub struct Worktree {
    pub name: String,
    pub path: String,
    pub branch: String,
    /// Tracked files differ from `HEAD`, so removing it would lose work.
    pub dirty: bool,
}

/// The same, as text.
pub struct WorktreeView {
    pub name: Seq<char>,
    pub path: Seq<char>,
    pub branch: Seq<char>,
    pub dirty: bool,
}

impl View for Worktree {
    type V = WorktreeView;

    open spec fn view(&self) -> WorktreeView {
        WorktreeView {
            name: self.name@,
            path: self.path@,
            branch: self.branch@,
            dirty: self.dirty,
        }
    }
}

/// Worktrees, as text.
pub open spec fn tree_views(v: Seq<Worktree>) -> Seq<WorktreeView> {
    Seq::new(v.len(), |i: int| v[i]@)
}

/// Why there is no worktree to be had.
#[derive(Debug, Clone, PartialEq, Eq)]
pub enum RepoError {
    /// Nothing in the name can stand in a directory's.
    Unusable(String),
    /// The same, of a name that should be a worktree's.
    NotAName(String),
    /// The directory is in no repository.
    NotARepository(String),
    /// Something else stands where the worktree would go.
    Taken(String),
    /// No worktree has that name.
    NoSuch(String),
    /// Git failed, and this is what it said.
    Git(String),
}

/// The same, as text.
pub enum RepoErrorView {
    Unusable(Seq<char>),
    NotAName(Seq<char>),
    NotARepository(Seq<char>),
    Taken(Seq<char>),
    NoSuch(Seq<char>),
    Git(Seq<char>),
}

impl View for RepoError {
    type V = RepoErrorView;

    open spec fn view(&self) -> RepoErrorView {
        match *self {
            RepoError::Unusable(s) => RepoErrorView::Unusable(s@),
            RepoError::NotAName(s) => RepoErrorView::NotAName(s@),
            RepoError::NotARepository(s) => RepoErrorView::NotARepository(s@),
            RepoError::Taken(s) => RepoErrorView::Taken(s@),
            RepoError::NoSuch(s) => RepoErrorView::NoSuch(s@),
            RepoError::Git(s) => RepoErrorView::Git(s@),
        }
    }
}

impl RepoErrorView {
    /// The sentence a person is shown.
    pub open spec fn message(self) -> Seq<char> {
        match self {
            RepoErrorView::Unusable(s) => quoted(s)
                + " has no usable characters for a directory name"@,
            RepoErrorView::NotAName(s) => quoted(s) + " is not a worktree name"@,
            RepoErrorView::NotARepository(s) => s + " is not in a git repository"@,
            RepoErrorView::Taken(s) => s
                + " already exists and is not a horde worktree — move it, or give the agent another name"@,
            RepoErrorView::NoSuch(s) => "no worktree called "@ + s,
            RepoErrorView::Git(s) => s,
        }
    }
}

impl RepoError {
    pub fn copy(&self) -> (r: RepoError)
        ensures
            r@ == self@,
    {
        match self {
            RepoError::Unusable(s) => RepoError::Unusable(s.clone()),
            RepoError::NotAName(s) => RepoError::NotAName(s.clone()),
            RepoError::NotARepository(s) => RepoError::NotARepository(s.clone()),
            RepoError::Taken(s) => RepoError::Taken(s.clone()),
            RepoError::NoSuch(s) => RepoError::NoSuch(s.clone()),
            RepoError::Git(s) => RepoError::Git(s.clone()),
        }
    }

    /// The sentence a person is shown.
    pub fn message(&self) -> (r: String)
        ensures
            r@ == self@.message(),
    {
        match self {
            RepoError::Unusable(s) => {
                let mut m = quote(s.as_str());
                m.append(" has no usable characters for a directory name");
                m
            },
            RepoError::NotAName(s) => {
                let mut m = quote(s.as_str());
                m.append(" is not a worktree name");
                m
            },
            RepoError::NotARepository(s) => {
                let mut m = s.clone();
                m.append(" is not in a git repository");
                m
            },
            RepoError::Taken(s) => {
                let mut m = s.clone();
                m.append(
                    " already exists and is not a horde worktree — move it, or give the agent another name",
                );
                m
            },
            RepoError::NoSuch(s) => {
                let mut m = owned("no worktree called ");
                m.append(s.as_str());
                m
            },
            RepoError::Git(s) => s.clone(),
        }
    }
}

/// A character that a path component and a ref both tolerate.
pub open spec fn is_plain(c: char) -> bool {
    is_ascii_letter(c) || is_digit(c) || c == '-' || c == '_' || c == '.'
}

/// A text with everything else as a dash.
pub open spec fn dashed(s: Seq<char>) -> Seq<char> {
    Seq::new(
        s.len(),
        |i: int|
            if is_plain(s[i]) {
                s[i]
            } else {
                '-'
            },
    )
}

/// What is left of a name that has to be a directory's and a branch's, if anything.
pub open spec fn sanitised(name: Seq<char>) -> Option<Seq<char>> {
    let s = trim_by(dashed(trimmed(name)), class("-."@, false));
    if s.len() > 0 {
        Some(s)
    } else {
        None
    }
}

/// Directory names are path components and branch names are refs, and neither tolerates
/// everything an agent might be called.
pub fn sanitise(name: &str) -> (r: Option<String>)
    ensures
        opt_text(r) == sanitised(name@),
{
    let t = trim(name);
    let cs = chars_of(t.as_str());
    let mut out = String::new();
    let mut i: usize = 0;
    while i < cs.len()
        invariant
            cs@ == t@,
            i <= cs@.len(),
            out@ == dashed(t@).take(i as int),
        decreases cs@.len() - i,
    {
        let c = cs[i];
        let plain = ('a' <= c && c <= 'z') || ('A' <= c && c <= 'Z') || ('0' <= c && c <= '9') || c
            == '-' || c == '_' || c == '.';
        out.push(
            if plain {
                c
            } else {
                '-'
            },
        );
        proof {
            assert(dashed(t@).take(i as int + 1) =~= dashed(t@).take(i as int).push(
                dashed(t@)[i as int],
            ));
        }
        i = i + 1;
    }
    proof {
        assert(dashed(t@).take(i as int) =~= dashed(t@));
    }
    let s = trim_in(out.as_str(), "-.", false);
    if s.as_str().is_empty() {
        None
    } else {
        Some(s)
    }
}

/// Where a named worktree goes: beside the project and named after it, or inside a repository
/// that has no sibling to be.
pub open spec fn tree_path(root: Seq<char>, name: Seq<char>) -> Seq<char> {
    match (parent(root), file_name(root)) {
        (Some(up), Some(project)) => join_path(up, project + "-"@ + name),
        _ => join_path(root, name),
    }
}

/// Where a named worktree goes: `~/dev/WCP` and `ads` become `~/dev/WCP-ads`.
pub fn worktree_path(root: &str, name: &str) -> (r: String)
    ensures
        r@ == tree_path(root@, name@),
{
    match (parent_in(root), name_in(root)) {
        (Some(up), Some(project)) => {
            let mut leaf = project;
            leaf.append("-");
            leaf.append(name);
            join_paths(up.as_str(), leaf.as_str())
        },
        _ => join_paths(root, name),
    }
}

/// A branch without what every local branch starts with.
pub open spec fn short_branch(b: Seq<char>) -> Seq<char> {
    if begins(b, "refs/heads/"@) {
        b.skip("refs/heads/"@.len() as int)
    } else {
        b
    }
}

/// A branch without what every local branch starts with.
fn shorten(b: &str) -> (r: String)
    ensures
        r@ == short_branch(b@),
{
    match strip_prefix(b, "refs/heads/") {
        Some(s) => s,
        None => owned(b),
    }
}

/// The path last named before the branch, among the first `n` lines: how far a reading of a
/// listing has got, and what it found.
pub open spec fn on_branch(
    ls: Seq<Seq<char>>,
    branch: Seq<char>,
    at: int,
    path: Option<Seq<char>>,
) -> Option<Seq<char>>
    decreases ls.len() - at,
{
    if at < 0 || at >= ls.len() {
        None
    } else if begins(ls[at], "worktree "@) {
        on_branch(ls, branch, at + 1, Some(ls[at].skip("worktree "@.len() as int)))
    } else if begins(ls[at], "branch "@) && short_branch(ls[at].skip("branch "@.len() as int))
        == branch {
        path
    } else {
        on_branch(ls, branch, at + 1, path)
    }
}

/// The worktree already on `branch`, if there is one, from `worktree list --porcelain`.
///
/// Asked before creating, because "already there" is the resume case rather than an error.
pub fn worktree_on_branch(listing: &str, branch: &str) -> (r: Option<String>)
    ensures
        opt_text(r) == on_branch(lines_of(listing@), branch@, 0, None),
{
    let ls = lines(listing);
    let ghost all = lines_of(listing@);
    let mut path: Option<String> = None;
    let mut i: usize = 0;
    while i < ls.len()
        invariant
            i <= ls@.len(),
            texts(ls@) == all,
            all == lines_of(listing@),
            on_branch(all, branch@, 0, None) == on_branch(
                all,
                branch@,
                i as int,
                opt_text(path),
            ),
        decreases ls@.len() - i,
    {
        let line = ls[i].as_str();
        proof {
            assert(all[i as int] == line@);
        }
        match strip_prefix(line, "worktree ") {
            Some(p) => {
                path = Some(p);
            },
            None => match strip_prefix(line, "branch ") {
                Some(b) => {
                    let b = shorten(b.as_str());
                    if same(b.as_str(), branch) {
                        return path;
                    }
                },
                None => {},
            },
        }
        i = i + 1;
    }
    None
}

/// What has been read of a listing.
pub struct ListingView {
    pub path: Option<Seq<char>>,
    pub branch: Seq<char>,
    pub found: Seq<WorktreeView>,
}

/// What one line adds: a record starts, names its branch, or ends. Only records on an agent's
/// branch are kept, under the half of the branch after the prefix.
pub open spec fn listing_step(s: ListingView, line: Seq<char>) -> ListingView {
    if begins(line, "worktree "@) {
        ListingView {
            path: Some(line.skip("worktree "@.len() as int)),
            branch: "detached"@,
            ..s
        }
    } else if begins(line, "branch "@) {
        ListingView { branch: short_branch(line.skip("branch "@.len() as int)), ..s }
    } else if line.len() == 0 {
        ListingView {
            path: None,
            found: if s.path is Some && begins(s.branch, BRANCH_PREFIX@) {
                s.found.push(
                    WorktreeView {
                        name: s.branch.skip(BRANCH_PREFIX@.len() as int),
                        path: s.path->Some_0,
                        branch: s.branch,
                        dirty: false,
                    },
                )
            } else {
                s.found
            },
            ..s
        }
    } else {
        s
    }
}

/// What lines of a listing come to.
pub open spec fn listing_of(ls: Seq<Seq<char>>) -> ListingView
    decreases ls.len(),
{
    if ls.len() == 0 {
        ListingView { path: None, branch: Seq::empty(), found: Seq::empty() }
    } else {
        listing_step(listing_of(ls.drop_last()), ls.last())
    }
}

/// The agents' worktrees in a listing, in its order, none marked dirty yet. Records are
/// separated by blank lines, and the last one may lack its own.
pub open spec fn trees_in(listing: Seq<char>) -> Seq<WorktreeView> {
    listing_of(lines_of(listing).push(Seq::empty())).found
}

/// The agents' worktrees in what `worktree list --porcelain` printed.
pub fn parse_worktrees(listing: &str) -> (r: Vec<Worktree>)
    ensures
        tree_views(r@) == trees_in(listing@),
{
    let mut ls = lines(listing);
    ls.push(String::new());
    let ghost all = lines_of(listing@).push(Seq::empty());
    proof {
        assert(texts(ls@) =~= all);
    }
    let mut found: Vec<Worktree> = Vec::new();
    let mut path: Option<String> = None;
    let mut branch = String::new();
    let mut i: usize = 0;
    proof {
        assert(all.take(0) =~= Seq::<Seq<char>>::empty());
        assert(tree_views(found@) =~= Seq::<WorktreeView>::empty());
    }
    while i < ls.len()
        invariant
            i <= ls@.len(),
            texts(ls@) == all,
            listing_of(all.take(i as int)) == (ListingView {
                path: opt_text(path),
                branch: branch@,
                found: tree_views(found@),
            }),
        decreases ls@.len() - i,
    {
        let line = ls[i].as_str();
        proof {
            assert(all[i as int] == line@);
            assert(all.take(i as int + 1).drop_last() =~= all.take(i as int));
            assert(all.take(i as int + 1).last() == line@);
        }
        match strip_prefix(line, "worktree ") {
            Some(p) => {
                path = Some(p);
                branch = owned("detached");
            },
            None => match strip_prefix(line, "branch ") {
                Some(b) => {
                    branch = shorten(b.as_str());
                },
                None => {
                    if line.is_empty() {
                        if let Some(p) = path {
                            match strip_prefix(branch.as_str(), BRANCH_PREFIX) {
                                Some(name) => {
                                    let ghost had = tree_views(found@);
                                    let w = Worktree {
                                        name,
                                        path: p,
                                        branch: branch.clone(),
                                        dirty: false,
                                    };
                                    found.push(w);
                                    proof {
                                        assert(tree_views(found@) =~= had.push(w@));
                                    }
                                },
                                None => {},
                            }
                        }
                        path = None;
                    }
                },
            },
        }
        i = i + 1;
    }
    proof {
        assert(all.take(all.len() as int) =~= all);
    }
    found
}

/// A worktree put in its place in a list that is in order of name, behind those of its name.
pub open spec fn filed(r: Seq<WorktreeView>, w: WorktreeView) -> Seq<WorktreeView> {
    r.insert(first_where(r, |x: WorktreeView| text_before(w.name, x.name)), w)
}

/// Worktrees in order of name, each with whether it is dirty.
pub open spec fn filed_all(ts: Seq<WorktreeView>, dirty: Seq<bool>) -> Seq<WorktreeView>
    decreases ts.len(),
{
    if ts.len() == 0 {
        Seq::empty()
    } else {
        filed(
            filed_all(ts.drop_last(), dirty.drop_last()),
            WorktreeView { dirty: dirty.last(), ..ts.last() },
        )
    }
}

/// Every worktree made for agents, as far as there is a list of them: none where the directory is
/// in no repository, or where git fails.
pub open spec fn listed_trees(
    dir: Seq<char>,
    root: Option<Seq<char>>,
    listing: Result<Seq<char>, Seq<char>>,
    dirty: Seq<bool>,
) -> Result<Seq<WorktreeView>, RepoErrorView> {
    match (root, listing) {
        (None, _) => Err(RepoErrorView::NotARepository(dir)),
        (Some(_), Err(why)) => Err(RepoErrorView::Git(why)),
        (Some(_), Ok(text)) => Ok(filed_all(trees_in(text), dirty)),
    }
}

/// A list of worktrees, or why there is none, as values.
pub open spec fn trees_outcome(r: Result<Vec<Worktree>, RepoError>) -> Result<
    Seq<WorktreeView>,
    RepoErrorView,
> {
    match r {
        Ok(v) => Ok(tree_views(v@)),
        Err(e) => Err(e@),
    }
}

/// What git printed, or what it said where it failed, as text.
pub open spec fn git_outcome(r: Result<&str, &str>) -> Result<Seq<char>, Seq<char>> {
    match r {
        Ok(s) => Ok(s@),
        Err(s) => Err(s@),
    }
}

/// Every worktree made for agents, in order of name. `root` is [`main_root`] of the directory,
/// `listing` what git answered there, and `dirty` says which of [`parse_worktrees`] are dirty.
pub fn list_worktrees(
    dir: &str,
    root: Option<&str>,
    listing: Result<&str, &str>,
    dirty: &Vec<bool>,
) -> (r: Result<Vec<Worktree>, RepoError>)
    requires
        root is Some && listing is Ok ==> dirty@.len() == trees_in(listing->Ok_0@).len(),
    ensures
        trees_outcome(r) == listed_trees(dir@, opt_str(root), git_outcome(listing), dirty@),
{
    match root {
        None => Err(RepoError::NotARepository(owned(dir))),
        Some(_) => match listing {
            Err(why) => Err(RepoError::Git(owned(why))),
            Ok(text) => Ok(file_trees(text, dirty)),
        },
    }
}

/// Every worktree that a listing has for agents, in order of name.
fn file_trees(listing: &str, dirty: &Vec<bool>) -> (r: Vec<Worktree>)
    requires
        dirty@.len() == trees_in(listing@).len(),
    ensures
        tree_views(r@) == filed_all(trees_in(listing@), dirty@),
{
    let trees = parse_worktrees(listing);
    let ghost ts = trees_in(listing@);
    let mut out: Vec<Worktree> = Vec::new();
    let mut i: usize = 0;
    proof {
        assert(tree_views(out@) =~= filed_all(ts.take(0), dirty@.take(0)));
    }
    while i < trees.len()
        invariant
            i <= trees@.len(),
            tree_views(trees@) == ts,
            dirty@.len() == ts.len(),
            tree_views(out@) == filed_all(ts.take(i as int), dirty@.take(i as int)),
        decreases trees@.len() - i,
    {
        let t = &trees[i];
        let w = Worktree {
            name: t.name.clone(),
            path: t.path.clone(),
            branch: t.branch.clone(),
            dirty: dirty[i],
        };
        let ghost had = tree_views(out@);
        let ghost p = |x: WorktreeView| text_before(w.name@, x.name);
        let mut k: usize = 0;
        while k < out.len() && !comes_before(w.name.as_str(), out[k].name.as_str())
            invariant
                k <= out@.len(),
                had == tree_views(out@),
                p == (|x: WorktreeView| text_before(w.name@, x.name)),
                forall|j: int| 0 <= j < k ==> !p(#[trigger] had[j]),
            decreases out@.len() - k,
        {
            k = k + 1;
        }
        proof {
            lemma_first_where_is(had, p, k as int);
            assert(ts[i as int] == t@);
            assert(ts.take(i as int + 1).drop_last() =~= ts.take(i as int));
            assert(dirty@.take(i as int + 1).drop_last() =~= dirty@.take(i as int));
        }
        out.insert(k, w);
        proof {
            assert(tree_views(out@) =~= had.insert(k as int, w@));
        }
        i = i + 1;
    }
    proof {
        assert(ts.take(ts.len() as int) =~= ts);
        assert(dirty@.take(dirty@.len() as int) =~= dirty@);
    }
    out
}

/// A worktree of this name.
pub open spec fn tree_named(name: Seq<char>) -> spec_fn(WorktreeView) -> bool {
    |w: WorktreeView| w.name == name
}

/// The worktree for a name, among those there are.
pub open spec fn tree_for(
    trees: Result<Seq<WorktreeView>, RepoErrorView>,
    name: Seq<char>,
) -> Result<WorktreeView, RepoErrorView> {
    match (sanitised(name), trees) {
        (None, _) => Err(RepoErrorView::NotAName(name)),
        (Some(_), Err(e)) => Err(e),
        (Some(n), Ok(ts)) => {
            let k = first_where(ts, tree_named(n));
            if k < ts.len() {
                Ok(ts[k])
            } else {
                Err(RepoErrorView::NoSuch(n))
            }
        },
    }
}

/// A worktree, or why there is none, as values.
pub open spec fn tree_outcome(r: Result<Worktree, RepoError>) -> Result<
    WorktreeView,
    RepoErrorView,
> {
    match r {
        Ok(w) => Ok(w@),
        Err(e) => Err(e@),
    }
}

/// The worktree made for `name`, whatever directory it ended up in.
///
/// `trees` is what [`list_worktrees`] gives.
pub fn worktree_for(trees: &Result<Vec<Worktree>, RepoError>, name: &str) -> (r: Result<
    Worktree,
    RepoError,
>)
    ensures
        tree_outcome(r) == tree_for(trees_outcome(*trees), name@),
{
    let n = match sanitise(name) {
        Some(n) => n,
        None => {
            return Err(RepoError::NotAName(owned(name)));
        },
    };
    let trees = match trees {
        Ok(v) => v,
        Err(e) => {
            return Err(e.copy());
        },
    };
    let ghost ts = tree_views(trees@);
    let mut i: usize = 0;
    while i < trees.len() && !same(trees[i].name.as_str(), n.as_str())
        invariant
            i <= trees@.len(),
            ts == tree_views(trees@),
            forall|j: int| 0 <= j < i ==> !tree_named(n@)(#[trigger] ts[j]),
        decreases trees@.len() - i,
    {
        i = i + 1;
    }
    proof {
        lemma_first_where_is(ts, tree_named(n@), i as int);
    }
    if i < trees.len() {
        let t = &trees[i];
        Ok(
            Worktree {
                name: t.name.clone(),
                path: t.path.clone(),
                branch: t.branch.clone(),
                dirty: t.dirty,
            },
        )
    } else {
        Err(RepoError::NoSuch(n))
    }
}

/// Where a worktree is to be, and on what.
#[derive(Debug, Clone, PartialEq, Eq)]
pub struct TreePlan {
    pub root: String,
    pub path: String,
    pub branch: String,
}

/// The same, as text.
pub struct TreePlanView {
    pub root: Seq<char>,
    pub path: Seq<char>,
    pub branch: Seq<char>,
}

impl View for TreePlan {
    type V = TreePlanView;

    open spec fn view(&self) -> TreePlanView {
        TreePlanView { root: self.root@, path: self.path@, branch: self.branch@ }
    }
}

/// Where a worktree for `name` is to be.
pub open spec fn planned(
    dir: Seq<char>,
    name: Seq<char>,
    branch: Option<Seq<char>>,
    root: Option<Seq<char>>,
) -> Result<TreePlanView, RepoErrorView> {
    match (sanitised(name), root) {
        (None, _) => Err(RepoErrorView::Unusable(name)),
        (Some(_), None) => Err(RepoErrorView::NotARepository(dir)),
        (Some(n), Some(root)) => Ok(
            TreePlanView {
                root,
                path: tree_path(root, n),
                branch: match branch {
                    Some(b) => b,
                    None => BRANCH_PREFIX@ + n,
                },
            },
        ),
    }
}

/// Where a worktree for `name` is to be, and on what branch. `root` is [`main_root`] of the
/// directory.
pub fn plan_worktree(dir: &str, name: &str, branch: Option<&str>, root: Option<&str>) -> (r: Result<
    TreePlan,
    RepoError,
>)
    ensures
        match r {
            Ok(p) => planned(dir@, name@, opt_str(branch), opt_str(root)) == Ok::<
                TreePlanView,
                RepoErrorView,
            >(p@),
            Err(e) => planned(dir@, name@, opt_str(branch), opt_str(root)) == Err::<
                TreePlanView,
                RepoErrorView,
            >(e@),
        },
{
    let n = match sanitise(name) {
        Some(n) => n,
        None => {
            return Err(RepoError::Unusable(owned(name)));
        },
    };
    match root {
        None => Err(RepoError::NotARepository(owned(dir))),
        Some(root) => {
            let path = worktree_path(root, n.as_str());
            let branch = match branch {
                Some(b) => owned(b),
                None => {
                    let mut b = owned(BRANCH_PREFIX);
                    b.append(n.as_str());
                    b
                },
            };
            Ok(TreePlan { root: owned(root), path, branch })
        },
    }
}

/// What it takes to have a worktree.
#[derive(Debug, Clone, PartialEq, Eq)]
pub enum Placement {
    /// It is there.
    Existing(String),
    /// Make this directory, and run git with these arguments.
    Create { parent: String, args: Vec<String> },
}

/// The same, as text.
pub enum PlacementView {
    Existing(Seq<char>),
    Create { parent: Seq<char>, args: Seq<Seq<char>> },
}

impl View for Placement {
    type V = PlacementView;

    open spec fn view(&self) -> PlacementView {
        match *self {
            Placement::Existing(p) => PlacementView::Existing(p@),
            Placement::Create { parent, args } => PlacementView::Create {
                parent: parent@,
                args: texts(args@),
            },
        }
    }
}

/// What it takes to have a worktree: nothing where its branch is checked out already, and an
/// existing branch is checked out rather than made again.
pub open spec fn placed(
    p: TreePlanView,
    listing: Option<Seq<char>>,
    path_exists: bool,
    branch_exists: bool,
) -> Result<PlacementView, RepoErrorView> {
    let existing = match listing {
        Some(l) => on_branch(lines_of(l), p.branch, 0, None),
        None => None,
    };
    match existing {
        Some(there) => Ok(PlacementView::Existing(there)),
        None => if path_exists {
            Err(RepoErrorView::Taken(p.path))
        } else {
            Ok(
                PlacementView::Create {
                    parent: match parent(p.path) {
                        Some(up) => up,
                        None => p.root,
                    },
                    args: if branch_exists {
                        seq!["worktree"@, "add"@, p.path, p.branch]
                    } else {
                        seq!["worktree"@, "add"@, p.path, "-b"@, p.branch]
                    },
                },
            )
        },
    }
}

/// Create a worktree, or hand back the one that is already there: a pane that closed and is
/// being replaced should land back in the same tree.
///
/// `listing` is what `worktree list --porcelain` answered, `path_exists` whether anything
/// stands at the path, and `branch_exists` whether the branch does.
pub fn add_worktree(
    p: &TreePlan,
    listing: Option<&str>,
    path_exists: bool,
    branch_exists: bool,
) -> (r: Result<Placement, RepoError>)
    ensures
        match r {
            Ok(x) => placed(p@, opt_str(listing), path_exists, branch_exists) == Ok::<
                PlacementView,
                RepoErrorView,
            >(x@),
            Err(e) => placed(p@, opt_str(listing), path_exists, branch_exists) == Err::<
                PlacementView,
                RepoErrorView,
            >(e@),
        },
{
    let existing = match listing {
        Some(l) => worktree_on_branch(l, p.branch.as_str()),
        None => None,
    };
    if let Some(there) = existing {
        return Ok(Placement::Existing(there));
    }
    // The path is free of git but not of the filesystem.
    if path_exists {
        return Err(RepoError::Taken(p.path.clone()));
    }
    let parent = match parent_in(p.path.as_str()) {
        Some(up) => up,
        None => p.root.clone(),
    };
    let args: Vec<String> = if branch_exists {
        vec![owned("worktree"), owned("add"), p.path.clone(), p.branch.clone()]
    } else {
        vec![owned("worktree"), owned("add"), p.path.clone(), owned("-b"), p.branch.clone()]
    };
    proof {
        if branch_exists {
            assert(texts(args@) =~= seq!["worktree"@, "add"@, p.path@, p.branch@]);
        } else {
            assert(texts(args@) =~= seq!["worktree"@, "add"@, p.path@, "-b"@, p.branch@]);
        }
    }
    Ok(Placement::Create { parent, args })
}

/// A worktree to remove, and the command that does it.
pub struct RemovalView {
    pub path: Seq<char>,
    pub args: Seq<Seq<char>>,
}

/// A worktree to remove, and the command that does it.
#[derive(Debug, Clone, PartialEq, Eq)]
pub struct Removal {
    pub path: String,
    pub args: Vec<String>,
}

impl View for Removal {
    type V = RemovalView;

    open spec fn view(&self) -> RemovalView {
        RemovalView { path: self.path@, args: texts(self.args@) }
    }
}

/// What removing a worktree takes.
pub open spec fn removal(
    trees: Result<Seq<WorktreeView>, RepoErrorView>,
    name: Seq<char>,
    force: bool,
) -> Result<RemovalView, RepoErrorView> {
    match sanitised(name) {
        None => Err(RepoErrorView::NotAName(name)),
        Some(n) => match tree_for(trees, n) {
            Err(e) => Err(e),
            Ok(w) => Ok(
                RemovalView {
                    path: w.path,
                    args: if force {
                        seq!["worktree"@, "remove"@, "--force"@, w.path]
                    } else {
                        seq!["worktree"@, "remove"@, w.path]
                    },
                },
            ),
        },
    }
}

/// What removing a worktree takes, or why it cannot be, as values.
pub open spec fn removal_outcome(r: Result<Removal, RepoError>) -> Result<
    RemovalView,
    RepoErrorView,
> {
    match r {
        Ok(x) => Ok(x@),
        Err(e) => Err(e@),
    }
}

/// Remove one worktree. The branch survives: it may hold commits. Git itself refuses a dirty
/// tree unless forced. `trees` is what [`list_worktrees`] gives.
pub fn remove_worktree(
    trees: &Result<Vec<Worktree>, RepoError>,
    name: &str,
    force: bool,
) -> (r: Result<Removal, RepoError>)
    ensures
        removal_outcome(r) == removal(trees_outcome(*trees), name@, force),
{
    let n = match sanitise(name) {
        Some(n) => n,
        None => {
            return Err(RepoError::NotAName(owned(name)));
        },
    };
    match worktree_for(trees, n.as_str()) {
        Err(e) => Err(e),
        Ok(w) => {
            let mut args: Vec<String> = vec![owned("worktree"), owned("remove")];
            if force {
                args.push(owned("--force"));
            }
            args.push(w.path.clone());
            proof {
                if force {
                    assert(texts(args@) =~= seq!["worktree"@, "remove"@, "--force"@, w.path@]);
                } else {
                    assert(texts(args@) =~= seq!["worktree"@, "remove"@, w.path@]);
                }
            }
            Ok(Removal { path: w.path, args })
        },
    }
}

// -- laws --------------------------------------------------------------------

proof fn lemma_listing_is_ours(ls: Seq<Seq<char>>, i: int)
    requires
        0 <= i < listing_of(ls).found.len(),
    ensures
        begins(listing_of(ls).found[i].branch, BRANCH_PREFIX@),
        listing_of(ls).found[i].name == listing_of(ls).found[i].branch.skip(
            BRANCH_PREFIX@.len() as int,
        ),
    decreases ls.len(),
{
    let before = listing_of(ls.drop_last()).found;
    if i < before.len() {
        assert(listing_of(ls).found[i] == before[i]);
        lemma_listing_is_ours(ls.drop_last(), i);
    }
}

/// A tree you made yourself is never listed, wherever it is: every worktree listed is on an
/// agent's branch, and is named by the half of the branch after the prefix.
pub proof fn law_only_agents_trees_are_listed(listing: Seq<char>, i: int)
    requires
        0 <= i < trees_in(listing).len(),
    ensures
        begins(trees_in(listing)[i].branch, BRANCH_PREFIX@),
        trees_in(listing)[i].name == trees_in(listing)[i].branch.skip(
            BRANCH_PREFIX@.len() as int,
        ),
{
    lemma_listing_is_ours(lines_of(listing).push(Seq::empty()), i);
}

/// A name that survives is one path component and one ref component: it is not empty, holds
/// only letters, digits, dashes, underscores and dots, and starts and ends with neither a dash
/// nor a dot.
pub proof fn law_a_sanitised_name_is_safe(name: Seq<char>)
    requires
        sanitised(name) is Some,
    ensures
        ({
            let s = sanitised(name)->Some_0;
            &&& s.len() > 0
            &&& forall|i: int| 0 <= i < s.len() ==> is_plain(#[trigger] s[i])
            &&& s[0] != '-' && s[0] != '.'
            &&& s.last() != '-' && s.last() != '.'
        }),
{
    reveal_strlit("-.");
    let p = class("-."@, false);
    assert("-."@[0] == '-' && "-."@[1] == '.');
    let d = dashed(trimmed(name));
    let a = lemma_skip_while_at(d, p);
    let t = skip_while(d, p);
    let b = lemma_drop_while_at(t, p);
    let s = sanitised(name)->Some_0;
    assert(s == t.subrange(0, b));
    assert(s[0] == t[0] && t[0] == d[a]);
    assert(s.last() == t[b - 1]);
    assert("-."@.contains('-')) by {
        assert("-."@[0] == '-');
    }
    assert("-."@.contains('.')) by {
        assert("-."@[1] == '.');
    }
    assert forall|i: int| 0 <= i < s.len() implies is_plain(#[trigger] s[i]) by {
        assert(s[i] == d[a + i]);
    }
}

/// Asking twice for the same worktree is a resume: once its branch is checked out, the answer
/// is the tree it is checked out in, and nothing is created.
pub proof fn law_asking_again_resumes(
    p: TreePlanView,
    listing: Seq<char>,
    there: Seq<char>,
    path_exists: bool,
    branch_exists: bool,
)
    requires
        on_branch(lines_of(listing), p.branch, 0, None) == Some(there),
    ensures
        placed(p, Some(listing), path_exists, branch_exists) == Ok::<PlacementView, RepoErrorView>(
            PlacementView::Existing(there),
        ),
{
}

/// What is read of a directory is kept until it is old, and other directories are not touched
/// by reading one.
pub proof fn law_the_cache_keeps_what_is_fresh(
    c: Map<Seq<Seq<char>>, EntryView>,
    dir: Seq<char>,
    other: Seq<char>,
    now: u64,
    later: u64,
    repo: Option<RepoView>,
)
    requires
        is_stale(c, dir, now),
        now <= later < now + REFRESH,
    ensures
        ({
            let after = c.insert(place(dir), EntryView { dir, at: now, repo });
            &&& !is_stale(after, dir, later)
            &&& peeked(after, dir) == repo
            &&& same_place(other, dir) ==> peeked(after, other) == repo && !is_stale(after, other, later)
            &&& !same_place(other, dir) ==> peeked(after, other) == peeked(c, other)
        }),
{
}

} // verus!
